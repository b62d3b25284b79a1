use guarded_map::ComputeOutcome;
use guarded_map::HashMap;

#[test]
fn scenario_insert_try_insert_lookup_remove() {
    let map = HashMap::<u64>::new();
    let mut r = map.pin();
    assert_eq!(r.insert(10, 1), None);
    let failed = r.try_insert(10, 2);
    match failed {
        Ok(()) => panic!("try_insert must fail on a taken key"),
        Err(e) => assert_eq!(e.not_inserted, 2),
    }
    assert_eq!(r.get(10), Some(&1));
    assert_eq!(r.remove(10), Some(1));
    assert_eq!(r.get(10), None);
    assert_eq!(r.remove(10), None);
}

#[test]
fn try_insert_first_creator_wins() {
    let map = HashMap::<u64>::new();
    let mut r = map.pin();
    assert!(r.try_insert(5, 100).is_ok());
    for attempt in 0..10u64 {
        assert!(r.try_insert(5, attempt).is_err());
        assert_eq!(r.get(5), Some(&100));
    }
    assert_eq!(r.len(), 1);
}

#[test]
fn insert_replaces_and_returns_previous() {
    let map = HashMap::<&str>::new();
    let mut r = map.pin();
    assert_eq!(r.insert(1, "first"), None);
    assert_eq!(r.insert(1, "second"), Some("first"));
    assert_eq!(r.get(1), Some(&"second"));
    assert_eq!(r.len(), 1);
}

#[test]
fn growth_keeps_every_binding() {
    let map = HashMap::<u64>::new();
    let mut r = map.pin();
    for k in 0..32u64 {
        assert_eq!(r.insert(k, k * k), None);
    }
    // force further growth past the first batch
    for k in 32..64u64 {
        assert_eq!(r.insert(k, k * k), None);
    }
    assert_eq!(r.len(), 64);
    for k in 0..64u64 {
        assert_eq!(r.get(k), Some(&(k * k)));
        assert!(r.contains_key(k));
    }
}

#[test]
fn reserve_then_insert() {
    let map = HashMap::<u64>::new();
    let mut r = map.pin();
    r.reserve(100);
    for k in 0..100u64 {
        r.insert(k, k + 1);
    }
    assert_eq!(r.len(), 100);
    for k in 0..100u64 {
        assert_eq!(r.get(k), Some(&(k + 1)));
    }
}

#[test]
fn remove_entry_returns_key_and_value() {
    let map = HashMap::<&str>::new();
    let mut r = map.pin();
    r.insert(7, "seven");
    assert_eq!(r.remove_entry(7), Some((7, "seven")));
    assert_eq!(r.remove_entry(7), None);
}

#[test]
fn get_key_value_pairs() {
    let map = HashMap::<&str>::new();
    let mut r = map.pin();
    r.insert(3, "three");
    assert_eq!(r.get_key_value(3), Some((3, &"three")));
    assert_eq!(r.get_key_value(4), None);
}

#[test]
fn len_and_is_empty() {
    let map = HashMap::<u64>::new();
    let mut r = map.pin();
    assert!(r.is_empty());
    assert_eq!(r.len(), 0);
    r.insert(1, 1);
    r.insert(2, 2);
    assert!(!r.is_empty());
    assert_eq!(r.len(), 2);
    r.remove(1);
    assert_eq!(r.len(), 1);
}

#[test]
fn clear_empties_the_map() {
    let map = HashMap::<u64>::new();
    let mut r = map.pin();
    for k in 0..20u64 {
        r.insert(k, k);
    }
    r.clear();
    assert!(r.is_empty());
    assert_eq!(r.get(3), None);
    // the cleared map accepts entries again
    r.insert(3, 33);
    assert_eq!(r.get(3), Some(&33));
}

#[test]
fn compute_if_present_updates() {
    let map = HashMap::<u64>::new();
    let mut r = map.pin();
    r.insert(1, 41);
    let outcome = r.compute_if_present(1, |_k: &u64, v: &u64| Some(v + 1));
    assert!(matches!(outcome, ComputeOutcome::Updated(41)));
    assert_eq!(r.get(1), Some(&42));
}

#[test]
fn compute_if_present_removes() {
    let map = HashMap::<u64>::new();
    let mut r = map.pin();
    r.insert(1, 5);
    let outcome = r.compute_if_present(1, |_k: &u64, _v: &u64| None);
    assert!(matches!(outcome, ComputeOutcome::Removed(5)));
    assert_eq!(r.get(1), None);
    assert_eq!(r.len(), 0);
}

#[test]
fn compute_if_present_reports_absent() {
    let map = HashMap::<u64>::new();
    let mut r = map.pin();
    let outcome = r.compute_if_present(9, |_k: &u64, v: &u64| Some(*v));
    assert!(matches!(outcome, ComputeOutcome::Absent));
    assert!(r.is_empty());
}

#[test]
fn compute_if_present_counter_increments() {
    let map = HashMap::<u64>::new();
    let mut r = map.pin();
    r.insert(0, 0);
    for _ in 0..1000 {
        let outcome = r.compute_if_present(0, |_k: &u64, v: &u64| Some(v + 1));
        assert!(matches!(outcome, ComputeOutcome::Updated(_)));
    }
    assert_eq!(r.get(0), Some(&1000));
}

#[test]
fn retain_keeps_even_values() {
    let map = HashMap::<u64>::new();
    let mut r = map.pin();
    for k in 0..10u64 {
        r.insert(k, k);
    }
    r.retain(|_k: &u64, v: &u64| v % 2 == 0);
    assert_eq!(r.len(), 5);
    for k in 0..10u64 {
        if k % 2 == 0 {
            assert_eq!(r.get(k), Some(&k));
        } else {
            assert_eq!(r.get(k), None);
        }
    }
}

#[test]
fn retain_and_retain_force_agree() {
    let lazy = HashMap::<u64>::new();
    let mut lazy_ref = lazy.pin();
    let force = HashMap::<u64>::new();
    let mut force_ref = force.pin();
    for k in 0..10u64 {
        lazy_ref.insert(k, k);
        force_ref.insert(k, k);
    }
    lazy_ref.retain(|_k: &u64, v: &u64| v % 2 == 0);
    force_ref.retain_force(|_k: &u64, v: &u64| v % 2 == 0);
    assert_eq!(lazy_ref.len(), force_ref.len());
    // a later compaction that keeps everything changes no length
    lazy_ref.retain_force(|_k: &u64, _v: &u64| true);
    assert_eq!(lazy_ref.len(), force_ref.len());
    for k in 0..10u64 {
        assert_eq!(lazy_ref.get(k), force_ref.get(k));
    }
}

#[test]
fn iter_keys_values_cover_all_entries() {
    let map = HashMap::<u64>::new();
    let mut r = map.pin();
    for k in 1..=5u64 {
        r.insert(k, 10 * k);
    }
    let mut pairs: Vec<(u64, u64)> = r.iter().into_iter().map(|(k, v)| (k, *v)).collect();
    pairs.sort();
    assert_eq!(pairs, vec![(1, 10), (2, 20), (3, 30), (4, 40), (5, 50)]);
    let mut keys = r.keys();
    keys.sort();
    assert_eq!(keys, vec![1, 2, 3, 4, 5]);
    let mut values: Vec<u64> = r.values().into_iter().copied().collect();
    values.sort();
    assert_eq!(values, vec![10, 20, 30, 40, 50]);
}

#[test]
fn equality_ignores_insertion_order() {
    let a = HashMap::<&str>::new();
    let mut a_ref = a.pin();
    a_ref.insert(1, "a");
    a_ref.insert(2, "b");
    let b = HashMap::<&str>::new();
    let mut b_ref = b.pin();
    b_ref.insert(2, "b");
    b_ref.insert(1, "a");
    assert!(a_ref.guarded_eq(&b_ref));
    assert!(b_ref.guarded_eq(&a_ref));
    b_ref.remove(1);
    assert!(!a_ref.guarded_eq(&b_ref));
    assert!(!b_ref.guarded_eq(&a_ref));
}

#[test]
fn equality_sees_value_differences() {
    let a = HashMap::<u64>::new();
    let mut a_ref = a.pin();
    a_ref.insert(1, 1);
    let b = HashMap::<u64>::new();
    let mut b_ref = b.pin();
    b_ref.insert(1, 2);
    assert!(!a_ref.guarded_eq(&b_ref));
    b_ref.insert(1, 1);
    assert!(a_ref.guarded_eq(&b_ref));
}

#[test]
fn unpin_hands_the_map_back() {
    let map = HashMap::<u64>::new();
    let mut r = map.pin();
    r.insert(1, 1);
    let map = r.unpin();
    let r2 = map.pin();
    assert_eq!(r2.get(1), Some(&1));
}

#[test]
fn with_guard_borrows_the_callers_guard() {
    let mut map = HashMap::<u64>::new();
    let guard = map.guard();
    let mut r = map.with_guard(&guard);
    r.insert(4, 44);
    assert_eq!(r.get(4), Some(&44));
    // dismantling a borrowed view releases nothing; the guard is still usable
    let map = r.unpin();
    let r2 = map.with_guard(&guard);
    assert_eq!(r2.get(4), Some(&44));
}

#[test]
fn per_key_history_ignores_other_keys() {
    let map = HashMap::<u64>::new();
    let mut r = map.pin();
    // interleave operations on key 1 with traffic on other keys
    r.insert(1, 10);
    r.insert(2, 20);
    r.remove(2);
    r.compute_if_present(1, |_k: &u64, v: &u64| Some(v + 5));
    r.insert(3, 30);
    r.remove(1);
    r.insert(1, 99);
    r.clear();
    r.insert(1, 7);
    // key 1 holds what its own operation subsequence, in order, leaves behind
    assert_eq!(r.get(1), Some(&7));
    assert_eq!(r.get(2), None);
    assert_eq!(r.get(3), None);
}

#[test]
fn view_compares_equal_to_unguarded_map() {
    let a = HashMap::<u64>::new();
    let mut a_ref = a.pin();
    a_ref.insert(1, 1);
    a_ref.insert(2, 2);
    let b = HashMap::<u64>::new();
    let mut b_ref = b.pin();
    b_ref.insert(2, 2);
    b_ref.insert(1, 1);
    let mut b = b_ref.unpin();
    assert!(a_ref.eq_map(&mut b));
    let mut b_ref = b.pin();
    b_ref.remove(2);
    let mut b = b_ref.unpin();
    assert!(!a_ref.eq_map(&mut b));
}

#[test]
fn values_keep_duplicates_per_entry() {
    let map = HashMap::<u64>::new();
    let mut r = map.pin();
    r.insert(1, 7);
    r.insert(2, 7);
    r.insert(3, 8);
    let mut values: Vec<u64> = r.values().into_iter().copied().collect();
    values.sort();
    // one value per entry: the duplicated value appears twice
    assert_eq!(values, vec![7, 7, 8]);
}
