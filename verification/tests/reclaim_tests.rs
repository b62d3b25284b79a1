use guarded_map::Collector;

#[test]
fn guard_protects_objects_retired_under_it() {
    let mut c = Collector::new();
    let g = c.pin();
    c.retire(7);
    // the guard was pinned at or before the retirement: nothing may be freed
    let freed = c.collect();
    assert!(freed.is_empty());
    c.unpin(g);
    c.advance();
    // with no guard left, the retired object is reclaimed
    let freed = c.collect();
    assert_eq!(freed.len(), 1);
    assert_eq!(freed[0].0, 7);
    // and it is reclaimed exactly once
    let freed = c.collect();
    assert!(freed.is_empty());
}

#[test]
fn later_guard_does_not_protect_earlier_retirement() {
    let mut c = Collector::new();
    c.retire(1);
    // retiring advanced the epoch, so this guard is pinned after the
    // retirement and does not protect it
    let g = c.pin();
    let freed = c.collect();
    assert_eq!(freed.len(), 1);
    assert_eq!(freed[0].0, 1);
    c.unpin(g);
}

#[test]
fn oldest_active_guard_decides() {
    let mut c = Collector::new();
    let g_old = c.pin();
    c.retire(1);
    let g_new = c.pin();
    c.retire(2);
    c.unpin(g_new);
    // g_old still protects both retirements
    assert!(c.collect().is_empty());
    c.unpin(g_old);
    let freed = c.collect();
    assert_eq!(freed.len(), 2);
}
