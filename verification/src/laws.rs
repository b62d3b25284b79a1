//! Laws of the mutation engine, stated over the association model that every
//! contract in this crate speaks of, and proved once and for all.

use vstd::prelude::*;

verus! {

/// One per-key operation of the mutation engine, as it acts on the stored
/// association.
pub enum MapOp<V> {
    /// Unconditional insert of a value under a key.
    Insert(u64, V),
    /// Removal of a key.
    Remove(u64),
    /// Conditional update: replaces the value only where the key is present.
    Update(u64, V),
}

/// The key an operation touches.
pub open spec fn op_key<V>(op: MapOp<V>) -> u64 {
    match op {
        MapOp::Insert(k, _) => k,
        MapOp::Remove(k) => k,
        MapOp::Update(k, _) => k,
    }
}

/// What one operation does to the association, exactly as the contracts of
/// `insert`, `remove` and `compute_if_present` state it.
pub open spec fn apply_op<V>(m: Map<u64, V>, op: MapOp<V>) -> Map<u64, V> {
    match op {
        MapOp::Insert(k, v) => m.insert(k, v),
        MapOp::Remove(k) => m.remove(k),
        MapOp::Update(k, v) => if m.contains_key(k) {
            m.insert(k, v)
        } else {
            m
        },
    }
}

/// A whole sequence of operations, applied in order.
pub open spec fn apply_ops<V>(m: Map<u64, V>, ops: Seq<MapOp<V>>) -> Map<u64, V>
    decreases ops.len(),
{
    if ops.len() == 0 {
        m
    } else {
        apply_op(apply_ops(m, ops.drop_last()), ops.last())
    }
}

/// The operations touching one key, in their order of appearance, with every other
/// operation dropped.
pub open spec fn ops_on_key<V>(ops: Seq<MapOp<V>>, k: u64) -> Seq<MapOp<V>>
    decreases ops.len(),
{
    if ops.len() == 0 {
        Seq::empty()
    } else if op_key(ops.last()) == k {
        ops_on_key(ops.drop_last(), k).push(ops.last())
    } else {
        ops_on_key(ops.drop_last(), k)
    }
}

/// What the association holds under a key, if anything.
pub open spec fn value_at<V>(m: Map<u64, V>, k: u64) -> Option<V> {
    if m.contains_key(k) {
        Some(m[k])
    } else {
        None
    }
}

/// Per-key linearizability: after any sequence of insert, remove and
/// conditional-update operations, what a key holds is what the subsequence of
/// operations on that key alone, applied in the same order, leaves behind —
/// operations on other keys never disturb it.
pub proof fn lemma_per_key_linear<V>(m: Map<u64, V>, ops: Seq<MapOp<V>>, k: u64)
    ensures
        value_at(apply_ops(m, ops), k) == value_at(apply_ops(m, ops_on_key(ops, k)), k),
    decreases ops.len(),
{
    if ops.len() > 0 {
        lemma_per_key_linear(m, ops.drop_last(), k);
        let op = ops.last();
        let a = apply_ops(m, ops.drop_last());
        let b = apply_ops(m, ops_on_key(ops.drop_last(), k));
        if op_key(op) == k {
            let sub = ops_on_key(ops.drop_last(), k).push(op);
            assert(sub.drop_last() =~= ops_on_key(ops.drop_last(), k));
            assert(sub.last() == op);
            assert(apply_ops(m, sub) == apply_op(b, op));
            assert(a.contains_key(k) <==> b.contains_key(k));
        } else {
            assert(value_at(apply_op(a, op), k) == value_at(a, k));
        }
    }
}

/// `n` conditional updates, each replacing a counter with its successor.
pub open spec fn inc_n(m: Map<u64, int>, k: u64, n: nat) -> Map<u64, int>
    decreases n,
{
    if n == 0 {
        m
    } else {
        let p = inc_n(m, k, (n - 1) as nat);
        if p.contains_key(k) {
            p.insert(k, p[k] + 1)
        } else {
            p
        }
    }
}

/// No lost updates: with the key present, `n` increments through the
/// conditional-update model raise the stored counter by exactly `n` — no
/// increment silently disappears.
pub proof fn lemma_no_lost_updates(m: Map<u64, int>, k: u64, n: nat)
    requires
        m.contains_key(k),
    ensures
        inc_n(m, k, n).contains_key(k),
        inc_n(m, k, n)[k] == m[k] + n,
    decreases n,
{
    if n > 0 {
        lemma_no_lost_updates(m, k, (n - 1) as nat);
    }
}

/// What `try_insert` does to the association, exactly as its contract states
/// it: nothing where the key is taken, an insert where it is free.
pub open spec fn try_insert_spec<V>(m: Map<u64, V>, k: u64, v: V) -> Map<u64, V> {
    if m.contains_key(k) {
        m
    } else {
        m.insert(k, v)
    }
}

/// Exactly one creator wins: the first try-insert on a free key stores its
/// value, and any later try-insert on that key leaves the stored value
/// untouched.
pub proof fn lemma_try_insert_first_wins<V>(m: Map<u64, V>, k: u64, v: V, w: V)
    requires
        !m.contains_key(k),
    ensures
        try_insert_spec(m, k, v).contains_key(k),
        try_insert_spec(m, k, v)[k] == v,
        try_insert_spec(try_insert_spec(m, k, v), k, w) == try_insert_spec(m, k, v),
{
}

/// A batch of inserts, applied in order.
pub open spec fn insert_all<V>(m: Map<u64, V>, pairs: Seq<(u64, V)>) -> Map<u64, V>
    decreases pairs.len(),
{
    if pairs.len() == 0 {
        m
    } else {
        insert_all(m, pairs.drop_last()).insert(pairs.last().0, pairs.last().1)
    }
}

/// Growth keeps every binding: after inserting a batch of distinctly keyed
/// entries — however many resizes that forces — every key of the batch holds
/// exactly the value the batch gave it.
pub proof fn lemma_inserts_preserved<V>(m: Map<u64, V>, pairs: Seq<(u64, V)>, i: int)
    requires
        forall|a: int, b: int|
            0 <= a < b < pairs.len() ==> (#[trigger] pairs[a]).0 != (#[trigger] pairs[b]).0,
        0 <= i < pairs.len(),
    ensures
        insert_all(m, pairs).contains_key(pairs[i].0),
        insert_all(m, pairs)[pairs[i].0] == pairs[i].1,
    decreases pairs.len(),
{
    if i < pairs.len() - 1 {
        assert(forall|a: int, b: int|
            0 <= a < b < pairs.drop_last().len() ==> pairs.drop_last()[a] == pairs[a]
                && pairs.drop_last()[b] == pairs[b]);
        lemma_inserts_preserved(m, pairs.drop_last(), i);
        assert(pairs[i].0 != pairs.last().0);
    }
}

/// A key no batch entry carries is left exactly as it was.
pub proof fn lemma_inserts_other_keys<V>(m: Map<u64, V>, pairs: Seq<(u64, V)>, k: u64)
    requires
        forall|a: int| 0 <= a < pairs.len() ==> (#[trigger] pairs[a]).0 != k,
    ensures
        value_at(insert_all(m, pairs), k) == value_at(m, k),
    decreases pairs.len(),
{
    if pairs.len() > 0 {
        assert(forall|a: int|
            0 <= a < pairs.drop_last().len() ==> pairs.drop_last()[a] == pairs[a]);
        lemma_inserts_other_keys(m, pairs.drop_last(), k);
    }
}

/// The association a retain pass leaves behind when the predicate answers the
/// function `p` of key and value.
pub open spec fn retain_spec<V>(m: Map<u64, V>, p: spec_fn(u64, V) -> bool) -> Map<u64, V> {
    Map::new(|k: u64| m.contains_key(k) && p(k, m[k]), |k: u64| m[k])
}

/// The relational retain contract pins the result down: any outcome that
/// keeps exactly the entries a function `p` accepts is `retain_spec`. Both
/// retain flavours carry that contract, so with one deterministic predicate
/// they leave identical associations — and identical reported lengths.
pub proof fn lemma_retain_exact<V>(pre: Map<u64, V>, post: Map<u64, V>, p: spec_fn(u64, V) -> bool)
    requires
        forall|k: u64|
            #[trigger] post.contains_key(k) ==> pre.contains_key(k) && post[k] == pre[k],
        forall|k: u64|
            #[trigger] pre.contains_key(k) ==> (post.contains_key(k) <==> p(k, pre[k])),
    ensures
        post =~= retain_spec(pre, p),
{
    assert forall|k: u64| #[trigger] post.dom().contains(k) <==> retain_spec(
        pre,
        p,
    ).dom().contains(k) by {
        if post.contains_key(k) {
            assert(pre.contains_key(k));
        }
    }
}

/// A retain pass whose predicate accepts everything changes nothing.
pub proof fn lemma_retain_true_is_identity<V>(m: Map<u64, V>)
    ensures
        retain_spec(m, |k: u64, v: V| true) =~= m,
{
}

/// Insertion order of distinct keys does not matter: the two orders build the
/// same association.
pub proof fn lemma_insert_commutes<V>(m: Map<u64, V>, k1: u64, v1: V, k2: u64, v2: V)
    requires
        k1 != k2,
    ensures
        m.insert(k1, v1).insert(k2, v2) =~= m.insert(k2, v2).insert(k1, v1),
{
}

/// Removing a present key breaks equality with the association it came from.
pub proof fn lemma_remove_breaks_eq<V>(m: Map<u64, V>, k: u64)
    requires
        m.contains_key(k),
    ensures
        m.remove(k) != m,
{
    assert(!m.remove(k).contains_key(k));
}

} // verus!
