//! The algebraic laws of the table's operations, stated and proved over the
//! map views that the operations' contracts speak of. `put`, `get` and
//! `remove` relate a table's view to `Map::insert`, `Map::index` and
//! `Map::remove`; the laws here say what those views then satisfy.

use vstd::prelude::*;

use crate::table::Keytype;

verus! {

/// Round trip: after a put of `(k, v)` the key maps to `v`, whatever the
/// table held before.
pub proof fn lemma_round_trip<T>(m: Map<Keytype, T>, k: Keytype, v: T)
    ensures
        m.insert(k, v).dom().contains(k),
        m.insert(k, v)[k] == v,
{
}

/// A put of another key leaves a key's binding alone: a value stays
/// readable until its own key is overwritten or removed.
pub proof fn lemma_put_preserves_other<T>(m: Map<Keytype, T>, k: Keytype, k2: Keytype, v2: T)
    requires
        k != k2,
    ensures
        m.insert(k2, v2).dom().contains(k) == m.dom().contains(k),
        m.dom().contains(k) ==> m.insert(k2, v2)[k] == m[k],
{
}

/// A removal of another key leaves a key's binding alone.
pub proof fn lemma_remove_preserves_other<T>(m: Map<Keytype, T>, k: Keytype, k2: Keytype)
    requires
        k != k2,
    ensures
        m.remove(k2).dom().contains(k) == m.dom().contains(k),
        m.dom().contains(k) ==> m.remove(k2)[k] == m[k],
{
}

/// Overwrite: two puts of the same key leave exactly the second value, and
/// the set of live keys after the second put is the same as after the
/// first, so the live-entry count does not change.
pub proof fn lemma_overwrite<T>(m: Map<Keytype, T>, k: Keytype, v1: T, v2: T)
    ensures
        m.insert(k, v1).insert(k, v2) == m.insert(k, v2),
        m.insert(k, v1).insert(k, v2).dom() == m.insert(k, v1).dom(),
{
    assert(m.insert(k, v1).insert(k, v2) =~= m.insert(k, v2));
    assert(m.insert(k, v1).insert(k, v2).dom() =~= m.insert(k, v1).dom());
}

/// The view reached from `m` by a sequence of puts, applied in order.
pub open spec fn apply_puts<T>(m: Map<Keytype, T>, ops: Seq<(Keytype, T)>) -> Map<Keytype, T>
    decreases ops.len(),
{
    if ops.len() == 0 {
        m
    } else {
        apply_puts(m, ops.drop_last()).insert(ops.last().0, ops.last().1)
    }
}

/// Bulk insertion preserves data: after any sequence of puts — however many
/// rehashes occurred along the way, since a put's contract is the same plain
/// `insert` either way — every key written by the sequence is present and
/// maps to its last-written value.
pub proof fn lemma_puts_last_write<T>(m: Map<Keytype, T>, ops: Seq<(Keytype, T)>, j: int)
    requires
        0 <= j < ops.len(),
        forall|j2: int| j < j2 < ops.len() ==> (#[trigger] ops[j2]).0 != ops[j].0,
    ensures
        apply_puts(m, ops).dom().contains(ops[j].0),
        apply_puts(m, ops)[ops[j].0] == ops[j].1,
    decreases ops.len(),
{
    if j == ops.len() - 1 {
    } else {
        lemma_puts_last_write(m, ops.drop_last(), j);
    }
}

/// A key no put of the sequence wrote keeps its old binding.
pub proof fn lemma_puts_untouched<T>(m: Map<Keytype, T>, ops: Seq<(Keytype, T)>, k: Keytype)
    requires
        forall|j: int| 0 <= j < ops.len() ==> (#[trigger] ops[j]).0 != k,
    ensures
        apply_puts(m, ops).dom().contains(k) == m.dom().contains(k),
        m.dom().contains(k) ==> apply_puts(m, ops)[k] == m[k],
    decreases ops.len(),
{
    if ops.len() > 0 {
        lemma_puts_untouched(m, ops.drop_last(), k);
    }
}

} // verus!
