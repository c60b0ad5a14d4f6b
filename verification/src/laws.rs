//! Laws that relate several operations, stated over the table's mathematical
//! view and proved once for every table.

use vstd::prelude::*;

verus! {

/// The map reached from `m` by performing the inserts of `ops` in order.
pub open spec fn insert_all<Kv, V>(m: Map<Kv, V>, ops: Seq<(Kv, V)>) -> Map<Kv, V>
    decreases ops.len(),
{
    if ops.len() == 0 {
        m
    } else {
        insert_all(m, ops.drop_last()).insert(ops.last().0, ops.last().1)
    }
}

/// Deletion: a deleted key is absent from the resulting table. Together with
/// the contracts of `delete`, `get` and `contains_key`, this says that after
/// `delete(k)` succeeds, `get(k)` returns nothing and `contains_key(k)` is
/// false.
pub proof fn lemma_removed_key_absent<Kv, V>(m: Map<Kv, V>, k: Kv)
    ensures
        !m.remove(k).contains_key(k),
{
}

/// Round trip: after any sequence of inserts, a key is mapped to the value of
/// its last insert in the sequence. Together with the contracts of `insert`
/// and `get`, this says that `get` on an inserted key returns the value most
/// recently inserted for that key.
pub proof fn lemma_insert_round_trip<Kv, V>(m: Map<Kv, V>, ops: Seq<(Kv, V)>, n: int)
    requires
        0 <= n < ops.len(),
        forall|e: int| n < e < ops.len() ==> (#[trigger] ops[e]).0 != ops[n].0,
    ensures
        insert_all(m, ops).contains_key(ops[n].0),
        insert_all(m, ops)[ops[n].0] == ops[n].1,
    decreases ops.len(),
{
    if n < ops.len() - 1 {
        lemma_insert_round_trip(m, ops.drop_last(), n);
    }
}

} // verus!
