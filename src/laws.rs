//! Laws that relate several operations of the store.
use vstd::prelude::*;
use crate::keyspace::{root_of, trie_key, Contents};
use crate::manager::{any_fit, fits, in_window, last_fit, retained, snapshot_state, ManagerModel, SnapshotModel};
use crate::state::{committed, StateModel};
use crate::state::value_at;

verus! {

/// The content after a run of `set` operations, in order.
pub open spec fn apply_sets(c: Contents, ops: Seq<(Seq<u8>, Seq<u8>)>) -> Contents
    decreases ops.len(),
{
    if ops.len() == 0 {
        c
    } else {
        apply_sets(c, ops.drop_last()).insert(trie_key(ops.last().0), (ops.last().0, ops.last().1))
    }
}

/// No two operations of the run write one trie key differently.
pub open spec fn consistent(ops: Seq<(Seq<u8>, Seq<u8>)>) -> bool {
    forall|i: int, j: int|
        0 <= i < ops.len() && 0 <= j < ops.len() && trie_key(#[trigger] ops[i].0) == trie_key(#[trigger] ops[j].0)
            ==> ops[i] == ops[j]
}

/// After `set(k, v)`, `get(k)` finds `v`.
pub proof fn lemma_set_then_get(c: Contents, key: Seq<u8>, value: Seq<u8>)
    ensures
        value_at(c.insert(trie_key(key), (key, value)), key) == Some(value),
{
}

proof fn lemma_apply_sets_shape(ops: Seq<(Seq<u8>, Seq<u8>)>)
    requires
        consistent(ops),
    ensures
        forall|t: Seq<u8>| #[trigger] apply_sets(Map::empty(), ops).contains_key(t)
            <==> exists|i: int| 0 <= i < ops.len() && trie_key(ops[i].0) == t,
        forall|i: int| 0 <= i < ops.len() ==> apply_sets(Map::empty(), ops)[trie_key(#[trigger] ops[i].0)] == (ops[i].0, ops[i].1),
    decreases ops.len(),
{
    if ops.len() > 0 {
        let init = ops.drop_last();
        assert forall|i: int, j: int|
            0 <= i < init.len() && 0 <= j < init.len() && trie_key(#[trigger] init[i].0) == trie_key(#[trigger] init[j].0)
                implies init[i] == init[j] by {
            assert(ops[i] == init[i] && ops[j] == init[j]);
        }
        lemma_apply_sets_shape(init);
        let m = apply_sets(Map::empty(), ops);
        let last = ops.len() - 1;
        assert(m == apply_sets(Map::empty(), init).insert(trie_key(ops[last].0), (ops[last].0, ops[last].1)));
        assert forall|t: Seq<u8>| #[trigger] m.contains_key(t)
            <==> exists|i: int| 0 <= i < ops.len() && trie_key(ops[i].0) == t by {
            if m.contains_key(t) && t != trie_key(ops[last].0) {
                let i = choose|i: int| 0 <= i < init.len() && trie_key(init[i].0) == t;
                assert(ops[i] == init[i]);
            }
            if exists|i: int| 0 <= i < ops.len() && trie_key(ops[i].0) == t {
                let i = choose|i: int| 0 <= i < ops.len() && trie_key(ops[i].0) == t;
                if i < last {
                    assert(ops[i] == init[i]);
                }
            }
        }
        assert forall|i: int| 0 <= i < ops.len() implies m[trie_key(#[trigger] ops[i].0)] == (ops[i].0, ops[i].1) by {
            if trie_key(ops[i].0) == trie_key(ops[last].0) {
                assert(ops[i] == ops[last]);
            } else {
                assert(ops[i] == init[i]);
            }
        }
    }
}

/// Applying the same set of writes in any order gives the same root.
pub proof fn lemma_root_determinism(ops1: Seq<(Seq<u8>, Seq<u8>)>, ops2: Seq<(Seq<u8>, Seq<u8>)>)
    requires
        consistent(ops1),
        ops1.to_multiset() == ops2.to_multiset(),
    ensures
        apply_sets(Map::empty(), ops1) == apply_sets(Map::empty(), ops2),
        root_of(apply_sets(Map::empty(), ops1)) == root_of(apply_sets(Map::empty(), ops2)),
{
    ops1.to_multiset_ensures();
    ops2.to_multiset_ensures();
    assert forall|x: (Seq<u8>, Seq<u8>)| ops1.contains(x) <==> ops2.contains(x) by {
        assert(ops1.contains(x) <==> ops1.to_multiset().count(x) > 0);
        assert(ops2.contains(x) <==> ops2.to_multiset().count(x) > 0);
    }
    assert forall|i: int, j: int|
        0 <= i < ops2.len() && 0 <= j < ops2.len() && trie_key(#[trigger] ops2[i].0) == trie_key(#[trigger] ops2[j].0)
            implies ops2[i] == ops2[j] by {
        assert(ops2.contains(ops2[i]));
        assert(ops2.contains(ops2[j]));
        let a = choose|a: int| 0 <= a < ops1.len() && ops1[a] == ops2[i];
        let b = choose|b: int| 0 <= b < ops1.len() && ops1[b] == ops2[j];
        assert(trie_key(ops1[a].0) == trie_key(ops1[b].0));
    }
    lemma_apply_sets_shape(ops1);
    lemma_apply_sets_shape(ops2);
    let m1 = apply_sets(Map::empty(), ops1);
    let m2 = apply_sets(Map::empty(), ops2);
    assert forall|t: Seq<u8>| m1.contains_key(t) <==> m2.contains_key(t) by {
        if m1.contains_key(t) {
            let i = choose|i: int| 0 <= i < ops1.len() && trie_key(ops1[i].0) == t;
            assert(ops1.contains(ops1[i]));
            let b = choose|b: int| 0 <= b < ops2.len() && ops2[b] == ops1[i];
            assert(trie_key(ops2[b].0) == t);
        }
        if m2.contains_key(t) {
            let i = choose|i: int| 0 <= i < ops2.len() && trie_key(ops2[i].0) == t;
            assert(ops2.contains(ops2[i]));
            let b = choose|b: int| 0 <= b < ops1.len() && ops1[b] == ops2[i];
            assert(trie_key(ops1[b].0) == t);
        }
    }
    assert forall|t: Seq<u8>| m1.contains_key(t) implies m1[t] == m2[t] by {
        let i = choose|i: int| 0 <= i < ops1.len() && trie_key(ops1[i].0) == t;
        assert(ops1.contains(ops1[i]));
        let b = choose|b: int| 0 <= b < ops2.len() && ops2[b] == ops1[i];
        assert(m1[trie_key(ops1[i].0)] == (ops1[i].0, ops1[i].1));
        assert(m2[trie_key(ops2[b].0)] == (ops2[b].0, ops2[b].1));
    }
    assert(m1 =~= m2);
}

/// A retention sweep keeps every committed epoch inside the window, and it
/// stays reachable by its epoch and root.
pub proof fn lemma_retention_safety(ss: Seq<SnapshotModel>, era_epoch_count: u64, confirmed_height: u64, k: int)
    requires
        0 <= k < ss.len(),
        in_window(ss[k].epoch, era_epoch_count, confirmed_height),
    ensures
        retained(ss, era_epoch_count, confirmed_height).contains(ss[k]),
        any_fit(retained(ss, era_epoch_count, confirmed_height), Some(ss[k].epoch), ss[k].root),
    decreases ss.len(),
{
    let r = retained(ss, era_epoch_count, confirmed_height);
    if k == ss.len() - 1 {
        assert(r.last() == ss[k]);
        assert(r[r.len() - 1] == ss[k]);
    } else {
        let init = ss.drop_last();
        assert(init[k] == ss[k]);
        lemma_retention_safety(init, era_epoch_count, confirmed_height, k);
        let ri = retained(init, era_epoch_count, confirmed_height);
        let a = choose|a: int| 0 <= a < ri.len() && ri[a] == ss[k];
        if in_window(ss.last().epoch, era_epoch_count, confirmed_height) {
            assert(r[a] == ss[k]);
        }
        assert(r[a] == ss[k]);
    }
    let a = choose|a: int| 0 <= a < r.len() && r[a] == ss[k];
    assert(fits(r[a], Some(ss[k].epoch), ss[k].root));
}

/// Right after a commit of `epoch` with content `c`, looking up `epoch` and
/// the root of `c` finds that commit, whose read-only state holds `c`.
pub proof fn lemma_commit_visible(m: ManagerModel, epoch: u64, c: Contents)
    ensures
        last_fit(committed(m, epoch, c).snapshots, Some(epoch), root_of(c), m.snapshots.len() as int),
        snapshot_state(committed(m, epoch, c).snapshots[m.snapshots.len() as int]) == (StateModel {
            read_only: true,
            epoch,
            root: root_of(c),
            content: c,
        }),
{
}

} // verus!
