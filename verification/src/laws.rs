//! What holds of the index over whole runs of operations, and of the shape
//! of its tree after any of them.

use crate::node::{min_fill, TreeNode};
use crate::ordering::strictly_sorted;
use crate::tree::{key_space_end, lemma_count, BTree};
use vstd::prelude::*;

verus! {

/// Every leaf of the subtree is at level `depth`, counted from 1 at `node`.
pub open spec fn leaves_at(node: TreeNode, depth: nat) -> bool
    decreases node,
{
    match node {
        TreeNode::Null => false,
        TreeNode::LeafNode(_) => depth == 1,
        TreeNode::InternalNode(n) => {
            &&& depth >= 2
            &&& forall|i: int|
                0 <= i < n.data.len() ==> leaves_at(#[trigger] n.data[i], (depth - 1) as nat)
        },
    }
}

/// The top node of the subtree holds between `least` and `fanout` entries or
/// children, and every node below it between `min_fill(fanout)` and `fanout`.
pub open spec fn filled(node: TreeNode, fanout: nat, least: nat) -> bool
    decreases node,
{
    match node {
        TreeNode::Null => false,
        TreeNode::LeafNode(l) => least <= l.index.len() <= fanout,
        TreeNode::InternalNode(n) => {
            &&& least <= n.data.len() <= fanout
            &&& forall|i: int|
                0 <= i < n.data.len() ==> filled(#[trigger] n.data[i], fanout, min_fill(fanout))
        },
    }
}

/// A well-formed subtree has all its leaves at one level, the level that is
/// its height, and all its nodes below the top one are filled to the minimum
/// at least.
pub proof fn lemma_wf_balanced(node: TreeNode, lo: int, hi: int, fanout: nat, least: nat)
    requires
        node.wf(lo, hi, fanout),
        node.occupancy() >= least,
    ensures
        leaves_at(node, node.height()),
        filled(node, fanout, least),
    decreases node,
{
    match node {
        TreeNode::InternalNode(n) => {
            assert(n.data[0].wf(n.lower(0, lo), n.upper(0, hi), fanout));
            crate::siblings::lemma_height_positive(
                n.data[0],
                n.lower(0, lo),
                n.upper(0, hi),
                fanout,
            );
            assert forall|i: int| 0 <= i < n.data.len() implies leaves_at(
                #[trigger] n.data[i],
                (node.height() - 1) as nat,
            ) && filled(n.data[i], fanout, min_fill(fanout)) by {
                lemma_wf_balanced(
                    n.data[i],
                    n.lower(i, lo),
                    n.upper(i, hi),
                    fanout,
                    min_fill(fanout),
                );
            }
        },
        _ => {},
    }
}

/// The least number of entries or children of a root: one entry in a leaf,
/// two children in an internal node.
pub open spec fn root_least(root: TreeNode) -> nat {
    if root is InternalNode {
        2
    } else {
        1
    }
}

/// Balance: in a well-formed tree that is not empty, all leaves are at the
/// same depth, which is the depth of the tree; the root holds no more than
/// the fanout; and every other node holds between half the fanout, rounded
/// up, and the fanout.
pub proof fn lemma_balance(tree: BTree)
    requires
        tree.wf(),
    ensures
        tree.root_node() is Null <==> tree.depth() == 0,
        !(tree.root_node() is Null) ==> {
            &&& leaves_at(tree.root_node(), tree.depth())
            &&& filled(tree.root_node(), tree.fanout(), root_least(tree.root_node()))
        },
{
    tree.lemma_empty();
    tree.lemma_root();
    let root = tree.root_node();
    if !(root is Null) {
        lemma_wf_balanced(root, 0, key_space_end(), tree.fanout(), root_least(root));
    }
}

/// Order: the keys of a well-formed tree, read leaf by leaf, ascend strictly
/// and are exactly the keys of the map that the tree holds.
pub proof fn lemma_keys_ascend(tree: BTree)
    requires
        tree.wf(),
    ensures
        strictly_sorted(tree.keys()),
        tree.keys().to_set() == tree@.dom(),
        tree.keys().len() == tree@.len(),
        tree@.dom().finite(),
{
    tree.lemma_root();
    lemma_count(tree.root_node(), tree.fanout());
}

/// One step of a run of `set_item` calls: `after` is `before` with `entry`
/// set.
pub open spec fn is_set_step(before: BTree, after: BTree, entry: (usize, Seq<char>)) -> bool {
    after@ == before@.insert(entry.0, entry.1)
}

/// `states` are the states of a tree through a run of `set_item` calls with
/// the entries `entries`, the first state being the one before the run.
pub open spec fn is_set_run(states: Seq<BTree>, entries: Seq<(usize, Seq<char>)>) -> bool {
    &&& states.len() == entries.len() + 1
    &&& forall|i: int|
        0 <= i < entries.len() ==> is_set_step(states[i], states[i + 1], #[trigger] entries[i])
}

/// `states` are the states of a tree through a run of `remove` calls with the
/// keys `keys`, the first state being the one before the run.
pub open spec fn is_remove_run(states: Seq<BTree>, keys: Seq<usize>) -> bool {
    &&& states.len() == keys.len() + 1
    &&& forall|i: int|
        0 <= i < keys.len() ==> states[i + 1]@ == states[i]@.remove(#[trigger] keys[i])
}

/// A run of `set_item` calls without its last call is a run.
pub proof fn lemma_set_run_front(states: Seq<BTree>, entries: Seq<(usize, Seq<char>)>)
    requires
        is_set_run(states, entries),
        entries.len() > 0,
    ensures
        is_set_run(states.drop_last(), entries.drop_last()),
        states.drop_last()[0] == states[0],
        states.drop_last().last() == states[entries.len() - 1],
        is_set_step(states[entries.len() - 1], states.last(), entries.last()),
{
    let front_states = states.drop_last();
    let front = entries.drop_last();
    assert forall|i: int| 0 <= i < front.len() implies is_set_step(
        front_states[i],
        front_states[i + 1],
        #[trigger] front[i],
    ) by {
        assert(front[i] == entries[i]);
        assert(is_set_step(states[i], states[i + 1], entries[i]));
    }
    assert(is_set_step(states[entries.len() - 1], states[entries.len() as int], entries.last()));
}

/// Round trip: after a run of `set_item` calls, a key holds the payload of
/// the last call that set it.
pub proof fn lemma_round_trip(states: Seq<BTree>, entries: Seq<(usize, Seq<char>)>, j: int)
    requires
        is_set_run(states, entries),
        0 <= j < entries.len(),
        forall|i: int| j < i < entries.len() ==> (#[trigger] entries[i]).0 != entries[j].0,
    ensures
        states.last()@.contains_key(entries[j].0),
        states.last()@[entries[j].0] == entries[j].1,
    decreases entries.len(),
{
    lemma_set_run_front(states, entries);
    if j < entries.len() - 1 {
        let front = entries.drop_last();
        assert(front[j] == entries[j]);
        assert forall|i: int| j < i < front.len() implies (#[trigger] front[i]).0
            != front[j].0 by {
            assert(front[i] == entries[i]);
        }
        lemma_round_trip(states.drop_last(), front, j);
        assert(entries[entries.len() - 1].0 != entries[j].0);
    }
}

/// A run of `set_item` calls leaves every key alone that it does not set.
pub proof fn lemma_sets_keep(states: Seq<BTree>, entries: Seq<(usize, Seq<char>)>, key: usize)
    requires
        is_set_run(states, entries),
        forall|i: int| 0 <= i < entries.len() ==> (#[trigger] entries[i]).0 != key,
    ensures
        states.last()@.contains_key(key) == states[0]@.contains_key(key),
        states.last()@.contains_key(key) ==> states.last()@[key] == states[0]@[key],
    decreases entries.len(),
{
    if entries.len() > 0 {
        lemma_set_run_front(states, entries);
        let front = entries.drop_last();
        assert forall|i: int| 0 <= i < front.len() implies (#[trigger] front[i]).0 != key by {
            assert(front[i] == entries[i]);
        }
        lemma_sets_keep(states.drop_last(), front, key);
        assert(entries[entries.len() - 1].0 != key);
    }
}

/// Cardinality of insertion: a run of `set_item` calls with keys that differ
/// from each other and were not in the tree adds one entry for each call.
pub proof fn lemma_count_after_sets(states: Seq<BTree>, entries: Seq<(usize, Seq<char>)>)
    requires
        is_set_run(states, entries),
        states[0]@.dom().finite(),
        forall|i: int|
            0 <= i < entries.len() ==> !states[0]@.contains_key((#[trigger] entries[i]).0),
        forall|i: int, j: int|
            0 <= i < j < entries.len() ==> (#[trigger] entries[i]).0 != (#[trigger] entries[j]).0,
    ensures
        states.last()@.dom().finite(),
        states.last()@.len() == states[0]@.len() + entries.len(),
    decreases entries.len(),
{
    if entries.len() > 0 {
        let n = entries.len() as int;
        lemma_set_run_front(states, entries);
        let front_states = states.drop_last();
        let front = entries.drop_last();
        let key = entries[n - 1].0;
        assert forall|i: int| 0 <= i < front.len() implies !states[0]@.contains_key(
            (#[trigger] front[i]).0,
        ) by {
            assert(front[i] == entries[i]);
        }
        assert forall|i: int, j: int| 0 <= i < j < front.len() implies (#[trigger] front[i]).0
            != (#[trigger] front[j]).0 by {
            assert(front[i] == entries[i] && front[j] == entries[j]);
        }
        lemma_count_after_sets(front_states, front);
        assert forall|i: int| 0 <= i < front.len() implies (#[trigger] front[i]).0 != key by {
            assert(front[i] == entries[i]);
        }
        lemma_sets_keep(front_states, front, key);
        assert(!states[n - 1]@.contains_key(key));
        assert(states[n]@.dom() =~= states[n - 1]@.dom().insert(key));
    }
}

/// Cardinality of removal: a run of `remove` calls with keys that differ
/// from each other and were in the tree takes one entry away for each call.
pub proof fn lemma_count_after_removes(states: Seq<BTree>, keys: Seq<usize>)
    requires
        is_remove_run(states, keys),
        states[0]@.dom().finite(),
        forall|i: int| 0 <= i < keys.len() ==> states[0]@.contains_key(#[trigger] keys[i]),
        forall|i: int, j: int| 0 <= i < j < keys.len() ==> keys[i] != keys[j],
    ensures
        states.last()@.dom().finite(),
        states.last()@.len() + keys.len() == states[0]@.len(),
        forall|i: int| 0 <= i < keys.len() ==> !states.last()@.contains_key(#[trigger] keys[i]),
    decreases keys.len(),
{
    if keys.len() > 0 {
        let n = keys.len() as int;
        let front_states = states.drop_last();
        let front = keys.drop_last();
        assert(is_remove_run(front_states, front)) by {
            assert forall|i: int| 0 <= i < front.len() implies front_states[i + 1]@
                == front_states[i]@.remove(#[trigger] front[i]) by {
                assert(front[i] == keys[i]);
                assert(states[i + 1]@ == states[i]@.remove(keys[i]));
            }
        }
        assert(front_states[0] == states[0]);
        assert forall|i: int| 0 <= i < front.len() implies states[0]@.contains_key(
            #[trigger] front[i],
        ) by {
            assert(front[i] == keys[i]);
        }
        lemma_count_after_removes(front_states, front);
        lemma_removes_keep(front_states, front, keys[n - 1]);
        assert(states[n]@ == states[n - 1]@.remove(keys[n - 1]));
        assert(front_states.last() == states[n - 1]);
        assert(states[n - 1]@.contains_key(keys[n - 1]));
        assert(states[n]@.dom() =~= states[n - 1]@.dom().remove(keys[n - 1]));
        assert forall|i: int| 0 <= i < keys.len() implies !states.last()@.contains_key(
            #[trigger] keys[i],
        ) by {
            if i < n - 1 {
                assert(front[i] == keys[i]);
            }
        }
    }
}

/// A run of `remove` calls leaves every key alone that it does not name.
pub proof fn lemma_removes_keep(states: Seq<BTree>, keys: Seq<usize>, key: usize)
    requires
        is_remove_run(states, keys),
        forall|i: int| 0 <= i < keys.len() ==> #[trigger] keys[i] != key,
    ensures
        states.last()@.contains_key(key) == states[0]@.contains_key(key),
        states.last()@.contains_key(key) ==> states.last()@[key] == states[0]@[key],
    decreases keys.len(),
{
    if keys.len() > 0 {
        let n = keys.len() as int;
        let front_states = states.drop_last();
        let front = keys.drop_last();
        assert(is_remove_run(front_states, front)) by {
            assert forall|i: int| 0 <= i < front.len() implies front_states[i + 1]@
                == front_states[i]@.remove(#[trigger] front[i]) by {
                assert(front[i] == keys[i]);
                assert(states[i + 1]@ == states[i]@.remove(keys[i]));
            }
        }
        assert forall|i: int| 0 <= i < front.len() implies #[trigger] front[i] != key by {
            assert(front[i] == keys[i]);
        }
        lemma_removes_keep(front_states, front, key);
        assert(states[n]@ == states[n - 1]@.remove(keys[n - 1]));
        assert(front_states.last() == states[n - 1]);
        assert(front_states[0] == states[0]);
        assert(keys[n - 1] != key);
    }
}

/// Idempotent overwrite: setting a key a second time leaves the number of
/// entries as the first call left it, and the key holds the second payload.
pub proof fn lemma_overwrite(
    before: BTree,
    once: BTree,
    twice: BTree,
    key: usize,
    first: Seq<char>,
    second: Seq<char>,
)
    requires
        before@.dom().finite(),
        once@ == before@.insert(key, first),
        twice@ == once@.insert(key, second),
    ensures
        twice@.len() == once@.len(),
        twice@.contains_key(key),
        twice@[key] == second,
        twice@ == before@.insert(key, second),
{
    assert(twice@.dom() =~= once@.dom());
    assert(twice@ =~= before@.insert(key, second));
}

} // verus!
