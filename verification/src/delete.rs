//! Deletion: from a leaf, through an internal node, and the refilling of a
//! node that has fallen below the minimum, by borrowing from a sibling or by
//! merging with one.

use crate::node::{
    leaf_lookup, lemma_leaf_hit, lemma_leaf_miss, lemma_leaf_none, lemma_rank_is_rank,
    lemma_route_is_route, min_fill, rank, route, same_content, InternalItem, LeafItem, TreeNode,
};
use crate::ordering::strictly_sorted;
use crate::rebalance::{refill_child, refill_step};
use crate::siblings::min_fill_of;
use vstd::prelude::*;

verus! {

/// What holds of the subtree `out` that is left when `key` has been removed
/// from the subtree `before`, whose range is `[lo, hi)`.
///
/// Every search is answered as before, but for `key`, which finds nothing.
/// Nothing is left only of a leaf whose one entry went, or of no subtree.
/// Otherwise `out` is well formed and as high as `before`, is not empty
/// unless `before` was, and holds at most one entry or child less: the same
/// number where `key` was not there.
pub open spec fn delete_post(
    before: TreeNode,
    out: TreeNode,
    key: usize,
    lo: int,
    hi: int,
    fanout: nat,
) -> bool {
    &&& forall|k: usize| #[trigger]
        out.lookup(k) == (if k == key {
            None
        } else {
            before.lookup(k)
        })
    &&& out is Null ==> !(before is InternalNode) && before.occupancy() <= 1
    &&& !(out is Null) ==> {
        &&& out.wf(lo, hi, fanout)
        &&& out.height() == before.height()
        &&& out.occupancy() + 1 >= before.occupancy()
        &&& before.occupancy() >= 1 ==> out.occupancy() >= 1
        &&& before.lookup(key) is None ==> out.occupancy() == before.occupancy()
    }
}

/// Taking the entry at one position out of a leaf removes its key and changes
/// nothing else.
pub proof fn lemma_leaf_remove(index: Seq<usize>, data: Seq<String>, loc: int)
    requires
        strictly_sorted(index),
        index.len() == data.len(),
        0 <= loc < index.len(),
    ensures
        strictly_sorted(index.remove(loc)),
        forall|k: usize| #[trigger]
            leaf_lookup(index.remove(loc), data.remove(loc), k) == (if k == index[loc] {
                None
            } else {
                leaf_lookup(index, data, k)
            }),
{
    let index2 = index.remove(loc);
    let data2 = data.remove(loc);
    assert(strictly_sorted(index2)) by {
        assert forall|i: int, j: int| 0 <= i < j < index2.len() implies index2[i] < index2[j] by {
            let i0 = if i < loc { i } else { i + 1 };
            let j0 = if j < loc { j } else { j + 1 };
            assert(index[i0] < index[j0]);
        }
    }
    assert forall|k: usize| #[trigger]
        leaf_lookup(index2, data2, k) == (if k == index[loc] {
            None
        } else {
            leaf_lookup(index, data, k)
        }) by {
        if k == index[loc] {
            assert forall|j: int| 0 <= j < index2.len() implies index2[j] != k by {
                let j0 = if j < loc { j } else { j + 1 };
                assert(index2[j] == index[j0]);
                if j0 < loc {
                    assert(index[j0] < index[loc]);
                } else {
                    assert(index[loc] < index[j0]);
                }
            }
            lemma_leaf_miss(index2, data2, k);
        } else if leaf_lookup(index, data, k) is Some {
            let j = rank(index, k);
            let j2 = if j < loc { j } else { j - 1 };
            lemma_leaf_hit(index2, data2, j2);
        } else {
            lemma_leaf_none(index, data, k);
            lemma_leaf_miss(index2, data2, k);
        }
    }
}

/// What is left of a leaf when `key` is removed from it: the leaf without the
/// entry of that key, nothing where that was its one entry, and the leaf as
/// it was where the key was not there.
pub open spec fn leaf_removed(node: LeafItem, out: TreeNode, key: usize) -> bool {
    let loc = rank(node.index@, key);
    if node.lookup(key) is None {
        out matches TreeNode::LeafNode(l) && l.index@ == node.index@ && l.data@ == node.data@
    } else if node.index.len() == 1 {
        out is Null
    } else {
        out matches TreeNode::LeafNode(l) && l.index@ == node.index@.remove(loc) && l.data@
            == node.data@.remove(loc)
    }
}

/// Removes `index` from a leaf, if it is there. A leaf that loses its last
/// entry is gone. The flag says whether the key was there.
pub fn delete_from_leaf_item(
    mut node: LeafItem,
    index: usize,
    fanout: usize,
    Ghost(lo): Ghost<int>,
    Ghost(hi): Ghost<int>,
) -> (out: (TreeNode, bool))
    requires
        node.wf(lo, hi, fanout as nat),
    ensures
        delete_post(TreeNode::LeafNode(node), out.0, index, lo, hi, fanout as nat),
        leaf_removed(node, out.0, index),
        out.1 == (node.lookup(index) is Some),
{
    let ghost before = node;
    let loc = node.get_loc(&index);
    if loc < node.index.len() && node.index[loc] == index {
        proof {
            lemma_leaf_remove(node.index@, node.data@, loc as int);
            lemma_leaf_hit(node.index@, node.data@, loc as int);
        }
        node.index.remove(loc);
        node.data.remove(loc);
        if node.index.is_empty() {
            proof {
                assert forall|k: usize| #[trigger]
                    TreeNode::Null.lookup(k) == (if k == index {
                        None
                    } else {
                        TreeNode::LeafNode(before).lookup(k)
                    }) by {
                    assert(leaf_lookup(node.index@, node.data@, k) is None);
                }
            }
            (TreeNode::Null, true)
        } else {
            (TreeNode::LeafNode(node), true)
        }
    } else {
        proof {
            lemma_rank_is_rank(node.index@, index);
        }
        (TreeNode::LeafNode(node), false)
    }
}

/// An internal node that takes what is left of one child after a removal in
/// place of that child is well formed but for that child, which may be one
/// short of the minimum, and answers every search as before, but for the key
/// that was removed.
pub proof fn lemma_child_deleted(
    before: InternalItem,
    after: InternalItem,
    x: TreeNode,
    loc: int,
    key: usize,
    lo: int,
    hi: int,
    fanout: nat,
)
    requires
        TreeNode::InternalNode(before).wf(lo, hi, fanout),
        loc == route(before.index@, key),
        after.index@ == before.index@,
        after.data@ == before.data@.update(loc, x),
        !(x is Null),
        delete_post(
            before.data[loc],
            x,
            key,
            before.lower(loc, lo),
            before.upper(loc, hi),
            fanout,
        ),
    ensures
        after.wf_within(lo, hi, fanout, fanout, loc),
        after.data.len() == before.data.len(),
        x.occupancy() >= min_fill(fanout) ==> TreeNode::InternalNode(after).wf(lo, hi, fanout),
        TreeNode::InternalNode(after).height() == TreeNode::InternalNode(before).height(),
        forall|k: usize| #[trigger]
            TreeNode::InternalNode(after).lookup(k) == (if k == key {
                None
            } else {
                TreeNode::InternalNode(before).lookup(k)
            }),
{
    lemma_route_is_route(before.index@, key);
    let b = TreeNode::InternalNode(before);
    let a = TreeNode::InternalNode(after);
    assert(before.data[loc].wf(before.lower(loc, lo), before.upper(loc, hi), fanout));
    assert(before.data[0].wf(before.lower(0, lo), before.upper(0, hi), fanout));
    assert forall|i: int| 0 <= i < after.data.len() implies {
        &&& (#[trigger] after.data[i]).wf(after.lower(i, lo), after.upper(i, hi), fanout)
        &&& (after.data[i].occupancy() >= min_fill(fanout) || (i == loc
            && after.data[i].occupancy() + 1 >= min_fill(fanout)))
        &&& after.data[i].height() == after.data[0].height()
    } by {
        assert(before.data[i].wf(before.lower(i, lo), before.upper(i, hi), fanout));
    }
    assert forall|k: usize| #[trigger]
        a.lookup(k) == (if k == key {
            None
        } else {
            b.lookup(k)
        }) by {
        lemma_route_is_route(before.index@, k);
        let r0 = route(before.index@, k);
        assert(a.lookup(k) == after.data[r0].lookup(k));
        assert(b.lookup(k) == before.data[r0].lookup(k));
        if r0 == loc {
            assert(after.data[r0] == x);
        } else {
            assert(after.data[r0] == before.data[r0]);
        }
    }
}

/// The subtree `out` is what removing `key` leaves of the subtree `before`:
/// nothing of no subtree; of a leaf what `leaf_removed` says; and of an
/// internal node the node with what is left of the child whose range holds
/// `key` in place of that child, refilled as `refill_step` says where the
/// child is left short of the minimum.
pub open spec fn removed(before: TreeNode, out: TreeNode, key: usize, fanout: nat) -> bool
    decreases before,
{
    match before {
        TreeNode::Null => out is Null,
        TreeNode::LeafNode(item) => leaf_removed(item, out, key),
        TreeNode::InternalNode(n) => {
            let loc = route(n.index@, key);
            &&& 0 <= loc < n.data.len()
            &&& exists|x: TreeNode, mid: InternalItem|
                {
                    &&& removed(n.data[loc], x, key, fanout)
                    &&& #[trigger] is_child_replaced(n, mid, loc, x)
                    &&& out matches TreeNode::InternalNode(m) && if x.occupancy() >= min_fill(
                        fanout,
                    ) {
                        same_content(mid, m)
                    } else {
                        refill_step(mid, m, loc, fanout)
                    }
                }
        },
    }
}

/// The node `mid` is `before` with `x` in place of its child at `loc`.
pub open spec fn is_child_replaced(before: InternalItem, mid: InternalItem, loc: int, x: TreeNode) -> bool {
    &&& mid.index@ == before.index@
    &&& mid.data@ == before.data@.update(loc, x)
}

/// Removes `index` below an internal node: descends into the child whose
/// range holds the key, and refills that child if the removal left it short.
/// The node itself may come back with one child less. The flag says whether
/// the key was there.
pub fn delete_from_internal_node(
    mut node: InternalItem,
    index: usize,
    fanout: usize,
    Ghost(lo): Ghost<int>,
    Ghost(hi): Ghost<int>,
) -> (out: (TreeNode, bool))
    requires
        3 <= fanout,
        TreeNode::InternalNode(node).wf(lo, hi, fanout as nat),
        node.data.len() >= 2,
    ensures
        delete_post(TreeNode::InternalNode(node), out.0, index, lo, hi, fanout as nat),
        out.0 is InternalNode,
        out.1 == (TreeNode::InternalNode(node).lookup(index) is Some),
        removed(TreeNode::InternalNode(node), out.0, index, fanout as nat),
    decreases node,
{
    let ghost before = node;
    let loc = node.get_loc(&index);
    proof {
        lemma_route_is_route(before.index@, index);
        assert(before.data[loc as int].wf(
            before.lower(loc as int, lo),
            before.upper(loc as int, hi),
            fanout as nat,
        ));
    }
    let child = node.data.remove(loc);
    let (new_child, was_there) = delete_item(
        child,
        index,
        fanout,
        Ghost(before.lower(loc as int, lo)),
        Ghost(before.upper(loc as int, hi)),
    );
    let underfull = new_child.get_index_len() < min_fill_of(fanout);
    node.data.insert(loc, new_child);
    proof {
        assert(node.data@ =~= before.data@.update(loc as int, new_child));
        lemma_child_deleted(before, node, new_child, loc as int, index, lo, hi, fanout as nat);
    }
    let ghost mid = node;
    if underfull {
        refill_child(&mut node, loc, fanout, Ghost(lo), Ghost(hi));
    }
    let out = TreeNode::InternalNode(node);
    proof {
        assert(removed(before.data[loc as int], new_child, index, fanout as nat));
        assert(is_child_replaced(before, mid, loc as int, new_child));
    }
    (out, was_there)
}

/// Removes `index` from the subtree `node`, whose range is `[lo, hi)`.
pub fn delete_item(
    node: TreeNode,
    index: usize,
    fanout: usize,
    Ghost(lo): Ghost<int>,
    Ghost(hi): Ghost<int>,
) -> (out: (TreeNode, bool))
    requires
        3 <= fanout,
        node is Null || node.wf(lo, hi, fanout as nat),
        node is InternalNode ==> node.occupancy() >= 2,
    ensures
        delete_post(node, out.0, index, lo, hi, fanout as nat),
        removed(node, out.0, index, fanout as nat),
        out.1 == (node.lookup(index) is Some),
    decreases node,
{
    match node {
        TreeNode::InternalNode(x) => delete_from_internal_node(
            x,
            index,
            fanout,
            Ghost(lo),
            Ghost(hi),
        ),
        TreeNode::LeafNode(x) => delete_from_leaf_item(x, index, fanout, Ghost(lo), Ghost(hi)),
        TreeNode::Null => (TreeNode::Null, false),
    }
}

} // verus!
