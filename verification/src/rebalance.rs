//! Refilling a node that has fallen below the minimum, from a sibling that
//! can spare an entry or by merging with one, and why the parent of the two
//! stays well formed and answers every search as before.

use crate::node::{
    is_route, lemma_route_is_route, lemma_route_unique, min_fill, route, same_content,
    InternalItem, TreeNode,
};
use crate::ordering::strictly_sorted;
use crate::siblings::{
    borrow_from_left, borrow_from_right, is_merge_of, lemma_merge, lemma_pair_same,
    lemma_same_kind, pair_lookup, pair_same_entries,
};
use vstd::prelude::*;

verus! {

/// Replacing the separator at position `i` by another one between the same
/// neighbours keeps the list strictly ascending and moves only the searches
/// that went to one of the two children beside it.
pub proof fn lemma_route_update(seps: Seq<usize>, i: int, s2: usize, k: usize)
    requires
        strictly_sorted(seps),
        0 <= i < seps.len(),
        i > 0 ==> seps[i - 1] < s2,
        i + 1 < seps.len() ==> s2 < seps[i + 1],
    ensures
        strictly_sorted(seps.update(i, s2)),
        0 <= route(seps, k) <= seps.len(),
        route(seps, k) == i ==> k < seps[i],
        route(seps, k) == i + 1 ==> k >= seps[i],
        route(seps.update(i, s2), k) == (if route(seps, k) < i || route(seps, k) > i + 1 {
            route(seps, k)
        } else if k < s2 {
            i
        } else {
            i + 1
        }),
{
    let after = seps.update(i, s2);
    assert forall|a: int, b: int| 0 <= a < b < after.len() implies after[a] < after[b] by {
        if a == i {
            assert(seps[i + 1] <= seps[b]);
        } else if b == i {
            assert(seps[a] <= seps[i - 1]);
        } else {
            assert(seps[a] < seps[b]);
        }
    }
    lemma_route_is_route(seps, k);
    let r0 = route(seps, k);
    let r1 = if r0 < i || r0 > i + 1 {
        r0
    } else if k < s2 {
        i
    } else {
        i + 1
    };
    assert(is_route(after, k, r1)) by {
        assert forall|j: int| 0 <= j < r1 implies after[j] <= k by {
            if j == i {
                if r0 > i + 1 {
                    assert(seps[i + 1] <= k);
                }
            } else {
                assert(after[j] == seps[j]);
            }
        }
        assert forall|j: int| r1 <= j < after.len() implies after[j] > k by {
            if j == i {
                if r0 < i {
                    assert(seps[i - 1] > k);
                }
            } else {
                assert(after[j] == seps[j]);
            }
        }
    }
    lemma_route_unique(after, k, r1);
}

/// Taking the separator at position `i` away keeps the list strictly
/// ascending and sends the searches of the two children beside it to one
/// slot.
pub proof fn lemma_route_remove(seps: Seq<usize>, i: int, k: usize)
    requires
        strictly_sorted(seps),
        0 <= i < seps.len(),
    ensures
        strictly_sorted(seps.remove(i)),
        0 <= route(seps, k) <= seps.len(),
        route(seps, k) == i ==> k < seps[i],
        route(seps, k) == i + 1 ==> k >= seps[i],
        route(seps.remove(i), k) == (if route(seps, k) <= i {
            route(seps, k)
        } else {
            route(seps, k) - 1
        }),
{
    let after = seps.remove(i);
    assert forall|a: int, b: int| 0 <= a < b < after.len() implies after[a] < after[b] by {
        let a0 = if a < i { a } else { a + 1 };
        let b0 = if b < i { b } else { b + 1 };
        assert(seps[a0] < seps[b0]);
    }
    lemma_route_is_route(seps, k);
    let r0 = route(seps, k);
    let r1 = if r0 <= i {
        r0
    } else {
        r0 - 1
    };
    assert(is_route(after, k, r1)) by {
        assert forall|j: int| 0 <= j < r1 implies after[j] <= k by {
            let j0 = if j < i { j } else { j + 1 };
            assert(after[j] == seps[j0]);
        }
        assert forall|j: int| r1 <= j < after.len() implies after[j] > k by {
            let j0 = if j < i { j } else { j + 1 };
            assert(after[j] == seps[j0]);
        }
    }
    lemma_route_unique(after, k, r1);
}

/// What it means for an internal node to have been refilled: it is well
/// formed, as high as before, holds as many children or one less, and
/// answers every search as before.
pub open spec fn refilled(before: InternalItem, after: InternalItem, lo: int, hi: int, fanout: nat) -> bool {
    &&& TreeNode::InternalNode(after).wf(lo, hi, fanout)
    &&& after.data.len() <= before.data.len() <= after.data.len() + 1
    &&& TreeNode::InternalNode(after).height() == TreeNode::InternalNode(before).height()
    &&& forall|k: usize| #[trigger]
        TreeNode::InternalNode(after).lookup(k) == TreeNode::InternalNode(before).lookup(k)
}

/// An internal node whose children `i` and `i + 1` have handed entries to
/// each other, and whose separator between them was set anew, is well formed.
pub proof fn lemma_parent_pair_wf(
    before: InternalItem,
    after: InternalItem,
    i: int,
    a2: TreeNode,
    s2: usize,
    b2: TreeNode,
    lo: int,
    hi: int,
    fanout: nat,
    weak: int,
)
    requires
        before.wf_within(lo, hi, fanout, fanout, weak),
        0 <= i,
        i + 1 < before.data.len(),
        weak < 0 || weak == i || weak == i + 1,
        after.index@ == before.index@.update(i, s2),
        after.data@ == before.data@.update(i, a2).update(i + 1, b2),
        before.lower(i, lo) < s2 < before.upper(i + 1, hi),
        a2.wf(before.lower(i, lo), s2 as int, fanout),
        b2.wf(s2 as int, before.upper(i + 1, hi), fanout),
        a2.occupancy() >= min_fill(fanout),
        b2.occupancy() >= min_fill(fanout),
        a2.height() == before.data[i].height(),
        b2.height() == before.data[i].height(),
    ensures
        TreeNode::InternalNode(after).wf(lo, hi, fanout),
        after.data.len() == before.data.len(),
        TreeNode::InternalNode(after).height() == TreeNode::InternalNode(before).height(),
{
    lemma_route_update(before.index@, i, s2, s2);
    assert(before.data[i].wf(before.lower(i, lo), before.upper(i, hi), fanout));
    assert(before.data[0].wf(before.lower(0, lo), before.upper(0, hi), fanout));
    assert(after.data[0].height() == before.data[0].height()) by {
        if i == 0 {
            assert(after.data[0] == a2);
        } else {
            assert(after.data[0] == before.data[0]);
        }
    }
    assert forall|j: int| 0 <= j < after.index.len() implies lo < #[trigger] after.index[j]
        < hi by {
        if j != i {
            assert(after.index[j] == before.index[j]);
        }
    }
    assert forall|j: int| 0 <= j < after.data.len() implies {
        &&& (#[trigger] after.data[j]).wf(after.lower(j, lo), after.upper(j, hi), fanout)
        &&& after.data[j].occupancy() >= min_fill(fanout)
        &&& after.data[j].height() == after.data[0].height()
    } by {
        if j == i {
            assert(after.data[j] == a2);
            assert(after.lower(j, lo) == before.lower(j, lo));
            assert(after.upper(j, hi) == s2);
        } else if j == i + 1 {
            assert(after.data[j] == b2);
            assert(after.lower(j, lo) == s2);
            assert(after.upper(j, hi) == before.upper(j, hi));
        } else {
            assert(before.data[j].wf(before.lower(j, lo), before.upper(j, hi), fanout));
            assert(after.data[j] == before.data[j]);
            assert(after.lower(j, lo) == before.lower(j, lo));
            assert(after.upper(j, hi) == before.upper(j, hi));
        }
    }
}

/// An internal node whose children `i` and `i + 1` have handed entries to
/// each other, and whose separator between them was set anew, answers every
/// search as before.
pub proof fn lemma_parent_pair_lookup(
    before: InternalItem,
    after: InternalItem,
    i: int,
    a2: TreeNode,
    s2: usize,
    b2: TreeNode,
)
    requires
        strictly_sorted(before.index@),
        before.data.len() == before.index.len() + 1,
        0 <= i,
        i + 1 < before.data.len(),
        i > 0 ==> before.index[i - 1] < s2,
        i + 1 < before.index.len() ==> s2 < before.index[i + 1],
        after.index@ == before.index@.update(i, s2),
        after.data@ == before.data@.update(i, a2).update(i + 1, b2),
        forall|k: usize|
            pair_lookup(a2, s2, b2, k) == pair_lookup(
                before.data[i],
                before.index[i],
                before.data[i + 1],
                k,
            ),
    ensures
        forall|k: usize| #[trigger]
            TreeNode::InternalNode(after).lookup(k) == TreeNode::InternalNode(before).lookup(k),
{
    let b = TreeNode::InternalNode(before);
    let a = TreeNode::InternalNode(after);
    assert forall|k: usize| #[trigger] a.lookup(k) == b.lookup(k) by {
        lemma_route_update(before.index@, i, s2, k);
        let r0 = route(before.index@, k);
        let r1 = route(after.index@, k);
        assert(a.lookup(k) == after.data[r1].lookup(k));
        assert(b.lookup(k) == before.data[r0].lookup(k));
        if r0 < i || r0 > i + 1 {
            assert(after.data[r1] == before.data[r0]);
        } else {
            assert(pair_lookup(a2, s2, b2, k) == pair_lookup(
                before.data[i],
                before.index[i],
                before.data[i + 1],
                k,
            ));
            if k < s2 {
                assert(after.data[r1] == a2);
            } else {
                assert(after.data[r1] == b2);
            }
        }
    }
}

/// An internal node whose children `i` and `i + 1` have merged into one, and
/// which has lost the separator between them, is well formed.
pub proof fn lemma_parent_merge_wf(
    before: InternalItem,
    after: InternalItem,
    i: int,
    m: TreeNode,
    lo: int,
    hi: int,
    fanout: nat,
    weak: int,
)
    requires
        before.wf_within(lo, hi, fanout, fanout, weak),
        0 <= i,
        i + 1 < before.data.len(),
        weak < 0 || weak == i || weak == i + 1,
        after.index@ == before.index@.remove(i),
        after.data@ == before.data@.remove(i + 1).update(i, m),
        m.wf(before.lower(i, lo), before.upper(i + 1, hi), fanout),
        m.occupancy() >= min_fill(fanout),
        m.height() == before.data[i].height(),
    ensures
        TreeNode::InternalNode(after).wf(lo, hi, fanout),
        after.data.len() + 1 == before.data.len(),
        TreeNode::InternalNode(after).height() == TreeNode::InternalNode(before).height(),
{
    lemma_route_remove(before.index@, i, 0);
    assert(before.data[i].wf(before.lower(i, lo), before.upper(i, hi), fanout));
    assert(before.data[0].wf(before.lower(0, lo), before.upper(0, hi), fanout));
    assert(after.data[0].height() == before.data[0].height()) by {
        if i == 0 {
            assert(after.data[0] == m);
        } else {
            assert(after.data[0] == before.data[0]);
        }
    }
    assert forall|j: int| 0 <= j < after.index.len() implies lo < #[trigger] after.index[j]
        < hi by {
        let j0 = if j < i { j } else { j + 1 };
        assert(after.index[j] == before.index[j0]);
    }
    assert forall|j: int| 0 <= j < after.data.len() implies {
        &&& (#[trigger] after.data[j]).wf(after.lower(j, lo), after.upper(j, hi), fanout)
        &&& after.data[j].occupancy() >= min_fill(fanout)
        &&& after.data[j].height() == after.data[0].height()
    } by {
        if j < i {
            assert(before.data[j].wf(before.lower(j, lo), before.upper(j, hi), fanout));
            assert(after.data[j] == before.data[j]);
            assert(after.lower(j, lo) == before.lower(j, lo));
            assert(after.upper(j, hi) == before.upper(j, hi));
        } else if j == i {
            assert(after.data[j] == m);
            assert(after.lower(j, lo) == before.lower(i, lo));
            assert(after.upper(j, hi) == before.upper(i + 1, hi));
        } else {
            assert(before.data[j + 1].wf(
                before.lower(j + 1, lo),
                before.upper(j + 1, hi),
                fanout,
            ));
            assert(after.data[j] == before.data[j + 1]);
            assert(after.lower(j, lo) == before.lower(j + 1, lo));
            assert(after.upper(j, hi) == before.upper(j + 1, hi));
        }
    }
}

/// An internal node whose children `i` and `i + 1` have merged into one, and
/// which has lost the separator between them, answers every search as before.
pub proof fn lemma_parent_merge_lookup(
    before: InternalItem,
    after: InternalItem,
    i: int,
    m: TreeNode,
)
    requires
        strictly_sorted(before.index@),
        before.data.len() == before.index.len() + 1,
        0 <= i,
        i + 1 < before.data.len(),
        after.index@ == before.index@.remove(i),
        after.data@ == before.data@.remove(i + 1).update(i, m),
        forall|k: usize| #[trigger]
            m.lookup(k) == pair_lookup(before.data[i], before.index[i], before.data[i + 1], k),
    ensures
        forall|k: usize| #[trigger]
            TreeNode::InternalNode(after).lookup(k) == TreeNode::InternalNode(before).lookup(k),
{
    let b = TreeNode::InternalNode(before);
    let a = TreeNode::InternalNode(after);
    assert forall|k: usize| #[trigger] a.lookup(k) == b.lookup(k) by {
        lemma_route_remove(before.index@, i, k);
        let r0 = route(before.index@, k);
        let r1 = route(after.index@, k);
        assert(a.lookup(k) == after.data[r1].lookup(k));
        assert(b.lookup(k) == before.data[r0].lookup(k));
        if r0 < i {
            assert(after.data[r1] == before.data[r0]);
        } else if r0 > i + 1 {
            assert(after.data[r1] == before.data[r0]);
        } else {
            assert(after.data[r1] == m);
            assert(m.lookup(k) == pair_lookup(
                before.data[i],
                before.index[i],
                before.data[i + 1],
                k,
            ));
        }
    }
}

/// Children `i` and `i + 1` of `after` hold between them, in the same order,
/// what those of `before` held, the left one `gain` entries or children more
/// and the right one as many fewer, and the separator between them is set
/// anew; every other child and separator is that of `before`.
pub open spec fn exchanged(before: InternalItem, after: InternalItem, i: int, gain: int) -> bool {
    &&& after.index@ == before.index@.update(i, after.index[i])
    &&& after.data@ == before.data@.update(i, after.data[i]).update(i + 1, after.data[i + 1])
    &&& pair_same_entries(
        before.data[i],
        before.index[i],
        before.data[i + 1],
        after.data[i],
        after.index[i],
        after.data[i + 1],
    )
    &&& after.data[i].occupancy() == before.data[i].occupancy() + gain
    &&& after.data[i + 1].occupancy() == before.data[i + 1].occupancy() - gain
}

/// Child `i` of `after` holds what children `i` and `i + 1` of `before` held,
/// the separator between those two is gone, and every other child and
/// separator is that of `before`.
pub open spec fn merged(before: InternalItem, after: InternalItem, i: int) -> bool {
    &&& after.index@ == before.index@.remove(i)
    &&& after.data@ == before.data@.remove(i + 1).update(i, after.data[i])
    &&& is_merge_of(after.data[i], before.data[i], before.index[i], before.data[i + 1])
}

/// How the child at `loc` is refilled: with one entry or child of the left
/// sibling if that one holds more than the minimum; else with one of the
/// right sibling if that one does; else by a merge with the left sibling;
/// and by a merge with the right sibling where there is no left one.
pub open spec fn refill_step(before: InternalItem, after: InternalItem, loc: int, fanout: nat) -> bool {
    if loc > 0 && before.data[loc - 1].occupancy() > min_fill(fanout) {
        exchanged(before, after, loc - 1, -1)
    } else if loc + 1 < before.data.len() && before.data[loc + 1].occupancy() > min_fill(fanout) {
        exchanged(before, after, loc, 1)
    } else if loc > 0 {
        merged(before, after, loc - 1)
    } else {
        merged(before, after, loc)
    }
}

/// What `refill_child` starts from: an internal node with at least two
/// children that is well formed but for its child at `loc`, which is one
/// short of the minimum.
pub open spec fn needs_refill(node: InternalItem, loc: int, lo: int, hi: int, fanout: nat) -> bool {
    &&& 3 <= fanout
    &&& node.wf_within(lo, hi, fanout, fanout, loc)
    &&& 0 <= loc < node.data.len()
    &&& node.data.len() >= 2
    &&& node.data[loc].occupancy() + 1 == min_fill(fanout)
}

/// Facts about two neighbouring children of a node that is well formed but
/// for one weak child: each is well formed in its range, they are of one
/// height and one kind, and the separator between them lies strictly inside
/// the range of the two.
pub proof fn lemma_neighbours(
    node: InternalItem,
    i: int,
    lo: int,
    hi: int,
    fanout: nat,
    weak: int,
)
    requires
        node.wf_within(lo, hi, fanout, fanout, weak),
        0 <= i,
        i + 1 < node.data.len(),
    ensures
        node.data[i].wf(node.lower(i, lo), node.index[i] as int, fanout),
        node.data[i + 1].wf(node.index[i] as int, node.upper(i + 1, hi), fanout),
        node.lower(i, lo) < node.index[i] < node.upper(i + 1, hi),
        lo <= node.lower(i, lo),
        node.upper(i + 1, hi) <= hi,
        node.data[i].height() == node.data[i + 1].height(),
        node.data[i].shaped(),
        node.data[i + 1].shaped(),
        (node.data[i] is LeafNode && node.data[i + 1] is LeafNode) || (node.data[i] is InternalNode
            && node.data[i + 1] is InternalNode),
{
    assert(node.data[i].wf(node.lower(i, lo), node.upper(i, hi), fanout));
    assert(node.data[i + 1].wf(node.lower(i + 1, lo), node.upper(i + 1, hi), fanout));
    if i > 0 {
        assert(node.index[i - 1] < node.index[i]);
    }
    if i + 1 < node.index.len() {
        assert(node.index[i] < node.index[i + 1]);
    }
    lemma_same_kind(
        node.data[i],
        node.data[i + 1],
        node.lower(i, lo),
        node.index[i] as int,
        node.upper(i + 1, hi),
        fanout,
    );
}

/// A node with the same separators and children needs the same refill, is
/// as high, and answers every search alike.
pub proof fn lemma_same_content(
    before: InternalItem,
    after: InternalItem,
    loc: int,
    lo: int,
    hi: int,
    fanout: nat,
)
    requires
        same_content(before, after),
        needs_refill(before, loc, lo, hi, fanout),
    ensures
        needs_refill(after, loc, lo, hi, fanout),
        TreeNode::InternalNode(after).height() == TreeNode::InternalNode(before).height(),
        forall|k: usize| #[trigger]
            TreeNode::InternalNode(after).lookup(k) == TreeNode::InternalNode(before).lookup(k),
{
    assert forall|i: int| 0 <= i < after.data.len() implies {
        &&& (#[trigger] after.data[i]).wf(after.lower(i, lo), after.upper(i, hi), fanout)
        &&& (after.data[i].occupancy() >= min_fill(fanout) || (i == loc
            && after.data[i].occupancy() + 1 >= min_fill(fanout)))
        &&& after.data[i].height() == after.data[0].height()
    } by {
        assert(before.data[i].wf(before.lower(i, lo), before.upper(i, hi), fanout));
    }
}

/// Refills the child at `loc` with the last entry or child of its left
/// sibling, if that sibling can spare one. Says whether it did.
#[verifier::rlimit(30)]
pub fn try_borrow_left(
    node: &mut InternalItem,
    loc: usize,
    fanout: usize,
    Ghost(lo): Ghost<int>,
    Ghost(hi): Ghost<int>,
) -> (done: bool)
    requires
        needs_refill(*old(node), loc as int, lo, hi, fanout as nat),
        loc > 0,
    ensures
        done <==> old(node).data[loc - 1].occupancy() > min_fill(fanout as nat),
        done ==> refilled(*old(node), *final(node), lo, hi, fanout as nat) && exchanged(
            *old(node),
            *final(node),
            loc - 1,
            -1,
        ),
        !done ==> same_content(*old(node), *final(node)),
{
    let ghost before = *node;
    let ghost i = loc - 1;
    proof {
        lemma_neighbours(before, i, lo, hi, fanout as nat, loc as int);
    }
    let mut left = node.data.remove(loc - 1);
    let mut child = node.data.remove(loc - 1);
    let sep = node.index[loc - 1];
    let borrowed = borrow_from_left(&mut left, sep, &mut child, fanout);
    match borrowed {
        Some(s2) => {
            proof {
                lemma_pair_same(
                    before.data[i],
                    sep,
                    before.data[i + 1],
                    left,
                    s2,
                    child,
                    before.lower(i, lo),
                    before.upper(i + 1, hi),
                    fanout as nat,
                );
            }
            node.index.set(loc - 1, s2);
            node.data.insert(loc - 1, child);
            node.data.insert(loc - 1, left);
            proof {
                assert(node.data@ =~= before.data@.update(i, left).update(i + 1, child));
                lemma_parent_pair_wf(
                    before,
                    *node,
                    i,
                    left,
                    s2,
                    child,
                    lo,
                    hi,
                    fanout as nat,
                    loc as int,
                );
                lemma_parent_pair_lookup(before, *node, i, left, s2, child);
            }
            true
        },
        None => {
            node.data.insert(loc - 1, child);
            node.data.insert(loc - 1, left);
            proof {
                assert(node.data@ =~= before.data@);
            }
            false
        },
    }
}

/// Refills the child at `loc` with the first entry or child of its right
/// sibling, if that sibling can spare one. Says whether it did.
#[verifier::rlimit(30)]
pub fn try_borrow_right(
    node: &mut InternalItem,
    loc: usize,
    fanout: usize,
    Ghost(lo): Ghost<int>,
    Ghost(hi): Ghost<int>,
) -> (done: bool)
    requires
        needs_refill(*old(node), loc as int, lo, hi, fanout as nat),
        loc + 1 < old(node).data.len(),
    ensures
        done <==> old(node).data[loc + 1].occupancy() > min_fill(fanout as nat),
        done ==> refilled(*old(node), *final(node), lo, hi, fanout as nat) && exchanged(
            *old(node),
            *final(node),
            loc as int,
            1,
        ),
        !done ==> same_content(*old(node), *final(node)),
{
    let ghost before = *node;
    let ghost i = loc as int;
    proof {
        lemma_neighbours(before, i, lo, hi, fanout as nat, loc as int);
    }
    let mut child = node.data.remove(loc);
    let mut right = node.data.remove(loc);
    let sep = node.index[loc];
    let borrowed = borrow_from_right(&mut child, sep, &mut right, fanout);
    match borrowed {
        Some(s2) => {
            proof {
                lemma_pair_same(
                    before.data[i],
                    sep,
                    before.data[i + 1],
                    child,
                    s2,
                    right,
                    before.lower(i, lo),
                    before.upper(i + 1, hi),
                    fanout as nat,
                );
            }
            node.index.set(loc, s2);
            node.data.insert(loc, right);
            node.data.insert(loc, child);
            proof {
                assert(node.data@ =~= before.data@.update(i, child).update(i + 1, right));
                lemma_parent_pair_wf(
                    before,
                    *node,
                    i,
                    child,
                    s2,
                    right,
                    lo,
                    hi,
                    fanout as nat,
                    loc as int,
                );
                lemma_parent_pair_lookup(before, *node, i, child, s2, right);
            }
            true
        },
        None => {
            node.data.insert(loc, right);
            node.data.insert(loc, child);
            proof {
                assert(node.data@ =~= before.data@);
            }
            false
        },
    }
}

/// Merges the child at `loc` into its left sibling, which holds no more than
/// the minimum, and takes the child's slot and the separator between the two
/// out of the node.
pub fn merge_with_left(
    node: &mut InternalItem,
    loc: usize,
    fanout: usize,
    Ghost(lo): Ghost<int>,
    Ghost(hi): Ghost<int>,
)
    requires
        needs_refill(*old(node), loc as int, lo, hi, fanout as nat),
        loc > 0,
        old(node).data[loc - 1].occupancy() <= min_fill(fanout as nat),
    ensures
        refilled(*old(node), *final(node), lo, hi, fanout as nat),
        merged(*old(node), *final(node), loc - 1),
{
    let ghost before = *node;
    let ghost i = loc - 1;
    proof {
        lemma_neighbours(before, i, lo, hi, fanout as nat, loc as int);
    }
    let child = node.data.remove(loc);
    let sep = node.index.remove(loc - 1);
    let mut left = node.data.remove(loc - 1);
    left.merge_from_right(child, sep);
    proof {
        lemma_merge(
            before.data[i],
            sep,
            before.data[i + 1],
            left,
            before.lower(i, lo),
            before.upper(i + 1, hi),
            fanout as nat,
        );
    }
    node.data.insert(loc - 1, left);
    proof {
        assert(node.data@ =~= before.data@.remove(i + 1).update(i, left));
        lemma_parent_merge_wf(before, *node, i, left, lo, hi, fanout as nat, loc as int);
        lemma_parent_merge_lookup(before, *node, i, left);
    }
}

/// Merges the child at `loc` into its right sibling, which holds no more
/// than the minimum, and takes the child's slot and the separator between
/// the two out of the node.
pub fn merge_with_right(
    node: &mut InternalItem,
    loc: usize,
    fanout: usize,
    Ghost(lo): Ghost<int>,
    Ghost(hi): Ghost<int>,
)
    requires
        needs_refill(*old(node), loc as int, lo, hi, fanout as nat),
        loc + 1 < old(node).data.len(),
        old(node).data[loc + 1].occupancy() <= min_fill(fanout as nat),
    ensures
        refilled(*old(node), *final(node), lo, hi, fanout as nat),
        merged(*old(node), *final(node), loc as int),
{
    let ghost before = *node;
    let ghost i = loc as int;
    proof {
        lemma_neighbours(before, i, lo, hi, fanout as nat, loc as int);
    }
    let child = node.data.remove(loc);
    let sep = node.index.remove(loc);
    let mut right = node.data.remove(loc);
    right.merge_from_left(child, sep);
    proof {
        lemma_merge(
            before.data[i],
            sep,
            before.data[i + 1],
            right,
            before.lower(i, lo),
            before.upper(i + 1, hi),
            fanout as nat,
        );
    }
    node.data.insert(loc, right);
    proof {
        assert(node.data@ =~= before.data@.remove(i + 1).update(i, right));
        lemma_parent_merge_wf(before, *node, i, right, lo, hi, fanout as nat, loc as int);
        lemma_parent_merge_lookup(before, *node, i, right);
    }
}

/// Brings the child at `loc`, which is one short of the minimum, back to it:
/// by an entry or child from the left sibling if that one can spare it, else
/// from the right sibling if that one can, else by merging the child into the
/// left sibling, or into the right one where there is no left one.
pub fn refill_child(
    node: &mut InternalItem,
    loc: usize,
    fanout: usize,
    Ghost(lo): Ghost<int>,
    Ghost(hi): Ghost<int>,
)
    requires
        needs_refill(*old(node), loc as int, lo, hi, fanout as nat),
    ensures
        refilled(*old(node), *final(node), lo, hi, fanout as nat),
        refill_step(*old(node), *final(node), loc as int, fanout as nat),
{
    let ghost before = *node;
    if loc > 0 {
        if try_borrow_left(node, loc, fanout, Ghost(lo), Ghost(hi)) {
            return ;
        }
    }
    let ghost mid = *node;
    proof {
        lemma_same_content(before, mid, loc as int, lo, hi, fanout as nat);
    }
    if loc + 1 < node.data.len() {
        if try_borrow_right(node, loc, fanout, Ghost(lo), Ghost(hi)) {
            return ;
        }
    }
    let ghost last = *node;
    proof {
        lemma_same_content(mid, last, loc as int, lo, hi, fanout as nat);
    }
    if loc > 0 {
        merge_with_left(node, loc, fanout, Ghost(lo), Ghost(hi));
    } else {
        merge_with_right(node, loc, fanout, Ghost(lo), Ghost(hi));
    }
}

} // verus!
