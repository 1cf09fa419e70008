//! The entries of a subtree read leaf by leaf, from left to right: why their
//! keys ascend, and why they are exactly what a search finds.

use crate::node::{
    lemma_leaf_hit, lemma_route_is_route, lemma_route_unique, payloads, rank, route,
    InternalItem, TreeNode,
};
use crate::ordering::strictly_sorted;
use vstd::prelude::*;

verus! {

/// The keys `keys` with the payloads `values` are the entries of `node`: as
/// many payloads as keys, the keys strictly ascending inside `[lo, hi)`, each
/// key found with the payload at its position, and every key that is found
/// among them.
pub open spec fn lists_entries(
    node: TreeNode,
    keys: Seq<usize>,
    values: Seq<Seq<char>>,
    lo: int,
    hi: int,
) -> bool {
    &&& keys.len() == values.len()
    &&& strictly_sorted(keys)
    &&& forall|j: int| 0 <= j < keys.len() ==> lo <= #[trigger] keys[j] < hi
    &&& forall|j: int| 0 <= j < keys.len() ==> node.lookup(#[trigger] keys[j]) == Some(values[j])
    &&& forall|k: usize| node.lookup(k) is Some ==> keys.contains(k)
}

/// The keys `keys` with the payloads `values` are the entries of the first
/// `m` children of the internal node `n`.
pub open spec fn lists_entries_upto(
    n: InternalItem,
    m: nat,
    keys: Seq<usize>,
    values: Seq<Seq<char>>,
    lo: int,
    hi: int,
) -> bool {
    &&& keys.len() == values.len()
    &&& strictly_sorted(keys)
    &&& forall|j: int| 0 <= j < keys.len() ==> lo <= #[trigger] keys[j] < n.upper(m - 1, hi)
    &&& forall|j: int|
        0 <= j < keys.len() ==> TreeNode::InternalNode(n).lookup(#[trigger] keys[j]) == Some(
            values[j],
        )
    &&& forall|k: usize|
        route(n.index@, k) < m && TreeNode::InternalNode(n).lookup(k) is Some ==> keys.contains(k)
}

/// Read leaf by leaf, a well-formed subtree lists its entries.
pub proof fn lemma_inorder(node: TreeNode, lo: int, hi: int, fanout: nat)
    requires
        node.wf(lo, hi, fanout),
    ensures
        lists_entries(node, node.keys(), node.values(), lo, hi),
    decreases node, 0nat,
{
    match node {
        TreeNode::Null => {},
        TreeNode::LeafNode(l) => {
            let ks = l.index@;
            let vs = payloads(l.data@);
            assert forall|j: int| 0 <= j < ks.len() implies node.lookup(#[trigger] ks[j]) == Some(
                vs[j],
            ) by {
                lemma_leaf_hit(l.index@, l.data@, j);
            }
            assert forall|k: usize| node.lookup(k) is Some implies ks.contains(k) by {
                assert(ks[rank(ks, k)] == k);
            }
        },
        TreeNode::InternalNode(n) => {
            lemma_inorder_upto(n, n.data.len() as nat, lo, hi, fanout);
            let ks = node.keys();
            assert forall|k: usize| node.lookup(k) is Some implies ks.contains(k) by {
                lemma_route_is_route(n.index@, k);
            }
        },
    }
}

/// Read leaf by leaf, the first `m` children of a well-formed internal node
/// list their entries.
pub proof fn lemma_inorder_upto(n: InternalItem, m: nat, lo: int, hi: int, fanout: nat)
    requires
        TreeNode::InternalNode(n).wf(lo, hi, fanout),
        m <= n.data.len(),
    ensures
        lists_entries_upto(n, m, n.keys_upto(m), n.values_upto(m), lo, hi),
    decreases n, m,
{
    if m > 0 {
        let i = (m - 1) as int;
        let node = TreeNode::InternalNode(n);
        let child = n.data[i];
        let clo = n.lower(i, lo);
        let chi = n.upper(i, hi);
        lemma_inorder_upto(n, (m - 1) as nat, lo, hi, fanout);
        assert(child.wf(clo, chi, fanout));
        lemma_inorder(child, clo, chi, fanout);
        let ks0 = n.keys_upto((m - 1) as nat);
        let vs0 = n.values_upto((m - 1) as nat);
        let ks1 = child.keys();
        let vs1 = child.values();
        let ks = n.keys_upto(m);
        let vs = n.values_upto(m);
        assert(ks == ks0 + ks1);
        assert(vs == vs0 + vs1);
        assert(i > 0 ==> n.upper(i - 1, hi) == clo);
        assert(lo <= clo) by {
            if i > 0 {
                assert(n.index[i - 1] > lo);
            }
        }
        assert forall|a: int, b: int| 0 <= a < b < ks.len() implies ks[a] < ks[b] by {
            if b < ks0.len() {
                assert(ks[a] == ks0[a] && ks[b] == ks0[b]);
            } else if a < ks0.len() {
                assert(ks[a] == ks0[a] && ks[b] == ks1[b - ks0.len()]);
                assert(ks0[a] < n.upper(i - 1, hi));
            } else {
                assert(ks[a] == ks1[a - ks0.len()] && ks[b] == ks1[b - ks0.len()]);
            }
        }
        assert forall|j: int| 0 <= j < ks.len() implies lo <= #[trigger] ks[j] < chi by {
            if j < ks0.len() {
                assert(ks[j] == ks0[j]);
                assert(ks0[j] < n.upper(i - 1, hi));
            } else {
                assert(ks[j] == ks1[j - ks0.len()]);
            }
        }
        assert forall|j: int| 0 <= j < ks.len() implies node.lookup(#[trigger] ks[j]) == Some(
            vs[j],
        ) by {
            if j < ks0.len() {
                assert(ks[j] == ks0[j] && vs[j] == vs0[j]);
            } else {
                let j1 = j - ks0.len();
                let k = ks1[j1];
                assert(ks[j] == k && vs[j] == vs1[j1]);
                assert(clo <= k < chi);
                lemma_child_route(n, i, k, lo, hi);
                assert(child.lookup(k) == Some(vs1[j1]));
            }
        }
        assert forall|k: usize| route(n.index@, k) < m && node.lookup(k) is Some implies ks.contains(
            k,
        ) by {
            lemma_route_is_route(n.index@, k);
            if route(n.index@, k) < m - 1 {
                assert(ks0.contains(k));
                let j = choose|j: int| 0 <= j < ks0.len() && ks0[j] == k;
                assert(ks[j] == k);
            } else {
                assert(child.lookup(k) is Some);
                assert(ks1.contains(k));
                let j = choose|j: int| 0 <= j < ks1.len() && ks1[j] == k;
                assert(ks[j + ks0.len()] == k);
            }
        }
    }
}

/// A key inside the range of child `i` is searched for in child `i`.
pub proof fn lemma_child_route(n: InternalItem, i: int, k: usize, lo: int, hi: int)
    requires
        strictly_sorted(n.index@),
        0 <= i <= n.index.len(),
        n.lower(i, lo) <= k < n.upper(i, hi),
    ensures
        route(n.index@, k) == i,
{
    assert forall|j: int| 0 <= j < i implies n.index[j] <= k by {
        if j < i - 1 {
            assert(n.index[j] < n.index[i - 1]);
        }
    }
    assert forall|j: int| i <= j < n.index.len() implies n.index[j] > k by {
        if j > i {
            assert(n.index[i] < n.index[j]);
        }
    }
    lemma_route_unique(n.index@, k, i);
}

/// A well-formed subtree whose top node holds two entries or children or
/// more spans a key range wider than the subtree is high.
pub proof fn lemma_height_below_width(node: TreeNode, lo: int, hi: int, fanout: nat)
    requires
        3 <= fanout,
        node.wf(lo, hi, fanout),
        node.occupancy() >= 2,
    ensures
        node.height() + 1 <= hi - lo,
    decreases node,
{
    match node {
        TreeNode::Null => {},
        TreeNode::LeafNode(l) => {
            assert(l.index[0] < l.index[1]);
        },
        TreeNode::InternalNode(n) => {
            assert(n.data[0].wf(n.lower(0, lo), n.upper(0, hi), fanout));
            assert(lo < n.index[0] < hi);
            lemma_height_below_width(n.data[0], lo, n.index[0] as int, fanout);
        },
    }
}

} // verus!
