//! The node model: leaves that hold the entries, internal nodes that hold
//! separators and children, and what it means for a subtree to be well formed.

use crate::ordering::{
    binary_search_internal_nodes, binary_search_leafs, compare, sorted, strictly_sorted,
};
use vstd::prelude::*;

verus! {

/// A leaf: keys in strictly ascending order, each with its payload at the
/// same position.
pub struct LeafItem {
    pub index: Vec<usize>,
    pub data: Vec<String>,
}

/// An internal node: `index[i]` separates `data[i]` from `data[i + 1]`, so it
/// holds one child more than it holds separators.
pub struct InternalItem {
    pub index: Vec<usize>,
    pub data: Vec<TreeNode>,
}

/// A subtree. `Null` is the absence of one.
pub enum TreeNode {
    Null,
    InternalNode(InternalItem),
    LeafNode(LeafItem),
}

/// What moves between two siblings when one borrows from the other: a payload
/// between leaves, a child between internal nodes.
pub enum ChildType {
    Data(String),
    Node(TreeNode),
}

/// The node `after` has the separators and children of `before`.
pub open spec fn same_content(before: InternalItem, after: InternalItem) -> bool {
    &&& after.index@ == before.index@
    &&& after.data@ == before.data@
}

/// The least number of entries or children that a node other than the root
/// may hold: half the fanout, rounded up.
pub open spec fn min_fill(fanout: nat) -> nat {
    (fanout + 1) / 2
}

/// The payloads of a list of strings, as plain character sequences.
pub open spec fn payloads(data: Seq<String>) -> Seq<Seq<char>> {
    Seq::new(data.len(), |i: int| data[i]@)
}

/// In an ascending list, the number of keys below `key`: the position of
/// `key` if it is present, and its insertion point if it is not.
pub open spec fn rank(keys: Seq<usize>, key: usize) -> int
    decreases keys.len(),
{
    if keys.len() == 0 {
        0
    } else if keys.last() < key {
        keys.len() as int
    } else {
        rank(keys.drop_last(), key)
    }
}

/// In an ascending list of separators, the number of separators that are not
/// above `key`: the slot of the child whose range holds `key`.
pub open spec fn route(seps: Seq<usize>, key: usize) -> int
    decreases seps.len(),
{
    if seps.len() == 0 {
        0
    } else if seps.last() <= key {
        seps.len() as int
    } else {
        route(seps.drop_last(), key)
    }
}

/// `i` splits `keys` into the keys below `key` and the keys not below it.
pub open spec fn is_rank(keys: Seq<usize>, key: usize, i: int) -> bool {
    &&& 0 <= i <= keys.len()
    &&& forall|j: int| 0 <= j < i ==> keys[j] < key
    &&& forall|j: int| i <= j < keys.len() ==> keys[j] >= key
}

/// `i` splits `seps` into the separators not above `key` and those above it.
pub open spec fn is_route(seps: Seq<usize>, key: usize, i: int) -> bool {
    &&& 0 <= i <= seps.len()
    &&& forall|j: int| 0 <= j < i ==> seps[j] <= key
    &&& forall|j: int| i <= j < seps.len() ==> seps[j] > key
}

/// In an ascending list, `rank` is a split point.
pub proof fn lemma_rank_is_rank(keys: Seq<usize>, key: usize)
    requires
        sorted(keys),
    ensures
        is_rank(keys, key, rank(keys, key)),
    decreases keys.len(),
{
    if keys.len() > 0 {
        let front = keys.drop_last();
        assert(sorted(front)) by {
            assert forall|i: int, j: int| 0 <= i < j < front.len() implies front[i] <= front[j] by {
                assert(front[i] == keys[i] && front[j] == keys[j]);
            }
        }
        if keys.last() < key {
            assert forall|j: int| 0 <= j < keys.len() implies keys[j] < key by {
                assert(keys[j] <= keys[keys.len() - 1]);
            }
        } else {
            lemma_rank_is_rank(front, key);
            assert forall|j: int| rank(front, key) <= j < keys.len() implies keys[j] >= key by {
                if j < front.len() {
                    assert(front[j] == keys[j]);
                }
            }
            assert forall|j: int| 0 <= j < rank(front, key) implies keys[j] < key by {
                assert(front[j] == keys[j]);
            }
        }
    }
}

/// A split point of any list is its `rank`.
pub proof fn lemma_rank_unique(keys: Seq<usize>, key: usize, i: int)
    requires
        is_rank(keys, key, i),
    ensures
        rank(keys, key) == i,
    decreases keys.len(),
{
    if keys.len() > 0 && !(keys.last() < key) {
        lemma_rank_unique(keys.drop_last(), key, i);
    }
}

/// In an ascending list, `route` is a split point.
pub proof fn lemma_route_is_route(seps: Seq<usize>, key: usize)
    requires
        sorted(seps),
    ensures
        is_route(seps, key, route(seps, key)),
    decreases seps.len(),
{
    if seps.len() > 0 {
        let front = seps.drop_last();
        assert(sorted(front)) by {
            assert forall|i: int, j: int| 0 <= i < j < front.len() implies front[i] <= front[j] by {
                assert(front[i] == seps[i] && front[j] == seps[j]);
            }
        }
        if seps.last() <= key {
            assert forall|j: int| 0 <= j < seps.len() implies seps[j] <= key by {
                assert(seps[j] <= seps[seps.len() - 1]);
            }
        } else {
            lemma_route_is_route(front, key);
            assert forall|j: int| route(front, key) <= j < seps.len() implies seps[j] > key by {
                if j < front.len() {
                    assert(front[j] == seps[j]);
                }
            }
            assert forall|j: int| 0 <= j < route(front, key) implies seps[j] <= key by {
                assert(front[j] == seps[j]);
            }
        }
    }
}

/// A split point of any list is its `route`.
pub proof fn lemma_route_unique(seps: Seq<usize>, key: usize, i: int)
    requires
        is_route(seps, key, i),
    ensures
        route(seps, key) == i,
    decreases seps.len(),
{
    if seps.len() > 0 && !(seps.last() <= key) {
        lemma_route_unique(seps.drop_last(), key, i);
    }
}

/// What a search for `key` finds in a leaf with these keys and payloads.
pub open spec fn leaf_lookup(index: Seq<usize>, data: Seq<String>, key: usize) -> Option<Seq<char>> {
    let i = rank(index, key);
    if 0 <= i < index.len() && i < data.len() && index[i] == key {
        Some(data[i]@)
    } else {
        None
    }
}

/// A key that stands at position `j` of a leaf is found, with the payload at `j`.
pub proof fn lemma_leaf_hit(index: Seq<usize>, data: Seq<String>, j: int)
    requires
        strictly_sorted(index),
        0 <= j < index.len(),
        j < data.len(),
    ensures
        leaf_lookup(index, data, index[j]) == Some(data[j]@),
{
    lemma_rank_unique(index, index[j], j);
}

/// A key that stands nowhere in a leaf is not found.
pub proof fn lemma_leaf_miss(index: Seq<usize>, data: Seq<String>, key: usize)
    requires
        forall|j: int| 0 <= j < index.len() ==> index[j] != key,
    ensures
        leaf_lookup(index, data, key) is None,
{
}

/// A key that is not found in a leaf stands nowhere in it.
pub proof fn lemma_leaf_none(index: Seq<usize>, data: Seq<String>, key: usize)
    requires
        strictly_sorted(index),
        index.len() == data.len(),
        leaf_lookup(index, data, key) is None,
    ensures
        forall|j: int| 0 <= j < index.len() ==> index[j] != key,
{
    lemma_rank_is_rank(index, key);
    let r = rank(index, key);
    assert forall|j: int| 0 <= j < index.len() implies index[j] != key by {
        if j > r {
            assert(index[r] < index[j]);
        }
    }
}

impl LeafItem {
    /// The leaf's keys are strictly ascending and lie in `[lo, hi)`, each has
    /// a payload, and there are at most `fanout` of them.
    pub open spec fn wf(&self, lo: int, hi: int, fanout: nat) -> bool {
        &&& self.index.len() == self.data.len()
        &&& self.index.len() <= fanout
        &&& strictly_sorted(self.index@)
        &&& forall|i: int| 0 <= i < self.index.len() ==> lo <= #[trigger] self.index[i] < hi
    }

    /// The payload stored under `key`, if there is one.
    pub open spec fn lookup(&self, key: usize) -> Option<Seq<char>> {
        leaf_lookup(self.index@, self.data@, key)
    }
}

impl InternalItem {
    /// The lower end of the key range of child `i`, in a node whose own range
    /// starts at `lo`.
    pub open spec fn lower(&self, i: int, lo: int) -> int {
        if i <= 0 {
            lo
        } else {
            self.index[i - 1] as int
        }
    }

    /// The upper end of the key range of child `i`, in a node whose own range
    /// ends before `hi`.
    pub open spec fn upper(&self, i: int, hi: int) -> int {
        if i >= self.index.len() {
            hi
        } else {
            self.index[i] as int
        }
    }

    /// What `TreeNode::wf` asks of an internal node, but with room for `cap`
    /// children in this node, and with the child at slot `weak` allowed to be
    /// one short of `min_fill(fanout)`: the state of a node between the moment
    /// a child grew or shrank and the moment the node is split or the child
    /// refilled. No child is let off where `weak` is negative.
    pub open spec fn wf_within(&self, lo: int, hi: int, fanout: nat, cap: nat, weak: int) -> bool {
        &&& self.data.len() == self.index.len() + 1
        &&& self.data.len() <= cap
        &&& strictly_sorted(self.index@)
        &&& forall|i: int| 0 <= i < self.index.len() ==> lo < #[trigger] self.index[i] < hi
        &&& forall|i: int|
            0 <= i < self.data.len() ==> {
                &&& (#[trigger] self.data[i]).wf(self.lower(i, lo), self.upper(i, hi), fanout)
                &&& (self.data[i].occupancy() >= min_fill(fanout) || (i == weak
                    && self.data[i].occupancy() + 1 >= min_fill(fanout)))
                &&& self.data[i].height() == self.data[0].height()
            }
    }

    /// The keys of the first `n` children, in order.
    pub open spec fn keys_upto(&self, n: nat) -> Seq<usize>
        decreases self, n,
    {
        if n == 0 || n > self.data.len() {
            Seq::empty()
        } else {
            self.keys_upto((n - 1) as nat) + self.data[n - 1].keys()
        }
    }

    /// The payloads of the first `n` children, in order.
    pub open spec fn values_upto(&self, n: nat) -> Seq<Seq<char>>
        decreases self, n,
    {
        if n == 0 || n > self.data.len() {
            Seq::empty()
        } else {
            self.values_upto((n - 1) as nat) + self.data[n - 1].values()
        }
    }
}

impl TreeNode {
    /// The number of levels of the subtree: 0 for `Null`, 1 for a leaf.
    pub open spec fn height(&self) -> nat
        decreases self,
    {
        match self {
            TreeNode::Null => 0,
            TreeNode::LeafNode(_) => 1,
            TreeNode::InternalNode(n) => if n.data.len() > 0 {
                n.data[0].height() + 1
            } else {
                1
            },
        }
    }

    /// The number of entries of a leaf, of children of an internal node.
    pub open spec fn occupancy(&self) -> nat {
        match self {
            TreeNode::Null => 0,
            TreeNode::LeafNode(l) => l.index.len() as nat,
            TreeNode::InternalNode(n) => n.data.len() as nat,
        }
    }

    /// The subtree is a B+-tree over the key range `[lo, hi)`: keys and
    /// separators ascend strictly, separator `i` parts the ranges of children
    /// `i` and `i + 1`, no node holds more than `fanout`, every node below
    /// this one holds at least `min_fill(fanout)`, and all leaves are at one
    /// depth. How full this node itself is, is left to `occupancy`.
    pub open spec fn wf(&self, lo: int, hi: int, fanout: nat) -> bool
        decreases self,
    {
        match self {
            TreeNode::Null => false,
            TreeNode::LeafNode(l) => l.wf(lo, hi, fanout),
            TreeNode::InternalNode(n) => {
                &&& n.data.len() == n.index.len() + 1
                &&& n.data.len() <= fanout
                &&& strictly_sorted(n.index@)
                &&& forall|i: int| 0 <= i < n.index.len() ==> lo < #[trigger] n.index[i] < hi
                &&& forall|i: int|
                    0 <= i < n.data.len() ==> {
                        &&& (#[trigger] n.data[i]).wf(n.lower(i, lo), n.upper(i, hi), fanout)
                        &&& n.data[i].occupancy() >= min_fill(fanout)
                        &&& n.data[i].height() == n.data[0].height()
                    }
            },
        }
    }

    /// The payload that a search for `key` finds in the subtree.
    pub open spec fn lookup(&self, key: usize) -> Option<Seq<char>>
        decreases self,
    {
        match self {
            TreeNode::Null => None,
            TreeNode::LeafNode(l) => l.lookup(key),
            TreeNode::InternalNode(n) => {
                let i = route(n.index@, key);
                if 0 <= i < n.data.len() {
                    n.data[i].lookup(key)
                } else {
                    None
                }
            },
        }
    }

    /// The keys of the subtree, leaf by leaf from left to right.
    pub open spec fn keys(&self) -> Seq<usize>
        decreases self, 0nat,
    {
        match self {
            TreeNode::Null => Seq::empty(),
            TreeNode::LeafNode(l) => l.index@,
            TreeNode::InternalNode(n) => n.keys_upto(n.data.len() as nat),
        }
    }

    /// The payloads of the subtree, leaf by leaf from left to right.
    pub open spec fn values(&self) -> Seq<Seq<char>>
        decreases self, 0nat,
    {
        match self {
            TreeNode::Null => Seq::empty(),
            TreeNode::LeafNode(l) => payloads(l.data@),
            TreeNode::InternalNode(n) => n.values_upto(n.data.len() as nat),
        }
    }

    /// Point lookup: the payload stored under `index`, or `None`.
    pub fn get_item(&self, index: &usize) -> (found: Option<String>)
        requires
            self is Null || exists|lo: int, hi: int, fanout: nat| self.wf(lo, hi, fanout),
        ensures
            found is Some <==> self.lookup(*index) is Some,
            found is Some ==> found.unwrap()@ == self.lookup(*index).unwrap(),
    {
        if let TreeNode::Null = self {
            return None;
        }
        let ghost (lo, hi, fanout) = choose|lo: int, hi: int, fanout: nat| self.wf(lo, hi, fanout);
        self.get_item_inner(index, Ghost(lo), Ghost(hi), Ghost(fanout))
    }

    /// Descends from this node to the leaf whose range holds `index`.
    pub fn get_item_inner(
        &self,
        index: &usize,
        Ghost(lo): Ghost<int>,
        Ghost(hi): Ghost<int>,
        Ghost(fanout): Ghost<nat>,
    ) -> (found: Option<String>)
        requires
            self.wf(lo, hi, fanout),
        ensures
            found is Some <==> self.lookup(*index) is Some,
            found is Some ==> found.unwrap()@ == self.lookup(*index).unwrap(),
        decreases self,
    {
        match self {
            TreeNode::InternalNode(internal) => {
                let loc = binary_search_internal_nodes(&internal.index, index, compare);
                proof {
                    lemma_route_unique(internal.index@, *index, loc as int);
                }
                internal.data[loc].get_item_inner(
                    index,
                    Ghost(internal.lower(loc as int, lo)),
                    Ghost(internal.upper(loc as int, hi)),
                    Ghost(fanout),
                )
            },
            TreeNode::LeafNode(leaf) => {
                let loc = binary_search_leafs(&leaf.index, index, compare);
                proof {
                    lemma_rank_unique(leaf.index@, *index, loc as int);
                }
                if loc < leaf.index.len() && leaf.index[loc] == *index {
                    Some(leaf.data[loc].clone())
                } else {
                    None
                }
            },
            TreeNode::Null => None,
        }
    }

    /// The number of levels of the subtree, added to `prev_depth`.
    pub fn get_max_depth(&self, prev_depth: usize) -> (depth: usize)
        requires
            prev_depth + self.height() <= usize::MAX,
        ensures
            depth == prev_depth + self.height(),
        decreases self,
    {
        match self {
            TreeNode::InternalNode(x) => {
                if x.data.len() > 0 {
                    x.data[0].get_max_depth(prev_depth + 1)
                } else {
                    prev_depth + 1
                }
            },
            TreeNode::LeafNode(_) => prev_depth + 1,
            TreeNode::Null => prev_depth,
        }
    }

    /// Appends the payloads of the subtree to `accum`, leaf by leaf from left
    /// to right, and so in ascending order of their keys.
    pub fn iterate_through(&self, accum: Vec<String>) -> (out: Vec<String>)
        ensures
            payloads(out@) == payloads(accum@) + self.values(),
        decreases self,
    {
        let mut accum = accum;
        let ghost start = payloads(accum@);
        match self {
            TreeNode::InternalNode(node) => {
                let mut i: usize = 0;
                while i < node.data.len()
                    invariant
                        i <= node.data.len(),
                        self == TreeNode::InternalNode(*node),
                        payloads(accum@) == start + node.values_upto(i as nat),
                    decreases node.data.len() - i,
                {
                    proof {
                        assert(self->InternalNode_0 == *node);
                        assert(decreases_to!(*self => self->InternalNode_0));
                        assert(decreases_to!(*node => node.data));
                        assert(decreases_to!(node.data => node.data[i as int]));
                    }
                    accum = node.data[i].iterate_through(accum);
                    proof {
                        assert(node.values_upto((i + 1) as nat) == node.values_upto(i as nat)
                            + node.data[i as int].values());
                        assert(payloads(accum@) =~= start + node.values_upto((i + 1) as nat));
                    }
                    i += 1;
                }
                accum
            },
            TreeNode::LeafNode(node) => {
                let mut i: usize = 0;
                while i < node.data.len()
                    invariant
                        i <= node.data.len(),
                        payloads(accum@) == start + payloads(node.data@.subrange(0, i as int)),
                    decreases node.data.len() - i,
                {
                    let ghost before = accum@;
                    accum.push(node.data[i].clone());
                    proof {
                        let target = start + payloads(node.data@.subrange(0, i + 1));
                        assert(payloads(before).len() == start.len() + i);
                        assert forall|j: int| 0 <= j < target.len() implies payloads(accum@)[j]
                            == target[j] by {
                            if j < before.len() {
                                assert(payloads(before)[j] == (start + payloads(
                                    node.data@.subrange(0, i as int),
                                ))[j]);
                            }
                        }
                        assert(payloads(accum@) =~= target);
                    }
                    i += 1;
                }
                proof {
                    assert(node.data@.subrange(0, node.data.len() as int) =~= node.data@);
                }
                accum
            },
            TreeNode::Null => {
                proof {
                    assert(payloads(accum@) =~= start + self.values());
                }
                accum
            },
        }
    }

    /// Whether this is the absence of a subtree.
    pub fn is_null(&self) -> (null: bool)
        ensures
            null == (self is Null),
    {
        match self {
            TreeNode::Null => true,
            _ => false,
        }
    }
}

} // verus!
