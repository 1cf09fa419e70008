//! Insertion: into a leaf, through an internal node, and the split of a node
//! that has grown past the fanout.

use crate::node::{
    is_route, leaf_lookup, lemma_leaf_hit, lemma_leaf_miss, lemma_leaf_none, lemma_rank_is_rank,
    lemma_rank_unique, lemma_route_is_route, lemma_route_unique, min_fill, rank, route,
    same_content, InternalItem, LeafItem, TreeNode,
};
use crate::ordering::{
    binary_search_internal_nodes, binary_search_leafs, compare, strictly_sorted,
};
use vstd::prelude::*;

verus! {

/// What an insertion hands back to the level above: the subtree as it now is,
/// or, where the node had to split, its two halves and the key between them.
pub enum Inserted {
    Absorbed(TreeNode),
    Overflow(TreeNode, usize, TreeNode),
}

/// What holds of the outcome of setting `key` to `val` in the subtree
/// `before`, whose range is `[lo, hi)`.
///
/// Either way every search is answered as before, but for `key`, which now
/// finds `val`; the outcome is well formed and as high as `before`. A split
/// leaves `min_fill(fanout)` entries or children in the right half and the
/// rest of the `fanout + 1` in the left half, and searches below the
/// separator go left.
pub open spec fn insert_post(
    before: TreeNode,
    out: Inserted,
    key: usize,
    val: Seq<char>,
    lo: int,
    hi: int,
    fanout: nat,
) -> bool {
    match out {
        Inserted::Absorbed(n) => {
            &&& n.wf(lo, hi, fanout)
            &&& n.height() == (if before is Null {
                1
            } else {
                before.height()
            })
            &&& n.occupancy() >= before.occupancy()
            &&& n.occupancy() >= 1
            &&& forall|k: usize| #[trigger]
                n.lookup(k) == (if k == key {
                    Some(val)
                } else {
                    before.lookup(k)
                })
        },
        Inserted::Overflow(l, s, r) => {
            &&& !(before is Null)
            &&& lo < s < hi
            &&& l.wf(lo, s as int, fanout)
            &&& r.wf(s as int, hi, fanout)
            &&& l.height() == before.height()
            &&& r.height() == before.height()
            &&& l.occupancy() == fanout + 1 - min_fill(fanout)
            &&& r.occupancy() == min_fill(fanout)
            &&& before.lookup(key) is None
            &&& forall|k: usize|
                #![trigger l.lookup(k)]
                #![trigger r.lookup(k)]
                (if k < s {
                    l.lookup(k)
                } else {
                    r.lookup(k)
                }) == (if k == key {
                    Some(val)
                } else {
                    before.lookup(k)
                })
        },
    }
}

impl LeafItem {
    /// A leaf without entries.
    pub fn new() -> (leaf: LeafItem)
        ensures
            leaf.index@.len() == 0,
            leaf.data@.len() == 0,
    {
        LeafItem { index: Vec::new(), data: Vec::new() }
    }

    /// The position of `index` among the leaf's keys, or where it belongs.
    pub fn get_loc(&self, index: &usize) -> (loc: usize)
        ensures
            loc <= self.index.len(),
            strictly_sorted(self.index@) ==> loc == rank(self.index@, *index),
    {
        let loc = binary_search_leafs(&self.index, index, compare);
        proof {
            if strictly_sorted(self.index@) {
                lemma_rank_unique(self.index@, *index, loc as int);
            }
        }
        loc
    }

    /// The number of keys in the leaf.
    pub fn get_index_len(&self) -> (len: usize)
        ensures
            len == self.index.len(),
    {
        self.index.len()
    }

    /// Puts the entry at position `loc`, moving the later entries up by one.
    pub fn insert(&mut self, index: usize, datum: String, loc: usize)
        requires
            loc <= old(self).index.len(),
            loc <= old(self).data.len(),
        ensures
            final(self).index@ == old(self).index@.insert(loc as int, index),
            final(self).data@ == old(self).data@.insert(loc as int, datum),
    {
        self.index.insert(loc, index);
        self.data.insert(loc, datum);
    }

    /// Puts the entry behind the last one.
    pub fn push(&mut self, index: usize, datum: String)
        ensures
            final(self).index@ == old(self).index@.push(index),
            final(self).data@ == old(self).data@.push(datum),
    {
        self.index.push(index);
        self.data.push(datum);
    }
}

/// The position at which a node that holds `len` entries or children is
/// split: half of `len`, rounded up.
pub open spec fn midpoint(len: nat) -> nat {
    (len + 1) / 2
}

/// Inserting an entry into a leaf changes what is found under its key and
/// nothing else.
pub proof fn lemma_leaf_insert(
    index: Seq<usize>,
    data: Seq<String>,
    loc: int,
    key: usize,
    val: String,
)
    requires
        strictly_sorted(index),
        index.len() == data.len(),
        is_new_at(index, key, loc),
    ensures
        strictly_sorted(index.insert(loc, key)),
        forall|k: usize| #[trigger]
            leaf_lookup(index.insert(loc, key), data.insert(loc, val), k) == (if k == key {
                Some(val@)
            } else {
                leaf_lookup(index, data, k)
            }),
{
    let index2 = index.insert(loc, key);
    let data2 = data.insert(loc, val);
    assert(strictly_sorted(index2));
    assert forall|k: usize| #[trigger]
        leaf_lookup(index2, data2, k) == (if k == key {
            Some(val@)
        } else {
            leaf_lookup(index, data, k)
        }) by {
        if k == key {
            lemma_leaf_hit(index2, data2, loc);
        } else if leaf_lookup(index, data, k) is Some {
            let j = rank(index, k);
            let j2 = if j < loc {
                j
            } else {
                j + 1
            };
            lemma_leaf_hit(index2, data2, j2);
        } else {
            lemma_leaf_none(index, data, k);
            lemma_leaf_miss(index2, data2, k);
        }
    }
}

/// `key` is not among `index`, and `loc` is where it belongs.
pub open spec fn is_new_at(index: Seq<usize>, key: usize, loc: int) -> bool {
    &&& 0 <= loc <= index.len()
    &&& forall|j: int| 0 <= j < loc ==> index[j] < key
    &&& forall|j: int| loc <= j < index.len() ==> index[j] > key
}

/// Replacing the payload at one position of a leaf changes what is found
/// under the key at that position and nothing else.
pub proof fn lemma_leaf_overwrite(index: Seq<usize>, data: Seq<String>, loc: int, val: String)
    requires
        strictly_sorted(index),
        index.len() == data.len(),
        0 <= loc < index.len(),
    ensures
        forall|k: usize| #[trigger]
            leaf_lookup(index, data.update(loc, val), k) == (if k == index[loc] {
                Some(val@)
            } else {
                leaf_lookup(index, data, k)
            }),
{
    let data2 = data.update(loc, val);
    assert forall|k: usize| #[trigger]
        leaf_lookup(index, data2, k) == (if k == index[loc] {
            Some(val@)
        } else {
            leaf_lookup(index, data, k)
        }) by {
        if k == index[loc] {
            lemma_leaf_hit(index, data2, loc);
        } else if leaf_lookup(index, data, k) is Some {
            lemma_leaf_hit(index, data2, rank(index, k));
        }
    }
}

/// Cutting a leaf in two at `mid` sends each key to the half on its side of
/// the key at `mid`.
pub proof fn lemma_leaf_split(index: Seq<usize>, data: Seq<String>, mid: int)
    requires
        strictly_sorted(index),
        index.len() == data.len(),
        0 < mid < index.len(),
    ensures
        strictly_sorted(index.subrange(0, mid)),
        strictly_sorted(index.subrange(mid, index.len() as int)),
        forall|k: usize|
            k < index[mid] ==> #[trigger] leaf_lookup(
                index.subrange(0, mid),
                data.subrange(0, mid),
                k,
            ) == leaf_lookup(index, data, k),
        forall|k: usize|
            k >= index[mid] ==> #[trigger] leaf_lookup(
                index.subrange(mid, index.len() as int),
                data.subrange(mid, data.len() as int),
                k,
            ) == leaf_lookup(index, data, k),
{
    let li = index.subrange(0, mid);
    let ld = data.subrange(0, mid);
    let ri = index.subrange(mid, index.len() as int);
    let rd = data.subrange(mid, data.len() as int);
    assert(strictly_sorted(li));
    assert(strictly_sorted(ri));
    assert forall|k: usize| k < index[mid] implies #[trigger] leaf_lookup(li, ld, k)
        == leaf_lookup(index, data, k) by {
        if leaf_lookup(index, data, k) is Some {
            let j = rank(index, k);
            if j >= mid {
                assert(index[mid] <= index[j]);
            }
            lemma_leaf_hit(li, ld, j);
        } else {
            lemma_leaf_none(index, data, k);
            lemma_leaf_miss(li, ld, k);
        }
    }
    assert forall|k: usize| k >= index[mid] implies #[trigger] leaf_lookup(ri, rd, k)
        == leaf_lookup(index, data, k) by {
        if leaf_lookup(index, data, k) is Some {
            let j = rank(index, k);
            if j < mid {
                assert(index[j] < index[mid]);
            }
            lemma_leaf_hit(ri, rd, j - mid);
        } else {
            lemma_leaf_none(index, data, k);
            lemma_leaf_miss(ri, rd, k);
        }
    }
}

/// Splits a leaf that holds one entry more than the fanout allows. The
/// entries before the midpoint stay in the left half, the rest go to the
/// right half, and the first key of the right half is the separator.
pub fn split_item(mut item: LeafItem, fanout: usize, Ghost(lo): Ghost<int>, Ghost(hi): Ghost<int>) -> (out:
    Inserted)
    requires
        3 <= fanout < usize::MAX,
        item.index.len() == fanout + 1,
        item.data.len() == fanout + 1,
        strictly_sorted(item.index@),
        forall|i: int| 0 <= i < item.index.len() ==> lo <= #[trigger] item.index[i] < hi,
    ensures
        out matches Inserted::Overflow(l, s, r) && {
            &&& l matches TreeNode::LeafNode(left)
            &&& r matches TreeNode::LeafNode(right)
            &&& s == item.index[midpoint(item.index.len() as nat) as int]
            &&& lo < s < hi
            &&& left.index@ == item.index@.subrange(0, midpoint(item.index.len() as nat) as int)
            &&& left.data@ == item.data@.subrange(0, midpoint(item.index.len() as nat) as int)
            &&& right.index@ == item.index@.subrange(
                midpoint(item.index.len() as nat) as int,
                item.index.len() as int,
            )
            &&& right.data@ == item.data@.subrange(
                midpoint(item.index.len() as nat) as int,
                item.index.len() as int,
            )
            &&& left.wf(lo, s as int, fanout as nat)
            &&& right.wf(s as int, hi, fanout as nat)
            &&& left.index.len() == fanout + 1 - min_fill(fanout as nat)
            &&& right.index.len() == min_fill(fanout as nat)
            &&& forall|k: usize|
                #![trigger left.lookup(k)]
                #![trigger right.lookup(k)]
                (if k < s {
                    left.lookup(k)
                } else {
                    right.lookup(k)
                }) == item.lookup(k)
        },
{
    let ghost before = item;
    let mid: usize = item.get_midpoint_idx();
    let mid_idx: usize = item.index[mid];
    proof {
        lemma_leaf_split(item.index@, item.data@, mid as int);
    }
    let right_index = item.index.split_off(mid);
    let right_data = item.data.split_off(mid);
    let right = LeafItem { index: right_index, data: right_data };
    proof {
        assert forall|i: int| 0 <= i < item.index.len() implies item.index[i] < mid_idx by {
            assert(item.index[i] == before.index[i]);
        }
        assert forall|i: int| 0 <= i < right.index.len() implies mid_idx <= right.index[i] by {
            assert(right.index[i] == before.index[i + mid]);
        }
        assert(before.index[0] < before.index[mid as int]);
    }
    Inserted::Overflow(TreeNode::LeafNode(item), mid_idx, TreeNode::LeafNode(right))
}

impl LeafItem {
    /// The position at which the leaf is split.
    pub fn get_midpoint_idx(&self) -> (mid: usize)
        ensures
            mid == midpoint(self.index.len() as nat),
    {
        let len: usize = self.index.len();
        len / 2 + len % 2
    }
}

/// What a leaf hands back when `key` is set to `val` in it: the leaf with the
/// payload replaced where the key was there; else the leaf with the entry put
/// in at its place; and where that makes more entries than `fanout`, the two
/// halves of that leaf, cut at the midpoint, with the first key of the right
/// half between them.
pub open spec fn leaf_set(item: LeafItem, out: Inserted, key: usize, val: String, fanout: nat) -> bool {
    let loc = rank(item.index@, key);
    if item.lookup(key) is Some {
        out matches Inserted::Absorbed(TreeNode::LeafNode(l)) && l.index@ == item.index@ && l.data@
            == item.data@.update(loc, val)
    } else {
        let index = item.index@.insert(loc, key);
        let data = item.data@.insert(loc, val);
        let mid = midpoint(index.len()) as int;
        if index.len() <= fanout {
            out matches Inserted::Absorbed(TreeNode::LeafNode(l)) && l.index@ == index && l.data@
                == data
        } else {
            out matches Inserted::Overflow(TreeNode::LeafNode(a), s, TreeNode::LeafNode(b)) && {
                &&& s == index[mid]
                &&& a.index@ == index.subrange(0, mid)
                &&& a.data@ == data.subrange(0, mid)
                &&& b.index@ == index.subrange(mid, index.len() as int)
                &&& b.data@ == data.subrange(mid, data.len() as int)
            }
        }
    }
}

/// Sets `index` to `data` in a leaf: overwrites the payload if the key is
/// there, and otherwise inserts the entry in its place and splits the leaf if
/// it now holds more than `fanout` entries. The flag says whether the key was
/// new.
pub fn insert_into_leaf_node(
    mut item: LeafItem,
    index: usize,
    data: String,
    fanout: usize,
    Ghost(lo): Ghost<int>,
    Ghost(hi): Ghost<int>,
) -> (out: (Inserted, bool))
    requires
        3 <= fanout < usize::MAX,
        item.wf(lo, hi, fanout as nat),
        lo <= index < hi,
    ensures
        insert_post(TreeNode::LeafNode(item), out.0, index, data@, lo, hi, fanout as nat),
        leaf_set(item, out.0, index, data, fanout as nat),
        out.1 == (item.lookup(index) is None),
        out.0 is Overflow <==> item.lookup(index) is None && item.index.len() == fanout,
{
    let loc = item.get_loc(&index);
    proof {
        lemma_rank_is_rank(item.index@, index);
    }
    if loc < item.index.len() && item.index[loc] == index {
        proof {
            lemma_leaf_overwrite(item.index@, item.data@, loc as int, data);
        }
        item.data.set(loc, data);
        (Inserted::Absorbed(TreeNode::LeafNode(item)), false)
    } else {
        proof {
            lemma_leaf_insert(item.index@, item.data@, loc as int, index, data);
        }
        item.insert(index, data, loc);
        if item.index.len() > fanout {
            (split_item(item, fanout, Ghost(lo), Ghost(hi)), true)
        } else {
            (Inserted::Absorbed(TreeNode::LeafNode(item)), true)
        }
    }
}

impl InternalItem {
    /// An internal node without children.
    pub fn new() -> (node: InternalItem)
        ensures
            node.index@.len() == 0,
            node.data@.len() == 0,
    {
        InternalItem { index: Vec::new(), data: Vec::new() }
    }

    /// The slot of the child whose range holds `index`.
    pub fn get_loc(&self, index: &usize) -> (loc: usize)
        ensures
            loc <= self.index.len(),
            strictly_sorted(self.index@) ==> loc == route(self.index@, *index),
    {
        let loc = binary_search_internal_nodes(&self.index, index, compare);
        proof {
            if strictly_sorted(self.index@) {
                lemma_route_unique(self.index@, *index, loc as int);
            }
        }
        loc
    }

    /// The number of children of the node.
    pub fn get_index_len(&self) -> (len: usize)
        ensures
            len == self.data.len(),
    {
        self.data.len()
    }

    /// The position at which the node's children are split.
    pub fn get_midpoint_idx(&self) -> (mid: usize)
        ensures
            mid == midpoint(self.data.len() as nat),
    {
        let len: usize = self.data.len();
        len / 2 + len % 2
    }
}

/// An internal node that takes the outcome of an insertion into one child in
/// place of that child answers every search as before, but for the key that
/// was set.
pub proof fn lemma_absorb(
    before: InternalItem,
    after: InternalItem,
    x: TreeNode,
    loc: int,
    key: usize,
    val: Seq<char>,
    lo: int,
    hi: int,
    fanout: nat,
)
    requires
        TreeNode::InternalNode(before).wf(lo, hi, fanout),
        loc == route(before.index@, key),
        after.index@ == before.index@,
        after.data@ == before.data@.update(loc, x),
        insert_post(
            before.data[loc],
            Inserted::Absorbed(x),
            key,
            val,
            before.lower(loc, lo),
            before.upper(loc, hi),
            fanout,
        ),
    ensures
        insert_post(
            TreeNode::InternalNode(before),
            Inserted::Absorbed(TreeNode::InternalNode(after)),
            key,
            val,
            lo,
            hi,
            fanout,
        ),
{
    lemma_route_is_route(before.index@, key);
    let b = TreeNode::InternalNode(before);
    let a = TreeNode::InternalNode(after);
    assert forall|i: int| 0 <= i < after.data.len() implies {
        &&& (#[trigger] after.data[i]).wf(after.lower(i, lo), after.upper(i, hi), fanout)
        &&& after.data[i].occupancy() >= min_fill(fanout)
        &&& after.data[i].height() == after.data[0].height()
    } by {
        assert(before.data[i].wf(before.lower(i, lo), before.upper(i, hi), fanout));
        assert(before.data[0].wf(before.lower(0, lo), before.upper(0, hi), fanout));
    }
    assert forall|k: usize| #[trigger]
        a.lookup(k) == (if k == key {
            Some(val)
        } else {
            b.lookup(k)
        }) by {
        lemma_route_is_route(before.index@, k);
        let r0 = route(before.index@, k);
        assert(0 <= r0 < before.data.len());
        assert(route(after.index@, k) == r0);
        assert(a.lookup(k) == after.data[r0].lookup(k));
        assert(b.lookup(k) == before.data[r0].lookup(k));
        if r0 == loc {
            assert(after.data[r0] == x);
        } else {
            assert(after.data[r0] == before.data[r0]);
            assert(k != key);
        }
    }
}

/// Where a search goes once the separator `s` has been put at position `loc`.
pub open spec fn route_after_insert(r0: int, loc: int, s: usize, k: usize) -> int {
    if r0 < loc {
        r0
    } else if r0 > loc {
        r0 + 1
    } else if k < s {
        loc
    } else {
        loc + 1
    }
}

/// Putting a separator between its two neighbours keeps the list strictly
/// ascending and moves every search by at most one slot.
pub proof fn lemma_route_insert(seps: Seq<usize>, loc: int, s: usize, k: usize)
    requires
        strictly_sorted(seps),
        0 <= loc <= seps.len(),
        loc > 0 ==> seps[loc - 1] < s,
        loc < seps.len() ==> s < seps[loc],
    ensures
        strictly_sorted(seps.insert(loc, s)),
        0 <= route(seps, k) <= seps.len(),
        route(seps.insert(loc, s), k) == route_after_insert(route(seps, k), loc, s, k),
{
    let after = seps.insert(loc, s);
    assert forall|i: int, j: int| 0 <= i < j < after.len() implies after[i] < after[j] by {
        let i0 = if i < loc { i } else { i - 1 };
        let j0 = if j < loc { j } else { j - 1 };
        if i != loc && j != loc {
            assert(seps[i0] < seps[j0]);
        } else if i == loc {
            assert(seps[loc] <= seps[j0]);
        } else {
            assert(seps[i0] <= seps[loc - 1]);
        }
    }
    lemma_route_is_route(seps, k);
    let r0 = route(seps, k);
    let r1 = route_after_insert(r0, loc, s, k);
    assert(is_route(after, k, r1)) by {
        assert forall|j: int| 0 <= j < r1 implies after[j] <= k by {
            if j < loc {
                assert(after[j] == seps[j]);
            } else if j > loc {
                assert(after[j] == seps[j - 1]);
            } else {
                assert(after[j] == s);
                if r0 > loc {
                    assert(seps[loc] <= k);
                }
            }
        }
        assert forall|j: int| r1 <= j < after.len() implies after[j] > k by {
            if j < loc {
                assert(after[j] == seps[j]);
            } else if j > loc {
                assert(after[j] == seps[j - 1]);
            } else {
                assert(after[j] == s);
                if r0 < loc {
                    assert(seps[loc - 1] > k);
                }
            }
        }
    }
    lemma_route_unique(after, k, r1);
}

/// An internal node that takes the two halves of a split child in place of
/// that child, and the separator between them, is well formed but for the
/// one child that it may hold too many.
pub proof fn lemma_absorb_split_wf(
    before: InternalItem,
    after: InternalItem,
    l: TreeNode,
    s: usize,
    r: TreeNode,
    loc: int,
    lo: int,
    hi: int,
    fanout: nat,
)
    requires
        TreeNode::InternalNode(before).wf(lo, hi, fanout),
        0 <= loc < before.data.len(),
        after.index@ == before.index@.insert(loc, s),
        after.data@ == before.data@.update(loc, l).insert(loc + 1, r),
        before.lower(loc, lo) < s < before.upper(loc, hi),
        l.wf(before.lower(loc, lo), s as int, fanout),
        r.wf(s as int, before.upper(loc, hi), fanout),
        l.height() == before.data[loc].height(),
        r.height() == before.data[loc].height(),
        l.occupancy() >= min_fill(fanout),
        r.occupancy() >= min_fill(fanout),
    ensures
        after.wf_within(lo, hi, fanout, fanout + 1, -1),
        after.data.len() == before.data.len() + 1,
        after.data[0].height() == before.data[0].height(),
{
    lemma_route_insert(before.index@, loc, s, s);
    assert(before.data[loc].wf(before.lower(loc, lo), before.upper(loc, hi), fanout));
    assert(before.data[0].wf(before.lower(0, lo), before.upper(0, hi), fanout));
    assert(after.data[0].height() == before.data[0].height()) by {
        if loc == 0 {
            assert(after.data[0] == l);
        } else {
            assert(after.data[0] == before.data[0]);
        }
    }
    assert forall|i: int| 0 <= i < after.index.len() implies lo < #[trigger] after.index[i]
        < hi by {
        if i < loc {
            assert(after.index[i] == before.index[i]);
        } else if i > loc {
            assert(after.index[i] == before.index[i - 1]);
        }
    }
    assert forall|i: int| 0 <= i < after.data.len() implies {
        &&& (#[trigger] after.data[i]).wf(after.lower(i, lo), after.upper(i, hi), fanout)
        &&& after.data[i].occupancy() >= min_fill(fanout)
        &&& after.data[i].height() == after.data[0].height()
    } by {
        if i < loc {
            assert(before.data[i].wf(before.lower(i, lo), before.upper(i, hi), fanout));
            assert(after.data[i] == before.data[i]);
            assert(after.lower(i, lo) == before.lower(i, lo));
            assert(after.upper(i, hi) == before.upper(i, hi));
        } else if i == loc {
            assert(after.data[i] == l);
            assert(after.lower(i, lo) == before.lower(i, lo));
            assert(after.upper(i, hi) == s);
        } else if i == loc + 1 {
            assert(after.data[i] == r);
            assert(after.lower(i, lo) == s);
            assert(after.upper(i, hi) == before.upper(loc, hi));
        } else {
            assert(before.data[i - 1].wf(
                before.lower(i - 1, lo),
                before.upper(i - 1, hi),
                fanout,
            ));
            assert(after.data[i] == before.data[i - 1]);
            assert(after.lower(i, lo) == before.lower(i - 1, lo));
            assert(after.upper(i, hi) == before.upper(i - 1, hi));
        }
    }
}

/// An internal node that takes the two halves of a split child in place of
/// that child answers every search as before, but for the key that was set.
pub proof fn lemma_absorb_split_lookup(
    before: InternalItem,
    after: InternalItem,
    l: TreeNode,
    s: usize,
    r: TreeNode,
    loc: int,
    key: usize,
    val: Seq<char>,
)
    requires
        strictly_sorted(before.index@),
        before.data.len() == before.index.len() + 1,
        loc == route(before.index@, key),
        0 <= loc < before.data.len(),
        loc > 0 ==> before.index[loc - 1] < s,
        loc < before.index.len() ==> s < before.index[loc],
        after.index@ == before.index@.insert(loc, s),
        after.data@ == before.data@.update(loc, l).insert(loc + 1, r),
        forall|k: usize|
            #![trigger l.lookup(k)]
            #![trigger r.lookup(k)]
            (if k < s {
                l.lookup(k)
            } else {
                r.lookup(k)
            }) == (if k == key {
                Some(val)
            } else {
                before.data[loc].lookup(k)
            }),
    ensures
        forall|k: usize| #[trigger]
            TreeNode::InternalNode(after).lookup(k) == (if k == key {
                Some(val)
            } else {
                TreeNode::InternalNode(before).lookup(k)
            }),
{
    let b = TreeNode::InternalNode(before);
    let a = TreeNode::InternalNode(after);
    assert forall|k: usize| #[trigger]
        a.lookup(k) == (if k == key {
            Some(val)
        } else {
            b.lookup(k)
        }) by {
        lemma_route_insert(before.index@, loc, s, k);
        let r0 = route(before.index@, k);
        let r1 = route(after.index@, k);
        assert(a.lookup(k) == after.data[r1].lookup(k));
        assert(b.lookup(k) == before.data[r0].lookup(k));
        if r0 < loc {
            assert(after.data[r1] == before.data[r0]);
        } else if r0 > loc {
            assert(after.data[r1] == before.data[r0]);
        } else if k < s {
            assert(after.data[r1] == l);
            assert(l.lookup(k) == (if k == key {
                Some(val)
            } else {
                before.data[loc].lookup(k)
            }));
        } else {
            assert(after.data[r1] == r);
            assert(r.lookup(k) == (if k == key {
                Some(val)
            } else {
                before.data[loc].lookup(k)
            }));
        }
    }
}

/// Cutting a list of separators at position `m` sends each search to the
/// part on its side of the separator at `m`, which belongs to neither part.
pub proof fn lemma_route_split(seps: Seq<usize>, m: int, k: usize)
    requires
        strictly_sorted(seps),
        0 <= m < seps.len(),
    ensures
        strictly_sorted(seps.subrange(0, m)),
        strictly_sorted(seps.subrange(m + 1, seps.len() as int)),
        k < seps[m] ==> route(seps.subrange(0, m), k) == route(seps, k),
        k >= seps[m] ==> route(seps.subrange(m + 1, seps.len() as int), k) == route(seps, k) - (m
            + 1),
{
    let left = seps.subrange(0, m);
    let right = seps.subrange(m + 1, seps.len() as int);
    lemma_route_is_route(seps, k);
    let r0 = route(seps, k);
    if k < seps[m] {
        assert(r0 <= m) by {
            if r0 > m {
                assert(seps[m] <= k);
            }
        }
        assert(is_route(left, k, r0)) by {
            assert forall|j: int| 0 <= j < r0 implies left[j] <= k by {
                assert(left[j] == seps[j]);
            }
            assert forall|j: int| r0 <= j < left.len() implies left[j] > k by {
                assert(left[j] == seps[j]);
            }
        }
        lemma_route_unique(left, k, r0);
    } else {
        assert(r0 >= m + 1) by {
            if r0 <= m {
                assert(seps[m] > k);
            }
        }
        let r1 = r0 - (m + 1);
        assert(is_route(right, k, r1)) by {
            assert forall|j: int| 0 <= j < r1 implies right[j] <= k by {
                assert(right[j] == seps[j + m + 1]);
            }
            assert forall|j: int| r1 <= j < right.len() implies right[j] > k by {
                assert(right[j] == seps[j + m + 1]);
            }
        }
        lemma_route_unique(right, k, r1);
    }
}

/// The two halves of an internal node that is cut between children `mid - 1`
/// and `mid` are well formed on either side of the separator that stood
/// between those children, and as high as the node was.
pub proof fn lemma_internal_split_wf(
    before: InternalItem,
    left: InternalItem,
    right: InternalItem,
    mid: int,
    lo: int,
    hi: int,
    fanout: nat,
)
    requires
        before.wf_within(lo, hi, fanout, fanout + 1, -1),
        1 <= mid < before.data.len(),
        mid <= fanout,
        before.data.len() - mid <= fanout,
        left.index@ == before.index@.subrange(0, mid - 1),
        left.data@ == before.data@.subrange(0, mid),
        right.index@ == before.index@.subrange(mid, before.index.len() as int),
        right.data@ == before.data@.subrange(mid, before.data.len() as int),
    ensures
        lo < before.index[mid - 1] < hi,
        TreeNode::InternalNode(left).wf(lo, before.index[mid - 1] as int, fanout),
        TreeNode::InternalNode(right).wf(before.index[mid - 1] as int, hi, fanout),
        TreeNode::InternalNode(left).height() == TreeNode::InternalNode(before).height(),
        TreeNode::InternalNode(right).height() == TreeNode::InternalNode(before).height(),
{
    let sep = before.index[mid - 1];
    lemma_route_split(before.index@, mid - 1, sep);
    assert(before.data[0].wf(before.lower(0, lo), before.upper(0, hi), fanout));
    assert(before.data[mid].wf(before.lower(mid, lo), before.upper(mid, hi), fanout));
    assert(left.data[0] == before.data[0]);
    assert(right.data[0] == before.data[mid]);
    assert forall|i: int| 0 <= i < left.index.len() implies lo < #[trigger] left.index[i]
        < sep by {
        assert(left.index[i] == before.index[i]);
        assert(before.index[i] < before.index[mid - 1]);
    }
    assert forall|i: int| 0 <= i < right.index.len() implies sep < #[trigger] right.index[i]
        < hi by {
        assert(right.index[i] == before.index[i + mid]);
        assert(before.index[mid - 1] < before.index[i + mid]);
    }
    assert forall|i: int| 0 <= i < left.data.len() implies {
        &&& (#[trigger] left.data[i]).wf(left.lower(i, lo), left.upper(i, sep as int), fanout)
        &&& left.data[i].occupancy() >= min_fill(fanout)
        &&& left.data[i].height() == left.data[0].height()
    } by {
        assert(before.data[i].wf(before.lower(i, lo), before.upper(i, hi), fanout));
        assert(left.data[i] == before.data[i]);
        assert(left.lower(i, lo) == before.lower(i, lo));
        assert(left.upper(i, sep as int) == before.upper(i, hi));
    }
    assert forall|i: int| 0 <= i < right.data.len() implies {
        &&& (#[trigger] right.data[i]).wf(right.lower(i, sep as int), right.upper(i, hi), fanout)
        &&& right.data[i].occupancy() >= min_fill(fanout)
        &&& right.data[i].height() == right.data[0].height()
    } by {
        assert(before.data[i + mid].wf(
            before.lower(i + mid, lo),
            before.upper(i + mid, hi),
            fanout,
        ));
        assert(right.data[i] == before.data[i + mid]);
        assert(right.lower(i, sep as int) == before.lower(i + mid, lo));
        assert(right.upper(i, hi) == before.upper(i + mid, hi));
    }
}

/// The two halves of an internal node that is cut between children `mid - 1`
/// and `mid` answer between them every search as the node did: the left half
/// below the separator, the right half from the separator on.
pub proof fn lemma_internal_split_lookup(
    before: InternalItem,
    left: InternalItem,
    right: InternalItem,
    mid: int,
)
    requires
        strictly_sorted(before.index@),
        before.data.len() == before.index.len() + 1,
        1 <= mid < before.data.len(),
        left.index@ == before.index@.subrange(0, mid - 1),
        left.data@ == before.data@.subrange(0, mid),
        right.index@ == before.index@.subrange(mid, before.index.len() as int),
        right.data@ == before.data@.subrange(mid, before.data.len() as int),
    ensures
        forall|k: usize|
            #![trigger TreeNode::InternalNode(left).lookup(k)]
            #![trigger TreeNode::InternalNode(right).lookup(k)]
            (if k < before.index[mid - 1] {
                TreeNode::InternalNode(left).lookup(k)
            } else {
                TreeNode::InternalNode(right).lookup(k)
            }) == TreeNode::InternalNode(before).lookup(k),
{
    let b = TreeNode::InternalNode(before);
    let l = TreeNode::InternalNode(left);
    let r = TreeNode::InternalNode(right);
    assert forall|k: usize|
        #![trigger l.lookup(k)]
        #![trigger r.lookup(k)]
        (if k < before.index[mid - 1] {
            l.lookup(k)
        } else {
            r.lookup(k)
        }) == b.lookup(k) by {
        lemma_route_split(before.index@, mid - 1, k);
        lemma_route_is_route(before.index@, k);
        let r0 = route(before.index@, k);
        assert(b.lookup(k) == before.data[r0].lookup(k));
        if k < before.index[mid - 1] {
            assert(route(left.index@, k) == r0);
            assert(left.data[r0] == before.data[r0]);
            assert(l.lookup(k) == left.data[r0].lookup(k));
        } else {
            assert(route(right.index@, k) == r0 - mid);
            assert(right.data[r0 - mid] == before.data[r0]);
            assert(r.lookup(k) == right.data[r0 - mid].lookup(k));
        }
    }
}

/// The outcome `out` holds the two halves of the internal node `grown`, cut
/// between the children before its midpoint and the rest, with the separator
/// that stood between the two groups.
pub open spec fn is_split_of(grown: InternalItem, out: Inserted) -> bool {
    let mid = midpoint(grown.data.len() as nat) as int;
    out matches Inserted::Overflow(TreeNode::InternalNode(a), s, TreeNode::InternalNode(b)) && {
        &&& s == grown.index[mid - 1]
        &&& a.index@ == grown.index@.subrange(0, mid - 1)
        &&& a.data@ == grown.data@.subrange(0, mid)
        &&& b.index@ == grown.index@.subrange(mid, grown.index.len() as int)
        &&& b.data@ == grown.data@.subrange(mid, grown.data.len() as int)
    }
}

/// The node `grown` is `before` with the outcome `res` of an insertion into
/// its child at `loc` in place of that child: the child as it now is, or its
/// two halves with their separator.
pub open spec fn absorbed(before: InternalItem, grown: InternalItem, loc: int, res: Inserted) -> bool {
    match res {
        Inserted::Absorbed(x) => {
            &&& grown.index@ == before.index@
            &&& grown.data@ == before.data@.update(loc, x)
        },
        Inserted::Overflow(l, s, r) => {
            &&& grown.index@ == before.index@.insert(loc, s)
            &&& grown.data@ == before.data@.update(loc, l).insert(loc + 1, r)
        },
    }
}

/// The outcome `out` is what setting `key` to `val` makes of the subtree
/// `before`: an absent subtree becomes a leaf with the one entry; a leaf is
/// set as `leaf_set` says; and an internal node takes in what the insertion
/// makes of the child whose range holds `key`, and is split where it then
/// holds more children than `fanout`.
pub open spec fn inserted(before: TreeNode, out: Inserted, key: usize, val: String, fanout: nat) -> bool
    decreases before,
{
    match before {
        TreeNode::Null => out matches Inserted::Absorbed(TreeNode::LeafNode(l)) && l.index@
            == seq![key] && l.data@ == seq![val],
        TreeNode::LeafNode(item) => leaf_set(item, out, key, val, fanout),
        TreeNode::InternalNode(n) => {
            let loc = route(n.index@, key);
            &&& 0 <= loc < n.data.len()
            &&& exists|res: Inserted, grown: InternalItem|
                {
                    &&& inserted(n.data[loc], res, key, val, fanout)
                    &&& #[trigger] absorbed(n, grown, loc, res)
                    &&& if grown.data.len() <= fanout {
                        out matches Inserted::Absorbed(TreeNode::InternalNode(m)) && same_content(
                            grown,
                            m,
                        )
                    } else {
                        is_split_of(grown, out)
                    }
                }
        },
    }
}

/// Splits an internal node that holds one child more than the fanout allows.
/// The children before the midpoint stay in the left half, the rest go to the
/// right half, and the separator that stood between the two groups moves up.
pub fn split_internal_item(
    mut item: InternalItem,
    fanout: usize,
    Ghost(lo): Ghost<int>,
    Ghost(hi): Ghost<int>,
) -> (out: Inserted)
    requires
        3 <= fanout < usize::MAX,
        item.data.len() == fanout + 1,
        item.wf_within(lo, hi, fanout as nat, (fanout + 1) as nat, -1),
    ensures
        is_split_of(item, out),
        out matches Inserted::Overflow(l, s, r) && {
            &&& s == item.index[midpoint(item.data.len() as nat) - 1]
            &&& lo < s < hi
            &&& l.wf(lo, s as int, fanout as nat)
            &&& r.wf(s as int, hi, fanout as nat)
            &&& l.height() == TreeNode::InternalNode(item).height()
            &&& r.height() == TreeNode::InternalNode(item).height()
            &&& l.occupancy() == fanout + 1 - min_fill(fanout as nat)
            &&& r.occupancy() == min_fill(fanout as nat)
            &&& forall|k: usize|
                #![trigger l.lookup(k)]
                #![trigger r.lookup(k)]
                (if k < s {
                    l.lookup(k)
                } else {
                    r.lookup(k)
                }) == TreeNode::InternalNode(item).lookup(k)
        },
{
    let ghost before = item;
    let mid: usize = item.get_midpoint_idx();
    let right_data = item.data.split_off(mid);
    let right_index = item.index.split_off(mid);
    let mid_idx: usize = item.index.pop().unwrap();
    let right = InternalItem { index: right_index, data: right_data };
    proof {
        assert(item.index@ =~= before.index@.subrange(0, mid - 1));
        lemma_internal_split_wf(before, item, right, mid as int, lo, hi, fanout as nat);
        lemma_internal_split_lookup(before, item, right, mid as int);
    }
    Inserted::Overflow(TreeNode::InternalNode(item), mid_idx, TreeNode::InternalNode(right))
}

/// Sets `index` to `data` below an internal node: descends into the child
/// whose range holds the key, takes in what the child hands back, and splits
/// this node if it now holds more than `fanout` children. The flag says
/// whether the key was new.
#[verifier::rlimit(30)]
pub fn insert_into_internal_item(
    mut internal_item: InternalItem,
    index: usize,
    data: String,
    fanout: usize,
    Ghost(lo): Ghost<int>,
    Ghost(hi): Ghost<int>,
) -> (out: (Inserted, bool))
    requires
        3 <= fanout < usize::MAX,
        TreeNode::InternalNode(internal_item).wf(lo, hi, fanout as nat),
        lo <= index < hi,
    ensures
        insert_post(
            TreeNode::InternalNode(internal_item),
            out.0,
            index,
            data@,
            lo,
            hi,
            fanout as nat,
        ),
        out.1 == (TreeNode::InternalNode(internal_item).lookup(index) is None),
        inserted(TreeNode::InternalNode(internal_item), out.0, index, data, fanout as nat),
    decreases internal_item,
{
    let ghost before = internal_item;
    let loc = internal_item.get_loc(&index);
    proof {
        lemma_route_is_route(before.index@, index);
        assert(before.data[loc as int].wf(
            before.lower(loc as int, lo),
            before.upper(loc as int, hi),
            fanout as nat,
        ));
    }
    let child = internal_item.data.remove(loc);
    let (res, grew) = insert_item(
        child,
        index,
        data,
        fanout,
        Ghost(before.lower(loc as int, lo)),
        Ghost(before.upper(loc as int, hi)),
    );
    match res {
        Inserted::Overflow(l, idx, r) => {
            internal_item.data.insert(loc, l);
            internal_item.data.insert(loc + 1, r);
            internal_item.index.insert(loc, idx);
            proof {
                assert(internal_item.data@ =~= before.data@.update(loc as int, l).insert(
                    loc + 1,
                    r,
                ));
                lemma_absorb_split_wf(
                    before,
                    internal_item,
                    l,
                    idx,
                    r,
                    loc as int,
                    lo,
                    hi,
                    fanout as nat,
                );
                lemma_absorb_split_lookup(
                    before,
                    internal_item,
                    l,
                    idx,
                    r,
                    loc as int,
                    index,
                    data@,
                );
            }
        },
        Inserted::Absorbed(x) => {
            internal_item.data.insert(loc, x);
            proof {
                assert(internal_item.data@ =~= before.data@.update(loc as int, x));
                lemma_absorb(
                    before,
                    internal_item,
                    x,
                    loc as int,
                    index,
                    data@,
                    lo,
                    hi,
                    fanout as nat,
                );
            }
        },
    }
    let ghost grown = internal_item;
    let out = if internal_item.data.len() > fanout {
        split_internal_item(internal_item, fanout, Ghost(lo), Ghost(hi))
    } else {
        Inserted::Absorbed(TreeNode::InternalNode(internal_item))
    };
    proof {
        assert(inserted(before.data[loc as int], res, index, data, fanout as nat));
        assert(absorbed(before, grown, loc as int, res));
    }
    (out, grew)
}

/// Sets `index` to `data` in the subtree `node`, whose range is `[lo, hi)`.
/// An absent subtree becomes a leaf with the one entry.
pub fn insert_item(
    node: TreeNode,
    index: usize,
    data: String,
    fanout: usize,
    Ghost(lo): Ghost<int>,
    Ghost(hi): Ghost<int>,
) -> (out: (Inserted, bool))
    requires
        3 <= fanout < usize::MAX,
        node is Null || node.wf(lo, hi, fanout as nat),
        lo <= index < hi,
    ensures
        insert_post(node, out.0, index, data@, lo, hi, fanout as nat),
        inserted(node, out.0, index, data, fanout as nat),
        out.1 == (node.lookup(index) is None),
    decreases node,
{
    match node {
        TreeNode::Null => {
            let leaf_node = LeafItem::new();
            let out = insert_into_leaf_node(leaf_node, index, data, fanout, Ghost(lo), Ghost(hi));
            proof {
                assert(leaf_node.index@.insert(0, index) =~= seq![index]);
                assert(leaf_node.data@.insert(0, data) =~= seq![data]);
            }
            out
        },
        TreeNode::InternalNode(x) => insert_into_internal_item(
            x,
            index,
            data,
            fanout,
            Ghost(lo),
            Ghost(hi),
        ),
        TreeNode::LeafNode(x) => insert_into_leaf_node(x, index, data, fanout, Ghost(lo), Ghost(hi)),
    }
}

} // verus!
