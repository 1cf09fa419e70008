//! Two neighbouring siblings: what one hands to the other, how two of them
//! merge, and why between them they find what they found before.

use crate::insert::lemma_route_split;
use crate::node::{
    leaf_lookup, lemma_leaf_hit, lemma_leaf_miss, lemma_leaf_none, lemma_route_is_route, min_fill,
    rank, route, ChildType, InternalItem, LeafItem, TreeNode,
};
use crate::ordering::strictly_sorted;
use vstd::prelude::*;

verus! {

/// The lower end of the range of child `i` under separators `index`, in a
/// node whose own range starts at `lo`.
pub open spec fn seq_lower(index: Seq<usize>, i: int, lo: int) -> int {
    if i <= 0 {
        lo
    } else {
        index[i - 1] as int
    }
}

/// The upper end of the range of child `i` under separators `index`, in a
/// node whose own range ends before `hi`.
pub open spec fn seq_upper(index: Seq<usize>, i: int, hi: int) -> int {
    if i >= index.len() {
        hi
    } else {
        index[i] as int
    }
}

/// What `TreeNode::wf` asks of the separators and children of an internal
/// node, whatever their number.
pub open spec fn seq_wf(index: Seq<usize>, data: Seq<TreeNode>, lo: int, hi: int, fanout: nat) -> bool {
    &&& data.len() == index.len() + 1
    &&& strictly_sorted(index)
    &&& forall|i: int| 0 <= i < index.len() ==> lo < #[trigger] index[i] < hi
    &&& forall|i: int|
        0 <= i < data.len() ==> {
            &&& (#[trigger] data[i]).wf(seq_lower(index, i, lo), seq_upper(index, i, hi), fanout)
            &&& data[i].occupancy() >= min_fill(fanout)
            &&& data[i].height() == data[0].height()
        }
}

/// What a search for `key` finds below these separators and children.
pub open spec fn seq_lookup(index: Seq<usize>, data: Seq<TreeNode>, key: usize) -> Option<Seq<char>> {
    let i = route(index, key);
    if 0 <= i < data.len() {
        data[i].lookup(key)
    } else {
        None
    }
}

/// What a search for `key` finds in two neighbouring siblings with the
/// separator `sep` between them.
pub open spec fn pair_lookup(a: TreeNode, sep: usize, b: TreeNode, key: usize) -> Option<Seq<char>> {
    if key < sep {
        a.lookup(key)
    } else {
        b.lookup(key)
    }
}

/// An internal node is well formed exactly if its separators and children
/// are, and it holds no more children than the fanout.
pub proof fn lemma_internal_is_seq(n: InternalItem, lo: int, hi: int, fanout: nat)
    ensures
        TreeNode::InternalNode(n).wf(lo, hi, fanout) <==> seq_wf(n.index@, n.data@, lo, hi, fanout)
            && n.data.len() <= fanout,
        forall|k: usize| #[trigger]
            TreeNode::InternalNode(n).lookup(k) == seq_lookup(n.index@, n.data@, k),
{
    if TreeNode::InternalNode(n).wf(lo, hi, fanout) {
        assert forall|i: int| 0 <= i < n.data@.len() implies {
            &&& (#[trigger] n.data@[i]).wf(
                seq_lower(n.index@, i, lo),
                seq_upper(n.index@, i, hi),
                fanout,
            )
            &&& n.data@[i].occupancy() >= min_fill(fanout)
            &&& n.data@[i].height() == n.data@[0].height()
        } by {
            assert(n.data[i].wf(n.lower(i, lo), n.upper(i, hi), fanout));
        }
    }
    if seq_wf(n.index@, n.data@, lo, hi, fanout) && n.data.len() <= fanout {
        assert forall|i: int| 0 <= i < n.data.len() implies {
            &&& (#[trigger] n.data[i]).wf(n.lower(i, lo), n.upper(i, hi), fanout)
            &&& n.data[i].occupancy() >= min_fill(fanout)
            &&& n.data[i].height() == n.data[0].height()
        } by {
            assert(n.data@[i].wf(
                seq_lower(n.index@, i, lo),
                seq_upper(n.index@, i, hi),
                fanout,
            ));
        }
    }
}

/// Two well-formed runs of children on either side of a separator make one
/// well-formed run.
pub proof fn lemma_seq_concat_wf(
    ai: Seq<usize>,
    ad: Seq<TreeNode>,
    s: usize,
    bi: Seq<usize>,
    bd: Seq<TreeNode>,
    lo: int,
    hi: int,
    fanout: nat,
)
    requires
        seq_wf(ai, ad, lo, s as int, fanout),
        seq_wf(bi, bd, s as int, hi, fanout),
        lo < s < hi,
        ad[0].height() == bd[0].height(),
    ensures
        seq_wf(ai.push(s) + bi, ad + bd, lo, hi, fanout),
{
    let ci = ai.push(s) + bi;
    let cd = ad + bd;
    let m = ai.len() as int;
    assert forall|i: int, j: int| 0 <= i < j < ci.len() implies ci[i] < ci[j] by {
        if j < m {
            assert(ci[i] == ai[i] && ci[j] == ai[j]);
        } else if j == m {
            assert(ci[i] == ai[i] && ci[j] == s);
        } else if i < m {
            assert(ci[i] == ai[i] && ci[j] == bi[j - m - 1]);
        } else if i == m {
            assert(ci[i] == s && ci[j] == bi[j - m - 1]);
        } else {
            assert(ci[i] == bi[i - m - 1] && ci[j] == bi[j - m - 1]);
        }
    }
    assert forall|i: int| 0 <= i < ci.len() implies lo < #[trigger] ci[i] < hi by {
        if i < m {
            assert(ci[i] == ai[i]);
        } else if i > m {
            assert(ci[i] == bi[i - m - 1]);
        }
    }
    assert(cd[0] == ad[0]);
    assert forall|i: int| 0 <= i < cd.len() implies {
        &&& (#[trigger] cd[i]).wf(seq_lower(ci, i, lo), seq_upper(ci, i, hi), fanout)
        &&& cd[i].occupancy() >= min_fill(fanout)
        &&& cd[i].height() == cd[0].height()
    } by {
        if i <= m {
            assert(cd[i] == ad[i]);
            assert(ad[i].wf(seq_lower(ai, i, lo), seq_upper(ai, i, s as int), fanout));
            if i > 0 {
                assert(ci[i - 1] == ai[i - 1]);
            }
            if i < m {
                assert(ci[i] == ai[i]);
            } else {
                assert(ci[i] == s);
            }
        } else {
            let j = i - m - 1;
            assert(cd[i] == bd[j]);
            assert(bd[j].wf(seq_lower(bi, j, s as int), seq_upper(bi, j, hi), fanout));
            assert(bd[0].wf(seq_lower(bi, 0, s as int), seq_upper(bi, 0, hi), fanout));
            if j == 0 {
                assert(ci[i - 1] == s);
            } else {
                assert(ci[i - 1] == bi[j - 1]);
            }
            if i < ci.len() {
                assert(ci[i] == bi[j]);
            }
        }
    }
}

/// A well-formed run of children, cut at the separator at position `m`,
/// gives two well-formed runs on either side of that separator.
pub proof fn lemma_seq_split_wf(
    index: Seq<usize>,
    data: Seq<TreeNode>,
    m: int,
    lo: int,
    hi: int,
    fanout: nat,
)
    requires
        seq_wf(index, data, lo, hi, fanout),
        0 <= m < index.len(),
    ensures
        lo < index[m] < hi,
        seq_wf(index.subrange(0, m), data.subrange(0, m + 1), lo, index[m] as int, fanout),
        seq_wf(
            index.subrange(m + 1, index.len() as int),
            data.subrange(m + 1, data.len() as int),
            index[m] as int,
            hi,
            fanout,
        ),
        data[m + 1].height() == data[0].height(),
{
    let s = index[m];
    let ai = index.subrange(0, m);
    let ad = data.subrange(0, m + 1);
    let bi = index.subrange(m + 1, index.len() as int);
    let bd = data.subrange(m + 1, data.len() as int);
    lemma_route_split(index, m, s);
    assert(data[0].wf(seq_lower(index, 0, lo), seq_upper(index, 0, hi), fanout));
    assert(data[m + 1].wf(seq_lower(index, m + 1, lo), seq_upper(index, m + 1, hi), fanout));
    assert(ad[0] == data[0]);
    assert(bd[0] == data[m + 1]);
    assert forall|i: int| 0 <= i < ai.len() implies lo < #[trigger] ai[i] < s by {
        assert(ai[i] == index[i]);
        assert(index[i] < index[m]);
    }
    assert forall|i: int| 0 <= i < bi.len() implies s < #[trigger] bi[i] < hi by {
        assert(bi[i] == index[i + m + 1]);
        assert(index[m] < index[i + m + 1]);
    }
    assert forall|i: int| 0 <= i < ad.len() implies {
        &&& (#[trigger] ad[i]).wf(seq_lower(ai, i, lo), seq_upper(ai, i, s as int), fanout)
        &&& ad[i].occupancy() >= min_fill(fanout)
        &&& ad[i].height() == ad[0].height()
    } by {
        assert(data[i].wf(seq_lower(index, i, lo), seq_upper(index, i, hi), fanout));
        assert(ad[i] == data[i]);
        if i > 0 {
            assert(ai[i - 1] == index[i - 1]);
        }
        if i < m {
            assert(ai[i] == index[i]);
        }
    }
    assert forall|i: int| 0 <= i < bd.len() implies {
        &&& (#[trigger] bd[i]).wf(seq_lower(bi, i, s as int), seq_upper(bi, i, hi), fanout)
        &&& bd[i].occupancy() >= min_fill(fanout)
        &&& bd[i].height() == bd[0].height()
    } by {
        let j = i + m + 1;
        assert(data[j].wf(seq_lower(index, j, lo), seq_upper(index, j, hi), fanout));
        assert(bd[i] == data[j]);
        if i > 0 {
            assert(bi[i - 1] == index[j - 1]);
        }
        if i < bi.len() {
            assert(bi[i] == index[j]);
        }
    }
}

/// A search below two runs of children joined at a separator goes to the run
/// on its side of the separator.
pub proof fn lemma_seq_concat_lookup(
    ai: Seq<usize>,
    ad: Seq<TreeNode>,
    s: usize,
    bi: Seq<usize>,
    bd: Seq<TreeNode>,
    k: usize,
)
    requires
        strictly_sorted(ai.push(s) + bi),
        ad.len() == ai.len() + 1,
        bd.len() == bi.len() + 1,
    ensures
        seq_lookup(ai.push(s) + bi, ad + bd, k) == (if k < s {
            seq_lookup(ai, ad, k)
        } else {
            seq_lookup(bi, bd, k)
        }),
{
    let ci = ai.push(s) + bi;
    let cd = ad + bd;
    let m = ai.len() as int;
    assert(ci[m] == s);
    assert(ci.subrange(0, m) =~= ai);
    assert(ci.subrange(m + 1, ci.len() as int) =~= bi);
    lemma_route_split(ci, m, k);
    lemma_route_is_route(ci, k);
    let r = route(ci, k);
    if k < s {
        assert(r == route(ai, k));
        assert(cd[r] == ad[r]);
    } else {
        assert(r - (m + 1) == route(bi, k));
        assert(cd[r] == bd[r - (m + 1)]);
    }
}

/// The least number of entries or children of a node other than the root.
pub fn min_fill_of(fanout: usize) -> (min: usize)
    ensures
        min == min_fill(fanout as nat),
{
    fanout / 2 + fanout % 2
}

impl TreeNode {
    /// A leaf has as many payloads as keys, an internal node one child more
    /// than separators.
    pub open spec fn shaped(&self) -> bool {
        match self {
            TreeNode::Null => true,
            TreeNode::LeafNode(l) => l.index.len() == l.data.len(),
            TreeNode::InternalNode(n) => n.data.len() == n.index.len() + 1,
        }
    }

    /// `self` is what `before` becomes when its last entry, or its last
    /// separator and child, is taken away.
    pub open spec fn is_without_last(&self, before: TreeNode) -> bool {
        match (before, *self) {
            (TreeNode::LeafNode(a), TreeNode::LeafNode(b)) => {
                &&& b.index@ == a.index@.drop_last()
                &&& b.data@ == a.data@.drop_last()
            },
            (TreeNode::InternalNode(a), TreeNode::InternalNode(b)) => {
                &&& b.index@ == a.index@.drop_last()
                &&& b.data@ == a.data@.drop_last()
            },
            _ => false,
        }
    }

    /// `self` is what `before` becomes when its first entry, or its first
    /// separator and child, is taken away.
    pub open spec fn is_without_first(&self, before: TreeNode) -> bool {
        match (before, *self) {
            (TreeNode::LeafNode(a), TreeNode::LeafNode(b)) => {
                &&& b.index@ == a.index@.remove(0)
                &&& b.data@ == a.data@.remove(0)
            },
            (TreeNode::InternalNode(a), TreeNode::InternalNode(b)) => {
                &&& b.index@ == a.index@.remove(0)
                &&& b.data@ == a.data@.remove(0)
            },
            _ => false,
        }
    }

    /// `moved` is the last key of the leaf `self` with its payload, or the
    /// last separator of the internal node `self` with its last child.
    pub open spec fn last_is(&self, key: usize, moved: ChildType) -> bool {
        match (*self, moved) {
            (TreeNode::LeafNode(a), ChildType::Data(d)) => {
                &&& a.index.len() > 0
                &&& key == a.index@.last()
                &&& d == a.data@.last()
            },
            (TreeNode::InternalNode(a), ChildType::Node(x)) => {
                &&& a.index.len() > 0
                &&& key == a.index@.last()
                &&& x == a.data@.last()
            },
            _ => false,
        }
    }

    /// `moved` is the first key of the leaf `self` with its payload, or the
    /// first separator of the internal node `self` with its first child.
    pub open spec fn first_is(&self, key: usize, moved: ChildType) -> bool {
        match (*self, moved) {
            (TreeNode::LeafNode(a), ChildType::Data(d)) => {
                &&& a.index.len() > 0
                &&& key == a.index@.first()
                &&& d == a.data@.first()
            },
            (TreeNode::InternalNode(a), ChildType::Node(x)) => {
                &&& a.index.len() > 0
                &&& key == a.index@.first()
                &&& x == a.data@.first()
            },
            _ => false,
        }
    }

    /// The number of entries of a leaf, of children of an internal node.
    pub fn get_index_len(&self) -> (len: usize)
        ensures
            len == self.occupancy(),
    {
        match self {
            TreeNode::Null => 0,
            TreeNode::LeafNode(x) => x.index.len(),
            TreeNode::InternalNode(x) => x.data.len(),
        }
    }

    /// Gives up the last entry or child for the right sibling, if this node
    /// holds more than the minimum; otherwise nothing changes.
    pub fn pass_right(&mut self, fanout: usize) -> (passed: Option<(usize, ChildType)>)
        requires
            3 <= fanout,
            old(self).shaped(),
        ensures
            passed is Some <==> old(self).occupancy() > min_fill(fanout as nat),
            passed is None ==> *final(self) == *old(self),
            passed matches Some((key, moved)) ==> {
                &&& old(self).last_is(key, moved)
                &&& final(self).is_without_last(*old(self))
            },
    {
        let min = min_fill_of(fanout);
        match self {
            TreeNode::Null => None,
            TreeNode::LeafNode(x) => {
                if x.index.len() <= min {
                    None
                } else {
                    let last_idx = x.index.pop().unwrap();
                    let last_data = x.data.pop().unwrap();
                    Some((last_idx, ChildType::Data(last_data)))
                }
            },
            TreeNode::InternalNode(x) => {
                if x.data.len() <= min {
                    None
                } else {
                    let last_idx = x.index.pop().unwrap();
                    let last_data = x.data.pop().unwrap();
                    Some((last_idx, ChildType::Node(last_data)))
                }
            },
        }
    }

    /// Gives up the first entry or child for the left sibling, if this node
    /// holds more than the minimum; otherwise nothing changes.
    pub fn pass_left(&mut self, fanout: usize) -> (passed: Option<(usize, ChildType)>)
        requires
            3 <= fanout,
            old(self).shaped(),
        ensures
            passed is Some <==> old(self).occupancy() > min_fill(fanout as nat),
            passed is None ==> *final(self) == *old(self),
            passed matches Some((key, moved)) ==> {
                &&& old(self).first_is(key, moved)
                &&& final(self).is_without_first(*old(self))
            },
    {
        let min = min_fill_of(fanout);
        match self {
            TreeNode::Null => None,
            TreeNode::LeafNode(x) => {
                if x.index.len() <= min {
                    None
                } else {
                    let first_idx = x.index.remove(0);
                    let first_data = x.data.remove(0);
                    Some((first_idx, ChildType::Data(first_data)))
                }
            },
            TreeNode::InternalNode(x) => {
                if x.data.len() <= min {
                    None
                } else {
                    let first_idx = x.index.remove(0);
                    let first_data = x.data.remove(0);
                    Some((first_idx, ChildType::Node(first_data)))
                }
            },
        }
    }
}

/// A search in two leaves' entries laid end to end goes to the leaf on its
/// side of the separator.
pub proof fn lemma_leaf_concat_lookup(
    ai: Seq<usize>,
    ad: Seq<String>,
    s: usize,
    bi: Seq<usize>,
    bd: Seq<String>,
    k: usize,
)
    requires
        strictly_sorted(ai + bi),
        ad.len() == ai.len(),
        bd.len() == bi.len(),
        forall|j: int| 0 <= j < ai.len() ==> ai[j] < s,
        forall|j: int| 0 <= j < bi.len() ==> bi[j] >= s,
    ensures
        strictly_sorted(ai),
        strictly_sorted(bi),
        leaf_lookup(ai + bi, ad + bd, k) == (if k < s {
            leaf_lookup(ai, ad, k)
        } else {
            leaf_lookup(bi, bd, k)
        }),
{
    let ci = ai + bi;
    let cd = ad + bd;
    let m = ai.len() as int;
    assert(strictly_sorted(ai)) by {
        assert forall|i: int, j: int| 0 <= i < j < ai.len() implies ai[i] < ai[j] by {
            assert(ci[i] == ai[i] && ci[j] == ai[j]);
        }
    }
    assert(strictly_sorted(bi)) by {
        assert forall|i: int, j: int| 0 <= i < j < bi.len() implies bi[i] < bi[j] by {
            assert(ci[i + m] == bi[i] && ci[j + m] == bi[j]);
        }
    }
    if k < s {
        if leaf_lookup(ai, ad, k) is Some {
            let j = rank(ai, k);
            assert(ci[j] == ai[j] && cd[j] == ad[j]);
            lemma_leaf_hit(ci, cd, j);
        } else {
            lemma_leaf_none(ai, ad, k);
            assert forall|j: int| 0 <= j < ci.len() implies ci[j] != k by {
                if j < m {
                    assert(ci[j] == ai[j]);
                } else {
                    assert(ci[j] == bi[j - m]);
                }
            }
            lemma_leaf_miss(ci, cd, k);
        }
    } else {
        if leaf_lookup(bi, bd, k) is Some {
            let j = rank(bi, k);
            assert(ci[j + m] == bi[j] && cd[j + m] == bd[j]);
            lemma_leaf_hit(ci, cd, j + m);
        } else {
            lemma_leaf_none(bi, bd, k);
            assert forall|j: int| 0 <= j < ci.len() implies ci[j] != k by {
                if j < m {
                    assert(ci[j] == ai[j]);
                } else {
                    assert(ci[j] == bi[j - m]);
                }
            }
            lemma_leaf_miss(ci, cd, k);
        }
    }
}

/// The keys of two neighbouring leaves, laid end to end, ascend strictly.
pub proof fn lemma_leaf_pair_sorted(a: LeafItem, s: usize, b: LeafItem, lo: int, hi: int, fanout: nat)
    requires
        a.wf(lo, s as int, fanout),
        b.wf(s as int, hi, fanout),
        lo <= s <= hi,
    ensures
        strictly_sorted(a.index@ + b.index@),
        forall|j: int|
            0 <= j < (a.index@ + b.index@).len() ==> lo <= #[trigger] (a.index@ + b.index@)[j] < hi,
{
    let ci = a.index@ + b.index@;
    let m = a.index@.len() as int;
    assert forall|i: int, j: int| 0 <= i < j < ci.len() implies ci[i] < ci[j] by {
        if j < m {
            assert(ci[i] == a.index[i] && ci[j] == a.index[j]);
        } else if i < m {
            assert(ci[i] == a.index[i] && ci[j] == b.index[j - m]);
        } else {
            assert(ci[i] == b.index[i - m] && ci[j] == b.index[j - m]);
        }
    }
    assert forall|j: int| 0 <= j < ci.len() implies lo <= #[trigger] ci[j] < hi by {
        if j < m {
            assert(ci[j] == a.index[j]);
        } else {
            assert(ci[j] == b.index[j - m]);
        }
    }
}

/// Two neighbouring leaves whose entries, laid end to end, are cut at
/// another place are again two well-formed neighbours, on either side of the
/// first key of the new right one, and every search finds what it found.
pub proof fn lemma_leaf_pair_same(
    a: LeafItem,
    s: usize,
    b: LeafItem,
    a2: LeafItem,
    s2: usize,
    b2: LeafItem,
    lo: int,
    hi: int,
    fanout: nat,
)
    requires
        a.wf(lo, s as int, fanout),
        b.wf(s as int, hi, fanout),
        lo <= s <= hi,
        a2.index@ + b2.index@ == a.index@ + b.index@,
        a2.data@ + b2.data@ == a.data@ + b.data@,
        a2.index.len() == a2.data.len(),
        b2.index.len() == b2.data.len(),
        0 < a2.index.len() <= fanout,
        0 < b2.index.len() <= fanout,
        s2 == b2.index[0],
    ensures
        lo < s2 < hi,
        a2.wf(lo, s2 as int, fanout),
        b2.wf(s2 as int, hi, fanout),
        forall|k: usize|
            pair_lookup(TreeNode::LeafNode(a2), s2, TreeNode::LeafNode(b2), k) == pair_lookup(
                TreeNode::LeafNode(a),
                s,
                TreeNode::LeafNode(b),
                k,
            ),
{
    let ci = a.index@ + b.index@;
    let m = a2.index@.len() as int;
    lemma_leaf_pair_sorted(a, s, b, lo, hi, fanout);
    assert(ci[m] == b2.index[0]);
    assert(ci[0] < ci[m]);
    assert forall|j: int| 0 <= j < a2.index.len() implies a2.index[j] < s2 && lo <= a2.index[j] by {
        assert(ci[j] == a2.index[j]);
        assert(ci[j] < ci[m]);
    }
    assert forall|j: int| 0 <= j < b2.index.len() implies b2.index[j] >= s2 && b2.index[j] < hi by {
        assert(ci[j + m] == b2.index[j]);
        if j > 0 {
            assert(ci[m] < ci[j + m]);
        }
    }
    assert forall|k: usize|
        pair_lookup(TreeNode::LeafNode(a2), s2, TreeNode::LeafNode(b2), k) == pair_lookup(
            TreeNode::LeafNode(a),
            s,
            TreeNode::LeafNode(b),
            k,
        ) by {
        lemma_leaf_concat_lookup(a.index@, a.data@, s, b.index@, b.data@, k);
        lemma_leaf_concat_lookup(a2.index@, a2.data@, s2, b2.index@, b2.data@, k);
    }
    lemma_leaf_concat_lookup(a2.index@, a2.data@, s2, b2.index@, b2.data@, s2);
}

/// The leaf that holds the entries of two neighbouring leaves, laid end to
/// end, is well formed over both their ranges and finds what they found.
pub proof fn lemma_leaf_merge(
    a: LeafItem,
    s: usize,
    b: LeafItem,
    m: LeafItem,
    lo: int,
    hi: int,
    fanout: nat,
)
    requires
        a.wf(lo, s as int, fanout),
        b.wf(s as int, hi, fanout),
        lo <= s <= hi,
        m.index@ == a.index@ + b.index@,
        m.data@ == a.data@ + b.data@,
        m.index.len() <= fanout,
    ensures
        m.wf(lo, hi, fanout),
        forall|k: usize| #[trigger]
            TreeNode::LeafNode(m).lookup(k) == pair_lookup(
                TreeNode::LeafNode(a),
                s,
                TreeNode::LeafNode(b),
                k,
            ),
{
    lemma_leaf_pair_sorted(a, s, b, lo, hi, fanout);
    assert forall|k: usize| #[trigger]
        TreeNode::LeafNode(m).lookup(k) == pair_lookup(
            TreeNode::LeafNode(a),
            s,
            TreeNode::LeafNode(b),
            k,
        ) by {
        lemma_leaf_concat_lookup(a.index@, a.data@, s, b.index@, b.data@, k);
    }
}

/// Two neighbouring internal nodes whose children, laid end to end with the
/// separator between them, are cut at another separator are again two
/// well-formed neighbours, and every search finds what it found.
pub proof fn lemma_internal_pair_same(
    a: InternalItem,
    s: usize,
    b: InternalItem,
    a2: InternalItem,
    s2: usize,
    b2: InternalItem,
    lo: int,
    hi: int,
    fanout: nat,
)
    requires
        TreeNode::InternalNode(a).wf(lo, s as int, fanout),
        TreeNode::InternalNode(b).wf(s as int, hi, fanout),
        lo < s < hi,
        a.data[0].height() == b.data[0].height(),
        a2.index@.push(s2) + b2.index@ == a.index@.push(s) + b.index@,
        a2.data@ + b2.data@ == a.data@ + b.data@,
        a2.data.len() == a2.index.len() + 1,
        b2.data.len() == b2.index.len() + 1,
        a2.data.len() <= fanout,
        b2.data.len() <= fanout,
    ensures
        lo < s2 < hi,
        TreeNode::InternalNode(a2).wf(lo, s2 as int, fanout),
        TreeNode::InternalNode(b2).wf(s2 as int, hi, fanout),
        a2.data[0].height() == a.data[0].height(),
        b2.data[0].height() == a.data[0].height(),
        forall|k: usize|
            pair_lookup(TreeNode::InternalNode(a2), s2, TreeNode::InternalNode(b2), k)
                == pair_lookup(TreeNode::InternalNode(a), s, TreeNode::InternalNode(b), k),
{
    let ci = a.index@.push(s) + b.index@;
    let cd = a.data@ + b.data@;
    let m = a2.index@.len() as int;
    lemma_internal_is_seq(a, lo, s as int, fanout);
    lemma_internal_is_seq(b, s as int, hi, fanout);
    lemma_seq_concat_wf(a.index@, a.data@, s, b.index@, b.data@, lo, hi, fanout);
    assert(ci[m] == s2);
    assert(ci.subrange(0, m) =~= a2.index@);
    assert(ci.subrange(m + 1, ci.len() as int) =~= b2.index@);
    assert(cd.subrange(0, m + 1) =~= a2.data@);
    assert(cd.subrange(m + 1, cd.len() as int) =~= b2.data@);
    lemma_seq_split_wf(ci, cd, m, lo, hi, fanout);
    lemma_internal_is_seq(a2, lo, s2 as int, fanout);
    lemma_internal_is_seq(b2, s2 as int, hi, fanout);
    assert(cd[0] == a.data[0]);
    assert(cd[0] == a2.data[0]);
    assert(cd[m + 1] == b2.data[0]);
    assert forall|k: usize|
        pair_lookup(TreeNode::InternalNode(a2), s2, TreeNode::InternalNode(b2), k) == pair_lookup(
            TreeNode::InternalNode(a),
            s,
            TreeNode::InternalNode(b),
            k,
        ) by {
        lemma_seq_concat_lookup(a.index@, a.data@, s, b.index@, b.data@, k);
        lemma_seq_concat_lookup(a2.index@, a2.data@, s2, b2.index@, b2.data@, k);
    }
}

/// The internal node that holds the children of two neighbouring internal
/// nodes, laid end to end with the separator between them, is well formed
/// over both their ranges and finds what they found.
pub proof fn lemma_internal_merge(
    a: InternalItem,
    s: usize,
    b: InternalItem,
    m: InternalItem,
    lo: int,
    hi: int,
    fanout: nat,
)
    requires
        TreeNode::InternalNode(a).wf(lo, s as int, fanout),
        TreeNode::InternalNode(b).wf(s as int, hi, fanout),
        lo < s < hi,
        a.data[0].height() == b.data[0].height(),
        m.index@ == a.index@.push(s) + b.index@,
        m.data@ == a.data@ + b.data@,
        m.data.len() <= fanout,
    ensures
        TreeNode::InternalNode(m).wf(lo, hi, fanout),
        m.data[0].height() == a.data[0].height(),
        forall|k: usize| #[trigger]
            TreeNode::InternalNode(m).lookup(k) == pair_lookup(
                TreeNode::InternalNode(a),
                s,
                TreeNode::InternalNode(b),
                k,
            ),
{
    lemma_internal_is_seq(a, lo, s as int, fanout);
    lemma_internal_is_seq(b, s as int, hi, fanout);
    lemma_seq_concat_wf(a.index@, a.data@, s, b.index@, b.data@, lo, hi, fanout);
    lemma_internal_is_seq(m, lo, hi, fanout);
    assert(m.data@[0] == a.data[0]);
    assert forall|k: usize| #[trigger]
        TreeNode::InternalNode(m).lookup(k) == pair_lookup(
            TreeNode::InternalNode(a),
            s,
            TreeNode::InternalNode(b),
            k,
        ) by {
        lemma_seq_concat_lookup(a.index@, a.data@, s, b.index@, b.data@, k);
    }
}

/// A well-formed node has at least one level.
pub proof fn lemma_height_positive(a: TreeNode, lo: int, hi: int, fanout: nat)
    requires
        a.wf(lo, hi, fanout),
    ensures
        a.height() >= 1,
{
}

/// A well-formed internal node has at least two levels.
pub proof fn lemma_internal_height(n: InternalItem, lo: int, hi: int, fanout: nat)
    requires
        TreeNode::InternalNode(n).wf(lo, hi, fanout),
    ensures
        TreeNode::InternalNode(n).height() >= 2,
{
    assert(n.data[0].wf(n.lower(0, lo), n.upper(0, hi), fanout));
    lemma_height_positive(n.data[0], n.lower(0, lo), n.upper(0, hi), fanout);
}

/// Two well-formed nodes of one height are of one kind.
pub proof fn lemma_same_kind(a: TreeNode, b: TreeNode, lo: int, mid: int, hi: int, fanout: nat)
    requires
        a.wf(lo, mid, fanout),
        b.wf(mid, hi, fanout),
        a.height() == b.height(),
    ensures
        (a is LeafNode && b is LeafNode) || (a is InternalNode && b is InternalNode),
{
    match a {
        TreeNode::InternalNode(n) => {
            assert(n.data[0].wf(n.lower(0, lo), n.upper(0, mid), fanout));
            lemma_height_positive(n.data[0], n.lower(0, lo), n.upper(0, mid), fanout);
        },
        _ => {},
    }
    match b {
        TreeNode::InternalNode(n) => {
            assert(n.data[0].wf(n.lower(0, mid), n.upper(0, hi), fanout));
            lemma_height_positive(n.data[0], n.lower(0, mid), n.upper(0, hi), fanout);
        },
        _ => {},
    }
}

/// The siblings `a2` and `b2` hold between them, in the same order, what the
/// siblings `a` and `b` held, and `s2` parts them as `s` parted `a` and `b`:
/// for leaves it is the first key of `b2`, for internal nodes the separator
/// that stands between the children of `a2` and those of `b2`.
pub open spec fn pair_same_entries(
    a: TreeNode,
    s: usize,
    b: TreeNode,
    a2: TreeNode,
    s2: usize,
    b2: TreeNode,
) -> bool {
    match (a, b, a2, b2) {
        (
            TreeNode::LeafNode(a),
            TreeNode::LeafNode(b),
            TreeNode::LeafNode(a2),
            TreeNode::LeafNode(b2),
        ) => {
            &&& a2.index@ + b2.index@ == a.index@ + b.index@
            &&& a2.data@ + b2.data@ == a.data@ + b.data@
            &&& a2.index.len() == a2.data.len()
            &&& b2.index.len() == b2.data.len()
            &&& a2.index.len() > 0
            &&& b2.index.len() > 0
            &&& s2 == b2.index[0]
        },
        (
            TreeNode::InternalNode(a),
            TreeNode::InternalNode(b),
            TreeNode::InternalNode(a2),
            TreeNode::InternalNode(b2),
        ) => {
            &&& a2.index@.push(s2) + b2.index@ == a.index@.push(s) + b.index@
            &&& a2.data@ + b2.data@ == a.data@ + b.data@
            &&& a2.data.len() == a2.index.len() + 1
            &&& b2.data.len() == b2.index.len() + 1
        },
        _ => false,
    }
}

/// The node `m` holds, in order, what the siblings `a` and `b` held, and for
/// internal nodes the separator `s` between the two groups of children.
pub open spec fn is_merge_of(m: TreeNode, a: TreeNode, s: usize, b: TreeNode) -> bool {
    match (a, b, m) {
        (TreeNode::LeafNode(a), TreeNode::LeafNode(b), TreeNode::LeafNode(m)) => {
            &&& m.index@ == a.index@ + b.index@
            &&& m.data@ == a.data@ + b.data@
        },
        (TreeNode::InternalNode(a), TreeNode::InternalNode(b), TreeNode::InternalNode(m)) => {
            &&& m.index@ == a.index@.push(s) + b.index@
            &&& m.data@ == a.data@ + b.data@
        },
        _ => false,
    }
}

/// Two neighbouring siblings that hand entries or children to each other
/// stay well formed, on either side of the new separator, keep their height,
/// and find between them what they found.
pub proof fn lemma_pair_same(
    a: TreeNode,
    s: usize,
    b: TreeNode,
    a2: TreeNode,
    s2: usize,
    b2: TreeNode,
    lo: int,
    hi: int,
    fanout: nat,
)
    requires
        a.wf(lo, s as int, fanout),
        b.wf(s as int, hi, fanout),
        lo < s < hi,
        a.height() == b.height(),
        pair_same_entries(a, s, b, a2, s2, b2),
        a2.occupancy() <= fanout,
        b2.occupancy() <= fanout,
    ensures
        lo < s2 < hi,
        a2.wf(lo, s2 as int, fanout),
        b2.wf(s2 as int, hi, fanout),
        a2.height() == a.height(),
        b2.height() == a.height(),
        forall|k: usize| pair_lookup(a2, s2, b2, k) == pair_lookup(a, s, b, k),
{
    match (a, b, a2, b2) {
        (
            TreeNode::LeafNode(la),
            TreeNode::LeafNode(lb),
            TreeNode::LeafNode(la2),
            TreeNode::LeafNode(lb2),
        ) => {
            lemma_leaf_pair_same(la, s, lb, la2, s2, lb2, lo, hi, fanout);
        },
        (
            TreeNode::InternalNode(na),
            TreeNode::InternalNode(nb),
            TreeNode::InternalNode(na2),
            TreeNode::InternalNode(nb2),
        ) => {
            lemma_internal_pair_same(na, s, nb, na2, s2, nb2, lo, hi, fanout);
        },
        _ => {},
    }
}

/// The node into which two neighbouring siblings merge is well formed over
/// both their ranges, as high as they were, and finds what they found.
pub proof fn lemma_merge(
    a: TreeNode,
    s: usize,
    b: TreeNode,
    m: TreeNode,
    lo: int,
    hi: int,
    fanout: nat,
)
    requires
        a.wf(lo, s as int, fanout),
        b.wf(s as int, hi, fanout),
        lo < s < hi,
        a.height() == b.height(),
        is_merge_of(m, a, s, b),
        m.occupancy() <= fanout,
    ensures
        m.wf(lo, hi, fanout),
        m.height() == a.height(),
        m.occupancy() == a.occupancy() + b.occupancy(),
        forall|k: usize| #[trigger] m.lookup(k) == pair_lookup(a, s, b, k),
{
    match (a, b, m) {
        (TreeNode::LeafNode(la), TreeNode::LeafNode(lb), TreeNode::LeafNode(lm)) => {
            lemma_leaf_merge(la, s, lb, lm, lo, hi, fanout);
        },
        (TreeNode::InternalNode(na), TreeNode::InternalNode(nb), TreeNode::InternalNode(nm)) => {
            lemma_internal_merge(na, s, nb, nm, lo, hi, fanout);
        },
        _ => {},
    }
}

impl TreeNode {
    /// Takes in, as its first, what the left sibling gave up. A leaf takes
    /// the key with its payload; an internal node takes the child, with the
    /// separator `sep` that stood between the two siblings before it.
    pub fn take_from_left(&mut self, key: usize, moved: ChildType, sep: usize)
        requires
            (*old(self) is LeafNode && moved is Data) || (*old(self) is InternalNode
                && moved is Node),
        ensures
            match (*old(self), *final(self), moved) {
                (TreeNode::LeafNode(a), TreeNode::LeafNode(b), ChildType::Data(d)) => {
                    &&& b.index@ == a.index@.insert(0, key)
                    &&& b.data@ == a.data@.insert(0, d)
                },
                (TreeNode::InternalNode(a), TreeNode::InternalNode(b), ChildType::Node(x)) => {
                    &&& b.index@ == a.index@.insert(0, sep)
                    &&& b.data@ == a.data@.insert(0, x)
                },
                _ => false,
            },
    {
        match self {
            TreeNode::LeafNode(node) => {
                if let ChildType::Data(d) = moved {
                    node.index.insert(0, key);
                    node.data.insert(0, d);
                }
            },
            TreeNode::InternalNode(node) => {
                if let ChildType::Node(x) = moved {
                    node.index.insert(0, sep);
                    node.data.insert(0, x);
                }
            },
            TreeNode::Null => {},
        }
    }

    /// Takes in, as its last, what the right sibling gave up. A leaf takes
    /// the key with its payload; an internal node takes the child, with the
    /// separator `sep` that stood between the two siblings before it.
    pub fn take_from_right(&mut self, key: usize, moved: ChildType, sep: usize)
        requires
            (*old(self) is LeafNode && moved is Data) || (*old(self) is InternalNode
                && moved is Node),
        ensures
            match (*old(self), *final(self), moved) {
                (TreeNode::LeafNode(a), TreeNode::LeafNode(b), ChildType::Data(d)) => {
                    &&& b.index@ == a.index@.push(key)
                    &&& b.data@ == a.data@.push(d)
                },
                (TreeNode::InternalNode(a), TreeNode::InternalNode(b), ChildType::Node(x)) => {
                    &&& b.index@ == a.index@.push(sep)
                    &&& b.data@ == a.data@.push(x)
                },
                _ => false,
            },
    {
        match self {
            TreeNode::LeafNode(node) => {
                if let ChildType::Data(d) = moved {
                    node.index.push(key);
                    node.data.push(d);
                }
            },
            TreeNode::InternalNode(node) => {
                if let ChildType::Node(x) = moved {
                    node.index.push(sep);
                    node.data.push(x);
                }
            },
            TreeNode::Null => {},
        }
    }

    /// Absorbs the right sibling `node`: its entries or children come behind
    /// this node's own, for internal nodes with the separator `sep` between.
    pub fn merge_from_right(&mut self, node: TreeNode, sep: usize)
        requires
            (*old(self) is LeafNode && node is LeafNode) || (*old(self) is InternalNode
                && node is InternalNode),
        ensures
            is_merge_of(*final(self), *old(self), sep, node),
    {
        match (self, node) {
            (TreeNode::LeafNode(left), TreeNode::LeafNode(mut right)) => {
                left.index.append(&mut right.index);
                left.data.append(&mut right.data);
            },
            (TreeNode::InternalNode(left), TreeNode::InternalNode(mut right)) => {
                left.index.push(sep);
                left.index.append(&mut right.index);
                left.data.append(&mut right.data);
            },
            (_, _) => {},
        }
    }

    /// Absorbs the left sibling `node`: its entries or children come before
    /// this node's own, for internal nodes with the separator `sep` between.
    pub fn merge_from_left(&mut self, node: TreeNode, sep: usize)
        requires
            (*old(self) is LeafNode && node is LeafNode) || (*old(self) is InternalNode
                && node is InternalNode),
        ensures
            is_merge_of(*final(self), node, sep, *old(self)),
    {
        match (node, self) {
            (TreeNode::LeafNode(mut left), TreeNode::LeafNode(right)) => {
                left.index.append(&mut right.index);
                left.data.append(&mut right.data);
                right.index = left.index;
                right.data = left.data;
            },
            (TreeNode::InternalNode(mut left), TreeNode::InternalNode(right)) => {
                left.index.push(sep);
                left.index.append(&mut right.index);
                left.data.append(&mut right.data);
                right.index = left.index;
                right.data = left.data;
            },
            (_, _) => {},
        }
    }
}

/// Moves the last entry or child of `left` to the front of `child`, if
/// `left` holds more than the minimum, and returns the separator that now
/// stands between the two. Otherwise nothing changes.
pub fn borrow_from_left(left: &mut TreeNode, sep: usize, child: &mut TreeNode, fanout: usize) -> (new_sep:
    Option<usize>)
    requires
        3 <= fanout,
        old(left).shaped(),
        old(child).shaped(),
        (*old(left) is LeafNode && *old(child) is LeafNode) || (*old(left) is InternalNode
            && *old(child) is InternalNode),
    ensures
        new_sep is Some <==> old(left).occupancy() > min_fill(fanout as nat),
        new_sep is None ==> *final(left) == *old(left) && *final(child) == *old(child),
        new_sep matches Some(s2) ==> {
            &&& pair_same_entries(*old(left), sep, *old(child), *final(left), s2, *final(child))
            &&& final(left).occupancy() == old(left).occupancy() - 1
            &&& final(child).occupancy() == old(child).occupancy() + 1
        },
{
    match left.pass_right(fanout) {
        Some((key, moved)) => {
            child.take_from_left(key, moved, sep);
            proof {
                let ghost now = (*old(left), *old(child), *left, *child);
                match now {
                    (
                        TreeNode::LeafNode(a),
                        TreeNode::LeafNode(b),
                        TreeNode::LeafNode(a2),
                        TreeNode::LeafNode(b2),
                    ) => {
                        assert(a2.index@ + b2.index@ =~= a.index@ + b.index@);
                        assert(a2.data@ + b2.data@ =~= a.data@ + b.data@);
                    },
                    (
                        TreeNode::InternalNode(a),
                        TreeNode::InternalNode(b),
                        TreeNode::InternalNode(a2),
                        TreeNode::InternalNode(b2),
                    ) => {
                        assert(a2.index@.push(key) + b2.index@ =~= a.index@.push(sep) + b.index@);
                        assert(a2.data@ + b2.data@ =~= a.data@ + b.data@);
                    },
                    _ => {},
                }
            }
            Some(key)
        },
        None => None,
    }
}

/// Moves the first entry or child of `right` to the end of `child`, if
/// `right` holds more than the minimum, and returns the separator that now
/// stands between the two. Otherwise nothing changes.
pub fn borrow_from_right(child: &mut TreeNode, sep: usize, right: &mut TreeNode, fanout: usize) -> (new_sep:
    Option<usize>)
    requires
        3 <= fanout,
        old(right).shaped(),
        old(child).shaped(),
        (*old(right) is LeafNode && *old(child) is LeafNode) || (*old(right) is InternalNode
            && *old(child) is InternalNode),
    ensures
        new_sep is Some <==> old(right).occupancy() > min_fill(fanout as nat),
        new_sep is None ==> *final(right) == *old(right) && *final(child) == *old(child),
        new_sep matches Some(s2) ==> {
            &&& pair_same_entries(*old(child), sep, *old(right), *final(child), s2, *final(right))
            &&& final(right).occupancy() == old(right).occupancy() - 1
            &&& final(child).occupancy() == old(child).occupancy() + 1
        },
{
    match right.pass_left(fanout) {
        Some((key, moved)) => {
            child.take_from_right(key, moved, sep);
            let s2 = match right {
                TreeNode::LeafNode(r) => r.index[0],
                _ => key,
            };
            proof {
                let ghost now = (*old(child), *old(right), *child, *right);
                match now {
                    (
                        TreeNode::LeafNode(a),
                        TreeNode::LeafNode(b),
                        TreeNode::LeafNode(a2),
                        TreeNode::LeafNode(b2),
                    ) => {
                        assert(a2.index@ + b2.index@ =~= a.index@ + b.index@);
                        assert(a2.data@ + b2.data@ =~= a.data@ + b.data@);
                    },
                    (
                        TreeNode::InternalNode(a),
                        TreeNode::InternalNode(b),
                        TreeNode::InternalNode(a2),
                        TreeNode::InternalNode(b2),
                    ) => {
                        assert(a2.index@.push(key) + b2.index@ =~= a.index@.push(sep) + b.index@);
                        assert(a2.data@ + b2.data@ =~= a.data@ + b.data@);
                    },
                    _ => {},
                }
            }
            Some(s2)
        },
        None => None,
    }
}

} // verus!
