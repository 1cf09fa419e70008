//! The index itself: a B+-tree that owns its root and keeps count and depth.

use crate::delete::{delete_item, removed};
use crate::inorder::{lemma_height_below_width, lemma_inorder};
use crate::insert::{insert_item, inserted, Inserted};
use crate::node::{is_route, lemma_route_unique, min_fill, payloads, InternalItem, TreeNode};
use crate::ordering::strictly_sorted;
use crate::siblings::{lemma_height_positive, lemma_internal_height};
use vstd::prelude::*;

verus! {

/// The fanout of a tree made by `BTree::new`.
pub const ELEMENTS_PER_PAGE: usize = 4;

/// The end of the key range of a whole tree: one past the greatest key.
pub open spec fn key_space_end() -> int {
    usize::MAX + 1
}

/// What the subtree `root` holds, as a map from key to payload.
pub open spec fn contents(root: TreeNode) -> Map<usize, Seq<char>> {
    Map::new(|k: usize| root.lookup(k) is Some, |k: usize| root.lookup(k).unwrap())
}

/// An ordered index from integer keys to string payloads.
pub struct BTree {
    root: TreeNode,
    num_elements: usize,
    max_depth: usize,
    fanout: usize,
}

impl View for BTree {
    type V = Map<usize, Seq<char>>;

    /// The index as a map from key to payload.
    closed spec fn view(&self) -> Map<usize, Seq<char>> {
        contents(self.root)
    }
}

/// A root that came out of an insertion or a removal may stand at the top of
/// a tree: a leaf with an entry, or an internal node with two children.
pub open spec fn fit_for_root(root: TreeNode, fanout: nat) -> bool {
    root is Null || {
        &&& root.wf(0, key_space_end(), fanout)
        &&& root.occupancy() >= (if root is InternalNode {
            2nat
        } else {
            1nat
        })
    }
}

/// The keys of a root that is fit to stand at the top of a tree are the keys
/// of the map it holds, each once, so there are as many entries as keys.
pub proof fn lemma_count(root: TreeNode, fanout: nat)
    requires
        fit_for_root(root, fanout),
    ensures
        contents(root).dom().finite(),
        contents(root).dom().len() == root.keys().len(),
        contents(root).dom() == root.keys().to_set(),
        root.keys().no_duplicates(),
        strictly_sorted(root.keys()),
        root.keys().len() == root.values().len(),
        forall|j: int|
            0 <= j < root.keys().len() ==> contents(root).contains_key(#[trigger] root.keys()[j])
                && contents(root)[root.keys()[j]] == root.values()[j],
{
    let ks = root.keys();
    if !(root is Null) {
        lemma_inorder(root, 0, key_space_end(), fanout);
    }
    assert forall|i: int, j: int| 0 <= i < ks.len() && 0 <= j < ks.len() && i != j implies ks[i]
        != ks[j] by {
        if i < j {
            assert(ks[i] < ks[j]);
        } else {
            assert(ks[j] < ks[i]);
        }
    }
    assert(contents(root).dom() =~= ks.to_set()) by {
        assert forall|k: usize| contents(root).dom().contains(k) implies ks.to_set().contains(
            k,
        ) by {
            assert(root.lookup(k) is Some);
            assert(ks.contains(k));
        }
        assert forall|k: usize| ks.to_set().contains(k) implies contents(root).dom().contains(
            k,
        ) by {
            let j = choose|j: int| 0 <= j < ks.len() && ks[j] == k;
            assert(root.lookup(ks[j]) is Some);
        }
    }
    ks.unique_seq_to_set();
    assert forall|j: int| 0 <= j < ks.len() implies contents(root).contains_key(#[trigger] ks[j])
        && contents(root)[ks[j]] == root.values()[j] by {
        assert(root.lookup(ks[j]) == Some(root.values()[j]));
    }
}

/// Two halves of a split root, under a new root with the one separator.
pub proof fn lemma_new_root(
    root: InternalItem,
    l: TreeNode,
    s: usize,
    r: TreeNode,
    fanout: nat,
)
    requires
        3 <= fanout,
        root.index@ == seq![s],
        root.data@ == seq![l, r],
        0 < s < key_space_end(),
        l.wf(0, s as int, fanout),
        r.wf(s as int, key_space_end(), fanout),
        l.height() == r.height(),
        l.occupancy() >= min_fill(fanout),
        r.occupancy() >= min_fill(fanout),
    ensures
        fit_for_root(TreeNode::InternalNode(root), fanout),
        TreeNode::InternalNode(root).height() == l.height() + 1,
        forall|k: usize| #[trigger]
            TreeNode::InternalNode(root).lookup(k) == (if k < s {
                l.lookup(k)
            } else {
                r.lookup(k)
            }),
{
    let node = TreeNode::InternalNode(root);
    assert(root.data[0] == l);
    assert(root.data[1] == r);
    assert forall|k: usize| #[trigger]
        node.lookup(k) == (if k < s {
            l.lookup(k)
        } else {
            r.lookup(k)
        }) by {
        let i: int = if k < s {
            0
        } else {
            1
        };
        assert(is_route(root.index@, k, i));
        lemma_route_unique(root.index@, k, i);
    }
}

/// The root that a removal leaves: an internal node that is left with one
/// child gives way to that child.
pub open spec fn collapsed(rest: TreeNode) -> TreeNode {
    match rest {
        TreeNode::InternalNode(n) => if n.data.len() == 1 {
            n.data[0]
        } else {
            rest
        },
        _ => rest,
    }
}

/// The root `after` is what setting `key` to `val` makes of the root
/// `before`: what the insertion hands back, and where that is two halves, a
/// new internal node above them with the one separator.
pub open spec fn root_after_set(
    before: TreeNode,
    after: TreeNode,
    key: usize,
    val: String,
    fanout: nat,
) -> bool {
    exists|res: Inserted| #[trigger]
        inserted(before, res, key, val, fanout) && match res {
            Inserted::Absorbed(x) => after == x,
            Inserted::Overflow(l, s, r) => after matches TreeNode::InternalNode(n) && n.index@
                == seq![s] && n.data@ == seq![l, r],
        }
}

/// The root `after` is what removing `key` makes of the root `before`: what
/// the removal leaves, with a root of one child giving way to that child.
pub open spec fn root_after_remove(before: TreeNode, after: TreeNode, key: usize, fanout: nat) -> bool {
    exists|rest: TreeNode| #[trigger] removed(before, rest, key, fanout) && after == collapsed(rest)
}

/// The root after a removal: an internal node that is left with one child
/// gives way to that child.
pub fn collapse_root(node: TreeNode, Ghost(fanout): Ghost<nat>) -> (root: TreeNode)
    requires
        3 <= fanout,
        node is Null || (node.wf(0, key_space_end(), fanout) && node.occupancy() >= 1),
    ensures
        root == collapsed(node),
        fit_for_root(root, fanout),
        forall|k: usize| #[trigger] root.lookup(k) == node.lookup(k),
        root.height() == (if node is InternalNode && node.occupancy() == 1 {
            (node.height() - 1) as nat
        } else {
            node.height()
        }),
{
    match node {
        TreeNode::InternalNode(mut x) => {
            if x.data.len() == 1 {
                let ghost before = x;
                let child = x.data.pop().unwrap();
                proof {
                    assert(before.data[0].wf(
                        before.lower(0, 0),
                        before.upper(0, key_space_end()),
                        fanout,
                    ));
                    assert forall|k: usize| #[trigger]
                        child.lookup(k) == TreeNode::InternalNode(before).lookup(k) by {
                        assert(is_route(before.index@, k, 0));
                        lemma_route_unique(before.index@, k, 0);
                    }
                }
                child
            } else {
                TreeNode::InternalNode(x)
            }
        },
        other => other,
    }
}

impl BTree {
    /// The number of entries or children that a node of this tree may hold.
    pub closed spec fn fanout(&self) -> nat {
        self.fanout as nat
    }

    /// The root of the tree; `Null` while the tree is empty.
    pub closed spec fn root_node(&self) -> TreeNode {
        self.root
    }

    /// The number of levels of the tree: 0 while it is empty, 1 while its
    /// root is a leaf.
    pub closed spec fn depth(&self) -> nat {
        self.root.height()
    }

    /// The keys of the tree, leaf by leaf from left to right.
    pub closed spec fn keys(&self) -> Seq<usize> {
        self.root.keys()
    }

    /// The tree is a B+-tree over all keys: its root is fit to stand at the
    /// top, and the count and the depth that it keeps are those of its nodes.
    pub closed spec fn wf(&self) -> bool {
        &&& 3 <= self.fanout < usize::MAX
        &&& fit_for_root(self.root, self.fanout as nat)
        &&& self.num_elements == self.root.keys().len()
        &&& self.max_depth == self.root.height()
    }

    /// An empty tree with the fanout `ELEMENTS_PER_PAGE`.
    pub fn new() -> (tree: BTree)
        ensures
            tree.wf(),
            tree@ == Map::<usize, Seq<char>>::empty(),
            tree.fanout() == ELEMENTS_PER_PAGE,
            tree.depth() == 0,
    {
        let tree = BTree {
            root: TreeNode::Null,
            num_elements: 0,
            max_depth: 0,
            fanout: ELEMENTS_PER_PAGE,
        };
        proof {
            assert(tree@ =~= Map::<usize, Seq<char>>::empty());
        }
        tree
    }

    /// An empty tree with the given fanout, which must be 3 at least and
    /// less than `usize::MAX`; `None` for any other.
    pub fn with_fanout(fanout: usize) -> (made: Option<BTree>)
        ensures
            made is Some <==> 3 <= fanout < usize::MAX,
            made matches Some(tree) ==> {
                &&& tree.wf()
                &&& tree@ == Map::<usize, Seq<char>>::empty()
                &&& tree.fanout() == fanout
                &&& tree.depth() == 0
            },
    {
        if fanout < 3 || fanout == usize::MAX {
            None
        } else {
            let tree = BTree { root: TreeNode::Null, num_elements: 0, max_depth: 0, fanout };
            proof {
                assert(tree@ =~= Map::<usize, Seq<char>>::empty());
            }
            Some(tree)
        }
    }

    /// Sets the payload of `index` to `data`: a key that is there gets the
    /// new payload, and one that is not is added.
    pub fn set_item(&mut self, index: usize, data: String)
        requires
            old(self).wf(),
            old(self)@.contains_key(index) || old(self)@.len() < usize::MAX,
        ensures
            final(self).wf(),
            final(self)@ == old(self)@.insert(index, data@),
            final(self).fanout() == old(self).fanout(),
            old(self).depth() <= final(self).depth() <= old(self).depth() + 1,
            root_after_set(
                old(self).root_node(),
                final(self).root_node(),
                index,
                data,
                old(self).fanout(),
            ),
    {
        let ghost before = self.root;
        let ghost fanout = self.fanout as nat;
        proof {
            lemma_count(before, fanout);
        }
        let mut node = TreeNode::Null;
        core::mem::swap(&mut self.root, &mut node);
        let (res, grew) = insert_item(
            node,
            index,
            data,
            self.fanout,
            Ghost(0),
            Ghost(key_space_end()),
        );
        let root = match res {
            Inserted::Overflow(l, idx, r) => {
                let mut new_root = InternalItem::new();
                new_root.index.push(idx);
                new_root.data.push(l);
                new_root.data.push(r);
                proof {
                    assert(new_root.index@ =~= seq![idx]);
                    assert(new_root.data@ =~= seq![l, r]);
                    lemma_new_root(new_root, l, idx, r, fanout);
                }
                TreeNode::InternalNode(new_root)
            },
            Inserted::Absorbed(other) => other,
        };
        proof {
            assert(inserted(before, res, index, data, fanout));
            if root is InternalNode {
                lemma_internal_height(root->InternalNode_0, 0, key_space_end(), fanout);
            }
            assert(contents(root) =~= contents(before).insert(index, data@));
            lemma_count(root, fanout);
            if root is InternalNode {
                lemma_height_below_width(root, 0, key_space_end(), fanout);
            }
        }
        self.root = root;
        if grew {
            self.num_elements = self.num_elements + 1;
        }
        self.max_depth = self.root.get_max_depth(0);
    }

    /// Removes `index` and its payload, if the key is there.
    pub fn remove(&mut self, index: usize)
        requires
            old(self).wf(),
        ensures
            final(self).wf(),
            final(self)@ == old(self)@.remove(index),
            final(self).fanout() == old(self).fanout(),
            final(self).depth() <= old(self).depth() <= final(self).depth() + 1,
            root_after_remove(
                old(self).root_node(),
                final(self).root_node(),
                index,
                old(self).fanout(),
            ),
    {
        let ghost before = self.root;
        let ghost fanout = self.fanout as nat;
        proof {
            lemma_count(before, fanout);
        }
        let mut node = TreeNode::Null;
        core::mem::swap(&mut self.root, &mut node);
        let (rest, was_there) = delete_item(
            node,
            index,
            self.fanout,
            Ghost(0),
            Ghost(key_space_end()),
        );
        let root = collapse_root(rest, Ghost(fanout));
        proof {
            assert(removed(before, rest, index, fanout));
            assert(contents(root) =~= contents(before).remove(index));
            lemma_count(root, fanout);
        }
        self.root = root;
        if was_there {
            self.num_elements = self.num_elements - 1;
        }
        self.max_depth = self.root.get_max_depth(0);
    }

    /// The payload stored under `index`, or `None`.
    pub fn get_item(&self, index: usize) -> (found: Option<String>)
        requires
            self.wf(),
        ensures
            found is Some <==> self@.contains_key(index),
            found matches Some(payload) ==> payload@ == self@[index],
    {
        self.root.get_item(&index)
    }

    /// The number of entries.
    pub fn get_num_elements(&self) -> (count: usize)
        requires
            self.wf(),
        ensures
            count == self@.len(),
            self@.dom().finite(),
    {
        proof {
            lemma_count(self.root, self.fanout as nat);
        }
        self.num_elements
    }

    /// The number of levels: 0 for an empty tree, 1 for a tree whose root is
    /// a leaf.
    pub fn get_depth(&self) -> (depth: usize)
        requires
            self.wf(),
        ensures
            depth == self.depth(),
            depth == 0 <==> self@ == Map::<usize, Seq<char>>::empty(),
    {
        proof {
            self.lemma_empty();
        }
        self.root.get_max_depth(0)
    }

    /// All payloads, in ascending order of their keys.
    pub fn iterate_through(&self) -> (out: Vec<String>)
        requires
            self.wf(),
        ensures
            out.len() == self.keys().len(),
            out.len() == self@.len(),
            strictly_sorted(self.keys()),
            self.keys().to_set() == self@.dom(),
            forall|i: int|
                0 <= i < out.len() ==> self@.contains_key(#[trigger] self.keys()[i])
                    && out[i]@ == self@[self.keys()[i]],
    {
        proof {
            lemma_count(self.root, self.fanout as nat);
        }
        let out = self.root.iterate_through(Vec::new());
        proof {
            assert(payloads(Seq::<String>::empty()) =~= Seq::<Seq<char>>::empty());
            assert(payloads(out@) =~= self.root.values());
            assert forall|i: int| 0 <= i < out.len() implies out[i]@ == self@[self.keys()[i]] by {
                assert(payloads(out@)[i] == out[i]@);
            }
        }
        out
    }

    /// The root of the tree, for reading.
    pub fn root(&self) -> (root: &TreeNode)
        ensures
            *root == self.root_node(),
    {
        &self.root
    }

    /// The fanout that the tree was made with.
    pub fn get_fanout(&self) -> (fanout: usize)
        ensures
            fanout == self.fanout(),
    {
        self.fanout
    }

    /// The root of a well-formed tree is fit to stand at the top of one.
    pub proof fn lemma_root(&self)
        requires
            self.wf(),
        ensures
            fit_for_root(self.root_node(), self.fanout()),
            3 <= self.fanout(),
            self@ == contents(self.root_node()),
            self.keys() == self.root_node().keys(),
            self.depth() == self.root_node().height(),
    {
    }

    /// A tree is empty exactly if it has no root, and exactly if it has no
    /// level.
    pub proof fn lemma_empty(&self)
        requires
            self.wf(),
        ensures
            self.root_node() is Null <==> self.depth() == 0,
            self.depth() == 0 <==> self@ == Map::<usize, Seq<char>>::empty(),
    {
        let root = self.root;
        lemma_count(root, self.fanout as nat);
        if root is Null {
            assert(self@ =~= Map::<usize, Seq<char>>::empty());
        } else {
            lemma_height_positive(root, 0, key_space_end(), self.fanout as nat);
            lemma_nonempty(root, 0, key_space_end(), self.fanout as nat);
            let k = choose|k: usize| root.lookup(k) is Some;
            assert(self@.contains_key(k));
        }
    }
}

/// A well-formed subtree whose top node is not empty holds a key.
pub proof fn lemma_nonempty(node: TreeNode, lo: int, hi: int, fanout: nat)
    requires
        node.wf(lo, hi, fanout),
        node.occupancy() >= 1,
        3 <= fanout,
    ensures
        exists|k: usize| node.lookup(k) is Some,
{
    lemma_inorder(node, lo, hi, fanout);
    lemma_keys_nonempty(node, lo, hi, fanout);
    assert(node.lookup(node.keys()[0]) is Some);
}

/// A well-formed subtree whose top node is not empty lists a key.
pub proof fn lemma_keys_nonempty(node: TreeNode, lo: int, hi: int, fanout: nat)
    requires
        node.wf(lo, hi, fanout),
        node.occupancy() >= 1,
        3 <= fanout,
    ensures
        node.keys().len() >= 1,
    decreases node,
{
    match node {
        TreeNode::InternalNode(n) => {
            assert(n.data[0].wf(n.lower(0, lo), n.upper(0, hi), fanout));
            lemma_keys_nonempty(n.data[0], n.lower(0, lo), n.upper(0, hi), fanout);
            lemma_keys_upto_grow(n, 1, n.data.len() as nat);
            assert(n.keys_upto(1) == n.keys_upto(0) + n.data[0].keys());
        },
        _ => {},
    }
}

/// The keys of more children are no fewer.
pub proof fn lemma_keys_upto_grow(n: InternalItem, a: nat, b: nat)
    requires
        a <= b <= n.data.len(),
    ensures
        n.keys_upto(a).len() <= n.keys_upto(b).len(),
    decreases b,
{
    if a < b {
        lemma_keys_upto_grow(n, a, (b - 1) as nat);
    }
}

} // verus!
