//! The store that a caller talks to: payloads kept in the ordered index under
//! the keys that the caller derives for them, and ranked queries over what is
//! stored.

use crate::topk::{get_top_k_indexes, is_top_k};
use crate::tree::BTree;
use vstd::prelude::*;

verus! {

/// A store of payloads, each under its key, that can be asked for the best
/// of them by score.
pub struct VectorDB {
    index: BTree,
}

impl View for VectorDB {
    type V = Map<usize, Seq<char>>;

    /// The store as a map from key to payload.
    closed spec fn view(&self) -> Map<usize, Seq<char>> {
        self.index@
    }
}

impl VectorDB {
    /// The index that holds the payloads is well formed.
    pub closed spec fn wf(&self) -> bool {
        self.index.wf()
    }

    /// The stored payloads in ascending order of their keys: the order in
    /// which a ranked query numbers them.
    pub closed spec fn items(&self) -> Seq<Seq<char>> {
        Seq::new(self.index.keys().len(), |i: int| self.index@[self.index.keys()[i]])
    }

    /// The stored keys in ascending order.
    pub closed spec fn keys(&self) -> Seq<usize> {
        self.index.keys()
    }

    /// An empty store.
    pub fn new() -> (db: VectorDB)
        ensures
            db.wf(),
            db@ == Map::<usize, Seq<char>>::empty(),
    {
        VectorDB { index: BTree::new() }
    }

    /// Stores `new_data` under `key`, in place of what was stored under it.
    pub fn insert(&mut self, new_data: String, key: usize)
        requires
            old(self).wf(),
            old(self)@.contains_key(key) || old(self)@.len() < usize::MAX,
        ensures
            final(self).wf(),
            final(self)@ == old(self)@.insert(key, new_data@),
    {
        self.index.set_item(key, new_data);
    }

    /// Takes away what is stored under `key`, if anything is.
    pub fn remove(&mut self, key: usize)
        requires
            old(self).wf(),
        ensures
            final(self).wf(),
            final(self)@ == old(self)@.remove(key),
    {
        self.index.remove(key);
    }

    /// The number of stored payloads.
    pub fn len(&self) -> (count: usize)
        requires
            self.wf(),
        ensures
            count == self@.len(),
            count == self.items().len(),
    {
        proof {
            crate::laws::lemma_keys_ascend(self.index);
        }
        self.index.get_num_elements()
    }

    /// The positions of the `k` best of the scored items, best first. The
    /// score at position `i` is that of the `i`-th stored payload in
    /// ascending order of keys; of two equal scores the earlier ranks first.
    pub fn get_top_k_indexes(&self, scores: &Vec<i64>, k: usize) -> (picked: Vec<usize>)
        ensures
            is_top_k(scores@, k as nat, picked@),
    {
        get_top_k_indexes(scores, k)
    }

    /// The stored payloads at the given positions, counted in ascending order
    /// of keys, in the order in which the positions are given.
    pub fn get_indexes(&self, indices: Vec<usize>) -> (index_data: Vec<String>)
        requires
            self.wf(),
            forall|i: int| 0 <= i < indices.len() ==> #[trigger] indices[i] < self.items().len(),
        ensures
            index_data.len() == indices.len(),
            forall|i: int|
                0 <= i < indices.len() ==> (#[trigger] index_data[i])@ == self.items()[indices[i] as int],
    {
        let stored = self.index.iterate_through();
        let mut index_data: Vec<String> = Vec::new();
        let mut at: usize = 0;
        while at < indices.len()
            invariant
                at <= indices.len(),
                index_data.len() == at,
                stored.len() == self.items().len(),
                forall|i: int| 0 <= i < indices.len() ==> #[trigger] indices[i] < self.items().len(),
                forall|i: int| 0 <= i < stored.len() ==> (#[trigger] stored[i])@ == self.items()[i],
                forall|i: int|
                    0 <= i < at ==> (#[trigger] index_data[i])@ == self.items()[indices[i] as int],
            decreases indices.len() - at,
        {
            let index = indices[at];
            index_data.push(stored[index].clone());
            at += 1;
        }
        index_data
    }

    /// The payloads of the `k` best of the scored items, best first, where
    /// `scores` holds one score for each stored payload in ascending order of
    /// keys; `None` where it holds more or fewer.
    pub fn top_k(&self, scores: &Vec<i64>, k: usize) -> (best: Option<Vec<String>>)
        requires
            self.wf(),
        ensures
            best is Some <==> scores.len() == self.items().len(),
            best matches Some(payloads) ==> exists|picked: Seq<usize>|
                {
                    &&& is_top_k(scores@, k as nat, picked)
                    &&& payloads.len() == picked.len()
                    &&& forall|i: int|
                        0 <= i < picked.len() ==> (#[trigger] payloads[i])@ == self.items()[picked[i] as int]
                },
    {
        if scores.len() != self.len() {
            None
        } else {
            let picked = self.get_top_k_indexes(scores, k);
            let ghost chosen = picked@;
            let payloads = self.get_indexes(picked);
            proof {
                assert(is_top_k(scores@, k as nat, chosen));
            }
            Some(payloads)
        }
    }
}

} // verus!
