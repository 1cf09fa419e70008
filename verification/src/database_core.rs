//! A flat store of texts in the order in which they came, ranked by the
//! top-K selector.

use crate::node::payloads;
use crate::topk::{get_top_k_indexes, is_top_k};
use vstd::prelude::*;
use vstd::string::StringExecFns;

verus! {

/// The texts of `items` that differ from `text`, in their order.
pub open spec fn without(items: Seq<Seq<char>>, text: Seq<char>) -> Seq<Seq<char>>
    decreases items.len(),
{
    if items.len() == 0 {
        Seq::empty()
    } else if items.last() == text {
        without(items.drop_last(), text)
    } else {
        without(items.drop_last(), text).push(items.last())
    }
}

/// A store of texts, kept in the order in which they were added.
pub struct VectorDBCore {
    data: Vec<String>,
}

impl View for VectorDBCore {
    type V = Seq<Seq<char>>;

    /// The stored texts, in the order in which they were added.
    closed spec fn view(&self) -> Seq<Seq<char>> {
        payloads(self.data@)
    }
}

impl VectorDBCore {
    /// An empty store.
    pub fn new() -> (db: VectorDBCore)
        ensures
            db@ == Seq::<Seq<char>>::empty(),
    {
        let db = VectorDBCore { data: Vec::new() };
        proof {
            assert(db@ =~= Seq::<Seq<char>>::empty());
        }
        db
    }

    /// The number of stored texts.
    pub fn len(&self) -> (count: usize)
        ensures
            count == self@.len(),
    {
        self.data.len()
    }

    /// Adds a text behind those that are stored.
    pub fn add_item(&mut self, text_item: &str)
        ensures
            final(self)@ == old(self)@.push(text_item@),
    {
        self.data.push(String::from_str(text_item));
        proof {
            assert(self@ =~= old(self)@.push(text_item@));
        }
    }

    /// Takes every stored text away that equals `text_item`; the others keep
    /// their order.
    pub fn remove_item(&mut self, text_item: &str)
        ensures
            final(self)@ == without(old(self)@, text_item@),
    {
        let needle = String::from_str(text_item);
        let mut kept: Vec<String> = Vec::new();
        let mut i: usize = 0;
        proof {
            assert(self@.subrange(0, 0) =~= Seq::<Seq<char>>::empty());
            assert(payloads(kept@) =~= without(self@.subrange(0, 0), text_item@));
        }
        while i < self.data.len()
            invariant
                i <= self.data.len(),
                needle@ == text_item@,
                self@ == old(self)@,
                payloads(kept@) == without(self@.subrange(0, i as int), text_item@),
            decreases self.data.len() - i,
        {
            proof {
                let next = self@.subrange(0, i + 1);
                assert(next.drop_last() =~= self@.subrange(0, i as int));
                assert(next.last() == self.data[i as int]@);
            }
            let ghost before = payloads(kept@);
            if self.data[i] != needle {
                kept.push(self.data[i].clone());
                proof {
                    assert(payloads(kept@) =~= before.push(self.data[i as int]@));
                }
            }
            i += 1;
        }
        proof {
            assert(self@.subrange(0, i as int) =~= self@);
        }
        self.data = kept;
    }

    /// The `k` texts that score best, best first, where `scores` holds one
    /// score for each stored text in the order of the store and of two equal
    /// scores the earlier ranks first; `None` where it holds more or fewer.
    pub fn find_k_neighbors(&self, scores: &Vec<i64>, k: usize) -> (best: Option<Vec<String>>)
        ensures
            best is Some <==> scores.len() == self@.len(),
            best matches Some(texts) ==> exists|picked: Seq<usize>|
                {
                    &&& is_top_k(scores@, k as nat, picked)
                    &&& texts.len() == picked.len()
                    &&& forall|i: int|
                        0 <= i < picked.len() ==> (#[trigger] texts[i])@ == self@[picked[i] as int]
                },
    {
        if scores.len() != self.data.len() {
            return None;
        }
        let picked = get_top_k_indexes(scores, k);
        let mut texts: Vec<String> = Vec::new();
        let mut at: usize = 0;
        while at < picked.len()
            invariant
                at <= picked.len(),
                texts.len() == at,
                scores.len() == self.data.len(),
                is_top_k(scores@, k as nat, picked@),
                forall|i: int| 0 <= i < at ==> (#[trigger] texts[i])@ == self@[picked[i] as int],
            decreases picked.len() - at,
        {
            let index = picked[at];
            texts.push(self.data[index].clone());
            at += 1;
        }
        Some(texts)
    }
}

} // verus!
