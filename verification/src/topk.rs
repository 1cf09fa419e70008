//! The bounded top-K selector: the K best-scoring items seen so far, kept in
//! descending order of score by sorted insertion, the lowest dropped when a
//! new one makes them more than K.

use vstd::prelude::*;

verus! {

/// `scores` is in descending order, equal neighbours allowed.
pub open spec fn descending(scores: Seq<i64>) -> bool {
    forall|i: int, j: int| 0 <= i < j < scores.len() ==> scores[i] >= scores[j]
}

/// Item `i` ranks before item `j`: it scores higher, or scores the same and
/// came earlier.
pub open spec fn beats(scores: Seq<i64>, i: int, j: int) -> bool {
    scores[i] > scores[j] || (scores[i] == scores[j] && i < j)
}

/// `picked` names, best first, the `k` best of the items that `scores`
/// scores, or all of them where there are fewer: every item that is not
/// picked ranks behind every one that is.
pub open spec fn is_top_k(scores: Seq<i64>, k: nat, picked: Seq<usize>) -> bool {
    &&& picked.len() == (if k <= scores.len() {
        k
    } else {
        scores.len()
    })
    &&& forall|a: int| 0 <= a < picked.len() ==> #[trigger] picked[a] < scores.len()
    &&& forall|a: int, b: int|
        0 <= a < b < picked.len() ==> beats(scores, picked[a] as int, picked[b] as int)
    &&& forall|j: usize|
        j < scores.len() ==> #[trigger] picked.contains(j) || (picked.len() == k && all_beat(
            scores,
            picked,
            j,
        ))
}

/// Every picked item ranks before item `j`.
pub open spec fn all_beat(scores: Seq<i64>, picked: Seq<usize>, j: usize) -> bool {
    forall|a: int| 0 <= a < picked.len() ==> beats(scores, #[trigger] picked[a] as int, j as int)
}

/// The scores of the picked items, in the order in which they are picked.
pub open spec fn scores_of(scores: Seq<i64>, picked: Seq<usize>) -> Seq<i64> {
    Seq::new(picked.len(), |a: int| scores[picked[a] as int])
}

/// Two selections of the `k` best of the same items are the same selection:
/// `is_top_k` leaves no choice.
pub proof fn lemma_top_k_unique(scores: Seq<i64>, k: nat, first: Seq<usize>, second: Seq<usize>)
    requires
        is_top_k(scores, k, first),
        is_top_k(scores, k, second),
    ensures
        first == second,
{
    assert forall|a: int| 0 <= a < first.len() implies first[a] == second[a] by {
        lemma_top_k_agree(scores, k, first, second, a);
    }
    assert(first =~= second);
}

/// Two selections of the `k` best of the same items agree at every position.
pub proof fn lemma_top_k_agree(
    scores: Seq<i64>,
    k: nat,
    first: Seq<usize>,
    second: Seq<usize>,
    a: int,
)
    requires
        is_top_k(scores, k, first),
        is_top_k(scores, k, second),
        0 <= a < first.len(),
    ensures
        first[a] == second[a],
    decreases a,
{
    assert forall|b: int| 0 <= b < a implies first[b] == second[b] by {
        lemma_top_k_agree(scores, k, first, second, b);
    }
    let x = first[a];
    let y = second[a];
    if x != y {
        if beats(scores, x as int, y as int) {
            lemma_not_behind(scores, k, first, second, a);
        } else {
            assert(beats(scores, y as int, x as int));
            lemma_not_behind(scores, k, second, first, a);
        }
    }
}

/// Where two selections agree before position `a`, the item of the first at
/// `a` does not rank before the item of the second at `a`, unless they are
/// one item.
pub proof fn lemma_not_behind(
    scores: Seq<i64>,
    k: nat,
    first: Seq<usize>,
    second: Seq<usize>,
    a: int,
)
    requires
        is_top_k(scores, k, first),
        is_top_k(scores, k, second),
        0 <= a < first.len(),
        forall|b: int| 0 <= b < a ==> first[b] == second[b],
        first[a] != second[a],
    ensures
        !beats(scores, first[a] as int, second[a] as int),
{
    let x = first[a];
    let y = second[a];
    if beats(scores, x as int, y as int) {
        if second.contains(x) {
            let b = choose|b: int| 0 <= b < second.len() && second[b] == x;
            if b < a {
                assert(first[b] == x);
                assert(beats(scores, first[b] as int, first[a] as int));
            } else {
                assert(b > a);
                assert(beats(scores, second[a] as int, second[b] as int));
            }
        } else {
            assert(all_beat(scores, second, x));
            assert(beats(scores, second[a] as int, x as int));
        }
    }
}

/// The position in a descending list of scores at which `query` goes in:
/// behind every score that is not below it, so that of two equal scores the
/// earlier one stays first.
pub fn binary_search_scores(array: &Vec<i64>, query: i64) -> (loc: usize)
    ensures
        loc <= array.len(),
        descending(array@) ==> {
            &&& forall|i: int| 0 <= i < loc ==> array[i] >= query
            &&& forall|i: int| loc <= i < array.len() ==> array[i] < query
        },
{
    let mut low: usize = 0;
    let mut high: usize = array.len();
    while low < high
        invariant
            low <= high <= array.len(),
            descending(array@) ==> {
                &&& forall|i: int| 0 <= i < low ==> array[i] >= query
                &&& forall|i: int| high <= i < array.len() ==> array[i] < query
            },
        decreases high - low,
    {
        let mid: usize = low + (high - low) / 2;
        if array[mid] < query {
            high = mid;
        } else {
            low = mid + 1;
        }
    }
    low
}

/// Takes the item `idx`, which scores `score`, into the working set of the
/// `k` best of the items before it: it goes in behind the scores that are not
/// below its own, and if that makes more than `k`, the last one is dropped.
#[verifier::rlimit(30)]
pub fn top_k_insert(
    dist_vec: &mut Vec<i64>,
    index_vec: &mut Vec<usize>,
    score: i64,
    idx: usize,
    k: usize,
    Ghost(scores): Ghost<Seq<i64>>,
)
    requires
        idx < scores.len(),
        scores[idx as int] == score,
        is_top_k(scores.subrange(0, idx as int), k as nat, old(index_vec)@),
        old(dist_vec)@ == scores_of(scores, old(index_vec)@),
    ensures
        is_top_k(scores.subrange(0, idx + 1), k as nat, final(index_vec)@),
        final(dist_vec)@ == scores_of(scores, final(index_vec)@),
{
    let ghost seen = scores.subrange(0, idx as int);
    let ghost next = scores.subrange(0, idx + 1);
    let ghost r = index_vec@;
    proof {
        assert forall|a: int, b: int| 0 <= a < b < dist_vec@.len() implies dist_vec@[a]
            >= dist_vec@[b] by {
            assert(beats(seen, r[a] as int, r[b] as int));
        }
    }
    let loc = binary_search_scores(dist_vec, score);
    index_vec.insert(loc, idx);
    dist_vec.insert(loc, score);
    let ghost r1 = index_vec@;
    proof {
        assert(dist_vec@ =~= scores_of(scores, r1));
        assert forall|a: int| 0 <= a < r1.len() implies #[trigger] r1[a] < next.len() by {
            if a < loc {
                assert(r1[a] == r[a]);
            } else if a > loc {
                assert(r1[a] == r[a - 1]);
            }
        }
        assert forall|a: int, b: int| 0 <= a < b < r1.len() implies beats(
            next,
            r1[a] as int,
            r1[b] as int,
        ) by {
            let a0 = if a < loc { a } else { a - 1 };
            let b0 = if b < loc { b } else { b - 1 };
            if a != loc && b != loc {
                assert(beats(seen, r[a0] as int, r[b0] as int));
            } else if b == loc {
                assert(dist_vec@[a] == scores[r[a] as int]);
                assert(r[a] < idx);
            } else {
                assert(scores_of(scores, r)[b0] == scores[r[b0] as int]);
                assert(r[b0] < idx);
            }
        }
        assert forall|j: usize| j < idx implies r1.contains(j) || (r.len() == k && all_beat(
            seen,
            r,
            j,
        )) by {
            if r.contains(j) {
                let a = choose|a: int| 0 <= a < r.len() && r[a] == j;
                let a1 = if a < loc { a } else { a + 1 };
                assert(r1[a1] == j);
            }
        }
        assert(r1[loc as int] == idx);
    }
    if dist_vec.len() > k {
        dist_vec.pop();
        index_vec.pop();
        proof {
            let r2 = index_vec@;
            let z = r1[k as int];
            assert(r.len() == k);
            assert(r2 =~= r1.subrange(0, k as int));
            assert(dist_vec@ =~= scores_of(scores, r2));
            assert forall|a: int, b: int| 0 <= a < b < r2.len() implies beats(
                next,
                r2[a] as int,
                r2[b] as int,
            ) by {
                assert(beats(next, r1[a] as int, r1[b] as int));
            }
            assert forall|j: usize| j < next.len() implies #[trigger] r2.contains(j) || (r2.len()
                == k && all_beat(next, r2, j)) by {
                if !r2.contains(j) {
                    assert forall|a: int| 0 <= a < r2.len() implies beats(
                        next,
                        #[trigger] r2[a] as int,
                        j as int,
                    ) by {
                        assert(beats(next, r1[a] as int, z as int));
                        if j == z {
                        } else if r1.contains(j) {
                            let b = choose|b: int| 0 <= b < r1.len() && r1[b] == j;
                            assert(b < k ==> r2[b] == j);
                        } else {
                            assert(j < idx);
                            assert(all_beat(seen, r, j));
                            if loc < k {
                                assert(z == r[k - 1]);
                                assert(beats(seen, r[k - 1] as int, j as int));
                            } else {
                                assert(z == idx);
                                assert(r2[a] == r[a]);
                                assert(beats(seen, r[a] as int, j as int));
                            }
                        }
                    }
                }
            }
        }
    } else {
        proof {
            assert(r.len() < k);
            assert forall|j: usize| j < next.len() implies r1.contains(j) by {
                if j == idx {
                    assert(r1[loc as int] == j);
                }
            }
        }
    }
}

/// The `k` best of the scored items, best first, each named by its position
/// in `scores`: of two items with one score the earlier ranks first.
pub fn get_top_k_indexes(scores: &Vec<i64>, k: usize) -> (picked: Vec<usize>)
    ensures
        is_top_k(scores@, k as nat, picked@),
{
    let mut index_vec: Vec<usize> = Vec::new();
    let mut dist_vec: Vec<i64> = Vec::new();
    let mut idx: usize = 0;
    proof {
        assert(dist_vec@ =~= scores_of(scores@, index_vec@));
    }
    while idx < scores.len()
        invariant
            idx <= scores.len(),
            is_top_k(scores@.subrange(0, idx as int), k as nat, index_vec@),
            dist_vec@ == scores_of(scores@, index_vec@),
        decreases scores.len() - idx,
    {
        let score = scores[idx];
        top_k_insert(&mut dist_vec, &mut index_vec, score, idx, k, Ghost(scores@));
        idx += 1;
    }
    proof {
        assert(scores@.subrange(0, idx as int) =~= scores@);
    }
    index_vec
}

} // verus!
