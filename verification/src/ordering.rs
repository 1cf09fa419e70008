//! Key ordering: the strict order on keys and the two binary searches that
//! every node operation is built on.

use vstd::prelude::*;

verus! {

/// `data` is in ascending order, equal neighbours allowed.
pub open spec fn sorted(data: Seq<usize>) -> bool {
    forall|i: int, j: int| 0 <= i < j < data.len() ==> data[i] <= data[j]
}

/// `data` is in strictly ascending order.
pub open spec fn strictly_sorted(data: Seq<usize>) -> bool {
    forall|i: int, j: int| 0 <= i < j < data.len() ==> data[i] < data[j]
}

/// The comparator can be called on every pair of keys and decides `l < r`.
pub open spec fn decides_less<F: Fn(&usize, &usize) -> bool>(comparator: F) -> bool {
    &&& forall|l: usize, r: usize| call_requires(comparator, (&l, &r))
    &&& forall|l: usize, r: usize, b: bool|
        call_ensures(comparator, (&l, &r), b) ==> b == (l < r)
}

/// The strict order on keys.
pub fn compare(l: &usize, r: &usize) -> (less: bool)
    ensures
        less == (*l < *r),
{
    *l < *r
}

/// Position of `index` in a leaf's key list: where it stands if present,
/// otherwise where it would have to be inserted.
pub fn binary_search_leafs(
    data: &Vec<usize>,
    index: &usize,
    comparator: impl Fn(&usize, &usize) -> bool,
) -> (loc: usize)
    requires
        decides_less(comparator),
    ensures
        loc <= data.len(),
        sorted(data@) ==> {
            ||| loc < data.len() && data[loc as int] == *index
            ||| {
                &&& forall|i: int| 0 <= i < loc ==> data[i] < *index
                &&& forall|i: int| loc <= i < data.len() ==> data[i] > *index
            }
        },
        strictly_sorted(data@) ==> {
            &&& forall|i: int| 0 <= i < loc ==> data[i] < *index
            &&& forall|i: int| loc <= i < data.len() ==> data[i] >= *index
        },
{
    if data.len() == 0 {
        return 0;
    }
    let mut low: usize = 0;
    let mut high: usize = data.len();
    while low < high
        invariant
            decides_less(comparator),
            low <= high <= data.len(),
            sorted(data@) ==> {
                &&& forall|i: int| 0 <= i < low ==> data[i] < *index
                &&& forall|i: int| high <= i < data.len() ==> data[i] > *index
            },
        decreases high - low,
    {
        let mid: usize = low + (high - low) / 2;
        if comparator(index, &data[mid]) {
            high = mid;
        } else if !comparator(&data[mid], index) {
            return mid;
        } else {
            low = mid + 1;
        }
    }
    low
}

/// Child slot for `index` in an internal node: the position of the first
/// separator strictly greater than `index`, or the number of separators if
/// there is none.
pub fn binary_search_internal_nodes(
    data: &Vec<usize>,
    index: &usize,
    comparator: impl Fn(&usize, &usize) -> bool,
) -> (loc: usize)
    requires
        decides_less(comparator),
    ensures
        loc <= data.len(),
        sorted(data@) ==> {
            &&& forall|i: int| 0 <= i < loc ==> data[i] <= *index
            &&& forall|i: int| loc <= i < data.len() ==> data[i] > *index
        },
{
    let mut low: usize = 0;
    let mut high: usize = data.len();
    while low < high
        invariant
            decides_less(comparator),
            low <= high <= data.len(),
            sorted(data@) ==> {
                &&& forall|i: int| 0 <= i < low ==> data[i] <= *index
                &&& forall|i: int| high <= i < data.len() ==> data[i] > *index
            },
        decreases high - low,
    {
        let mid: usize = low + (high - low) / 2;
        if comparator(index, &data[mid]) {
            high = mid;
        } else {
            low = mid + 1;
        }
    }
    high
}

} // verus!
