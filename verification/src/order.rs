//! The order-statistic finder: locate the element that would occupy a given
//! rank if the slice were sorted ascending, without sorting, mutating or
//! copying it.  The finder repeatedly invokes the selection engine with an
//! advancing previous-value sentinel, accumulating occurrence counts until
//! the wanted rank is covered.  The median needs two adjacent ranks on
//! even-length input; a fused traversal finds both in one sweep by also
//! remembering the previously found value.

use crate::counts::count_eq;
use crate::counts::count_le;
use crate::counts::count_lt;
use crate::counts::is_kth_value;
use crate::counts::lemma_count_eq_at;
use crate::counts::lemma_count_le_len;
use crate::counts::lemma_count_le_partial;
use crate::counts::lemma_count_lt_step;
use crate::counts::lemma_count_lt_zero;
use crate::counts::lemma_kth_value_monotone;
use crate::select::next_min;
use vstd::prelude::*;

verus! {

/// Find the index of the k-th smallest element (0-indexed) of the unsorted
/// slice: the returned index holds the value that position `k` of the sorted
/// rearrangement would hold, at that value's first occurrence.  `None`
/// exactly when `k` is out of bounds.
pub fn kth_ind(slice: &[u8], k: usize) -> (r: Option<usize>)
    ensures
        (match r {
            None => k >= slice@.len(),
            Some(ind) => {
                &&& k < slice@.len()
                &&& 0 <= (ind as int) < slice@.len()
                &&& is_kth_value(slice@, k as int, slice@[ind as int])
                &&& forall|j: int| 0 <= j < ind as int ==> #[trigger] slice@[j] != slice@[ind as int]
            },
        }),
{
    if k >= slice.len() {
        return None;
    }
    let n: usize = slice.len();
    let mut items: usize = 0;
    let mut v_ind: Option<usize> = None;
    while items <= k
        invariant
            n == slice@.len(),
            k < n,
            items <= n,
            v_ind is None ==> items == 0,
            v_ind matches Some(vi) ==> {
                &&& vi < n
                &&& items as nat == count_le(slice@, slice@[vi as int])
                &&& count_lt(slice@, slice@[vi as int]) <= k
                &&& forall|j: int| 0 <= j < vi as int ==> #[trigger] slice@[j] != slice@[vi as int]
            },
        decreases n - items,
    {
        let r = match v_ind {
            Some(v_i) => {
                let pv: u8 = slice[v_i];
                next_min(slice, Some(&pv))
            },
            None => next_min(slice, None),
        };
        if let Some((ind, count)) = r {
            proof {
                let s = slice@;
                let new = s[ind as int];
                match v_ind {
                    Some(vi) => {
                        let cur = s[vi as int];
                        lemma_count_lt_step(s, cur, new);
                    },
                    None => {
                        lemma_count_lt_zero(s, new);
                    },
                }
                lemma_count_le_len(s, new);
            }
            items = items + count;
            v_ind = Some(ind);
        } else {
            proof {
                let s = slice@;
                match v_ind {
                    Some(vi) => {
                        lemma_count_le_partial(s, s[vi as int]);
                    },
                    None => {},
                }
                assert(false);
            }
        }
    }
    v_ind
}

/// The two middle values of the slice in one fused traversal: for a
/// non-empty slice of length `n`, `Some((lo, hi))` where `lo` is the value at
/// rank `(n - 1) / 2` and `hi` the value at rank `n / 2` of the sorted
/// rearrangement.  For odd `n` the two ranks coincide and `lo == hi`; the
/// median is the average of the two.  `None` exactly on empty input.
pub fn median_pair(slice: &[u8]) -> (r: Option<(u8, u8)>)
    ensures
        (match r {
            None => slice@.len() == 0,
            Some(mid) => {
                &&& slice@.len() > 0
                &&& is_kth_value(slice@, (slice@.len() - 1) as int / 2, mid.0)
                &&& is_kth_value(slice@, slice@.len() as int / 2, mid.1)
                &&& mid.0 <= mid.1
            },
        }),
{
    let n: usize = slice.len();
    if n == 0 {
        return None;
    }
    // Rank of the (upper) middle value.
    let k: usize = n / 2;
    let mut items: usize = 0;
    let mut v_items: usize = 0;
    let mut v_ind: Option<usize> = None;
    let mut p_ind: Option<usize> = None;
    while items <= k
        invariant
            n == slice@.len(),
            n > 0,
            k == n / 2,
            items <= n,
            v_ind is None ==> items == 0,
            v_ind matches Some(vi) ==> {
                &&& vi < n
                &&& items as nat == count_le(slice@, slice@[vi as int])
                &&& count_lt(slice@, slice@[vi as int]) <= k
                &&& v_items as nat == count_eq(slice@, slice@[vi as int])
                &&& v_items <= items
            },
            v_ind is Some && count_lt(slice@, slice@[v_ind->0 as int]) > 0 ==> {
                &&& p_ind is Some
                &&& (p_ind->0 as int) < n
                &&& count_le(slice@, slice@[p_ind->0 as int]) == count_lt(
                    slice@,
                    slice@[v_ind->0 as int],
                )
            },
        decreases n - items,
    {
        p_ind = v_ind;
        let r = match v_ind {
            Some(v_i) => {
                let pv: u8 = slice[v_i];
                next_min(slice, Some(&pv))
            },
            None => next_min(slice, None),
        };
        if let Some((ind, count)) = r {
            proof {
                let s = slice@;
                let new = s[ind as int];
                match v_ind {
                    Some(vi) => {
                        let cur = s[vi as int];
                        lemma_count_lt_step(s, cur, new);
                    },
                    None => {
                        lemma_count_lt_zero(s, new);
                    },
                }
                lemma_count_le_len(s, new);
            }
            v_items = count;
            items = items + count;
            v_ind = Some(ind);
        } else {
            proof {
                let s = slice@;
                match v_ind {
                    Some(vi) => {
                        lemma_count_le_partial(s, s[vi as int]);
                    },
                    None => {},
                }
                assert(false);
            }
        }
    }
    // Value at the upper middle rank; for odd length the only middle value.
    let hi: u8 = slice[v_ind.unwrap()];
    let mut lo: u8 = hi;
    // Even slice length: the lower middle rank is k - 1, covered either by
    // the same value or by the previously found, strictly smaller one.
    if n % 2 == 0 {
        let p_total: usize = items - v_items;
        let k_l: usize = k - 1;
        if p_total > k_l {
            lo = slice[p_ind.unwrap()];
            proof {
                lemma_count_eq_at(slice@, p_ind.unwrap() as int);
            }
        }
    }
    proof {
        lemma_kth_value_monotone(
            slice@,
            (slice@.len() - 1) as int / 2,
            slice@.len() as int / 2,
            lo,
            hi,
        );
    }
    Some((lo, hi))
}

} // verus!
