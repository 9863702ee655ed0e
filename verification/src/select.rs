//! The selection engine: one pass over an immutable byte slice that finds the
//! smallest value strictly above an optional previous-value sentinel,
//! together with the first index at which it occurs and its total occurrence
//! count.  Repeated sweeps with an advancing sentinel replace sorting: the
//! order-statistic finder is built entirely on this function.

use crate::counts::count_eq;
use crate::counts::lemma_count_eq_zero;
use crate::counts::lemma_count_le_len;
use crate::counts::lemma_count_push;
use vstd::prelude::*;

verus! {

/// The value of the optional previous-value sentinel.
pub open spec fn prev_val(prev: Option<&u8>) -> Option<u8> {
    match prev {
        Some(p) => Some(*p),
        None => None,
    }
}

/// `x` lies strictly above the sentinel; with no sentinel every value does.
pub open spec fn exceeds(prev: Option<u8>, x: u8) -> bool {
    match prev {
        Some(p) => x > p,
        None => true,
    }
}

/// Determine the next minimum: the smallest value of `slice` strictly above
/// the sentinel `prev` (the smallest value overall when no sentinel is
/// given), reported as `Some((index, count))` with the lowest index at which
/// that value occurs and its total number of occurrences.  `None` means
/// exhaustion: the slice is empty or holds nothing above the sentinel.
pub fn next_min(slice: &[u8], prev: Option<&u8>) -> (r: Option<(usize, usize)>)
    ensures
        (match r {
            None => forall|j: int| 0 <= j < slice@.len() ==> !exceeds(prev_val(prev), #[trigger] slice@[j]),
            Some(rc) => {
                &&& 0 <= (rc.0 as int) < slice@.len()
                &&& exceeds(prev_val(prev), slice@[rc.0 as int])
                &&& forall|j: int|
                    0 <= j < slice@.len() && exceeds(prev_val(prev), #[trigger] slice@[j])
                        ==> slice@[rc.0 as int] <= slice@[j]
                &&& forall|j: int| 0 <= j < rc.0 as int ==> #[trigger] slice@[j] != slice@[rc.0 as int]
                &&& rc.1 as nat == count_eq(slice@, slice@[rc.0 as int])
                &&& rc.1 >= 1
            },
        }),
        slice@.len() == 0 ==> r is None,
        slice@.len() > 0 && prev is None ==> r is Some,
        prev_val(prev) == Some(u8::MAX) ==> r is None,
{
    let n: usize = slice.len();
    if n == 0 {
        return None;
    }
    let mut v_in: u8 = u8::MAX;  // inclusive running minimum
    let mut v_ind: usize = 0;  // index of its first occurrence
    let mut c: usize = 0;  // occurrences of the running minimum
    match prev {
        Some(l_ex) => {
            let p: u8 = *l_ex;
            // A flag distinguishes "nothing found yet" from a legitimately
            // found domain maximum.
            let mut v_found: bool = false;
            let mut i: usize = 0;
            while i < n
                invariant
                    n == slice@.len(),
                    i <= n,
                    !v_found ==> {
                        &&& v_in == u8::MAX
                        &&& v_ind == 0
                        &&& c == 0
                        &&& forall|j: int| 0 <= j < i ==> slice@[j] <= p && slice@[j] != u8::MAX
                    },
                    v_found ==> {
                        &&& v_ind < i
                        &&& slice@[v_ind as int] == v_in
                        &&& v_in > p || v_in == u8::MAX
                        &&& forall|j: int|
                            0 <= j < i && (slice@[j] > p || slice@[j] == u8::MAX) ==> slice@[j]
                                >= v_in
                        &&& forall|j: int| 0 <= j < v_ind ==> slice@[j] != v_in
                        &&& c as nat == count_eq(slice@.take(i as int), v_in)
                        &&& c >= 1
                    },
                decreases n - i,
            {
                let e: u8 = slice[i];
                if e > p && e < v_in {
                    proof {
                        assert forall|j: int|
                            0 <= j < slice@.take(i as int).len() implies #[trigger] slice@.take(
                            i as int,
                        )[j] != e by {
                            assert(slice@.take(i as int)[j] == slice@[j]);
                        }
                        lemma_count_eq_zero(slice@.take(i as int), e);
                        assert(slice@.take(i as int + 1) =~= slice@.take(i as int).push(e));
                        lemma_count_push(slice@.take(i as int), e, e);
                    }
                    v_in = e;
                    v_ind = i;
                    c = 1;
                    v_found = true;
                } else if e == v_in {
                    proof {
                        assert(slice@.take(i as int + 1) =~= slice@.take(i as int).push(e));
                        lemma_count_push(slice@.take(i as int), e, v_in);
                        lemma_count_le_len(slice@.take(i as int), v_in);
                        if !v_found {
                            assert forall|j: int|
                                0 <= j < slice@.take(i as int).len() implies #[trigger] slice@.take(
                                i as int,
                            )[j] != v_in by {
                                assert(slice@.take(i as int)[j] == slice@[j]);
                            }
                            lemma_count_eq_zero(slice@.take(i as int), v_in);
                        }
                    }
                    c = c + 1;
                    if !v_found {
                        v_ind = i;
                        v_found = true;
                    }
                } else {
                    proof {
                        assert(slice@.take(i as int + 1) =~= slice@.take(i as int).push(e));
                        lemma_count_push(slice@.take(i as int), e, v_in);
                    }
                }
                i = i + 1;
            }
            // A found minimum equal to the sentinel can only be the domain
            // maximum counted while nothing above the sentinel exists.
            if p == v_in {
                c = 0;
            }
            proof {
                assert(slice@.take(n as int) =~= slice@);
            }
            if c > 0 {
                Some((v_ind, c))
            } else {
                None
            }
        },
        None => {
            let mut i: usize = 0;
            while i < n
                invariant
                    n == slice@.len(),
                    i <= n,
                    i == 0 ==> v_in == u8::MAX && v_ind == 0 && c == 0,
                    i > 0 ==> {
                        &&& v_ind < i
                        &&& slice@[v_ind as int] == v_in
                        &&& forall|j: int| 0 <= j < i ==> slice@[j] >= v_in
                        &&& forall|j: int| 0 <= j < v_ind ==> slice@[j] != v_in
                        &&& c as nat == count_eq(slice@.take(i as int), v_in)
                        &&& c >= 1
                    },
                decreases n - i,
            {
                let e: u8 = slice[i];
                if e < v_in {
                    proof {
                        assert forall|j: int|
                            0 <= j < slice@.take(i as int).len() implies #[trigger] slice@.take(
                            i as int,
                        )[j] != e by {
                            assert(slice@.take(i as int)[j] == slice@[j]);
                        }
                        lemma_count_eq_zero(slice@.take(i as int), e);
                        assert(slice@.take(i as int + 1) =~= slice@.take(i as int).push(e));
                        lemma_count_push(slice@.take(i as int), e, e);
                    }
                    v_in = e;
                    v_ind = i;
                    c = 1;
                } else if e == v_in {
                    proof {
                        assert(slice@.take(i as int + 1) =~= slice@.take(i as int).push(e));
                        lemma_count_push(slice@.take(i as int), e, v_in);
                        lemma_count_le_len(slice@.take(i as int), v_in);
                        if i == 0 {
                            lemma_count_eq_zero(slice@.take(0), v_in);
                        }
                    }
                    c = c + 1;
                } else {
                    proof {
                        assert(slice@.take(i as int + 1) =~= slice@.take(i as int).push(e));
                        lemma_count_push(slice@.take(i as int), e, v_in);
                    }
                }
                i = i + 1;
            }
            proof {
                assert(slice@.take(n as int) =~= slice@);
            }
            Some((v_ind, c))
        },
    }
}

} // verus!
