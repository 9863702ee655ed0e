//! Exact summation of a byte slice.  The arithmetic mean is this total
//! divided by the element count; the division itself is fractional and is
//! left to the caller, so the summation stays exact here.

use vstd::prelude::*;

verus! {

/// The sum of all elements of `s`.
pub open spec fn sum_of(s: Seq<u8>) -> int
    decreases s.len(),
{
    if s.len() == 0 {
        0
    } else {
        sum_of(s.drop_last()) + s.last()
    }
}

/// The total of all bytes of the slice, exactly.
pub fn total(slice: &[u8]) -> (r: u128)
    ensures
        r as int == sum_of(slice@),
{
    let n: usize = slice.len();
    let mut acc: u128 = 0;
    let mut i: usize = 0;
    while i < n
        invariant
            n == slice@.len(),
            i <= n,
            acc as int == sum_of(slice@.take(i as int)),
            acc as int <= 255 * (i as int),
        decreases n - i,
    {
        proof {
            assert(slice@.take(i as int + 1).drop_last() =~= slice@.take(i as int));
            assert(slice@.take(i as int + 1).last() == slice@[i as int]);
        }
        acc = acc + (slice[i] as u128);
        i = i + 1;
    }
    proof {
        assert(slice@.take(n as int) =~= slice@);
    }
    acc
}

} // verus!
