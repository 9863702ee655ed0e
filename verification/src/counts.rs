//! Counting spec functions over byte sequences, and the lemmas relating them.
//!
//! Order statistics are characterised by counting: a value `v` occupies rank
//! `k` (0-indexed) of the sorted rearrangement of `s` exactly when the
//! elements strictly below `v` do not reach rank `k` while the elements at
//! most `v` cover it, that is `count_lt(s, v) <= k < count_le(s, v)`.  All
//! contracts of the selection engine and of the order-statistic finder are
//! stated with these functions.

use vstd::prelude::*;

verus! {

/// How many elements of `s` are equal to `v`.
pub open spec fn count_eq(s: Seq<u8>, v: u8) -> nat
    decreases s.len(),
{
    if s.len() == 0 {
        0
    } else {
        count_eq(s.drop_last(), v) + (if s.last() == v {
            1nat
        } else {
            0nat
        })
    }
}

/// How many elements of `s` are strictly smaller than `v`.
pub open spec fn count_lt(s: Seq<u8>, v: u8) -> nat
    decreases s.len(),
{
    if s.len() == 0 {
        0
    } else {
        count_lt(s.drop_last(), v) + (if s.last() < v {
            1nat
        } else {
            0nat
        })
    }
}

/// How many elements of `s` are at most `v`.
pub open spec fn count_le(s: Seq<u8>, v: u8) -> nat {
    count_lt(s, v) + count_eq(s, v)
}

/// `v` is the value that position `k` (0-indexed) would hold if `s` were
/// sorted ascending.
pub open spec fn is_kth_value(s: Seq<u8>, k: int, v: u8) -> bool {
    count_lt(s, v) <= k < count_le(s, v)
}

/// The sequence is sorted in ascending order.
pub open spec fn is_ascending(s: Seq<u8>) -> bool {
    forall|i: int, j: int| 0 <= i < j < s.len() ==> s[i] <= s[j]
}

/// Appending one element raises each count by its single contribution.
pub proof fn lemma_count_push(s: Seq<u8>, x: u8, v: u8)
    ensures
        count_eq(s.push(x), v) == count_eq(s, v) + (if x == v {
            1nat
        } else {
            0nat
        }),
        count_lt(s.push(x), v) == count_lt(s, v) + (if x < v {
            1nat
        } else {
            0nat
        }),
{
    assert(s.push(x).drop_last() =~= s);
}

/// No count exceeds the length of the sequence, even jointly.
pub proof fn lemma_count_le_len(s: Seq<u8>, v: u8)
    ensures
        count_lt(s, v) + count_eq(s, v) <= s.len(),
    decreases s.len(),
{
    if s.len() > 0 {
        lemma_count_le_len(s.drop_last(), v);
    }
}

/// A value that occurs nowhere in `s` has an occurrence count of zero.
pub proof fn lemma_count_eq_zero(s: Seq<u8>, v: u8)
    requires
        forall|j: int| 0 <= j < s.len() ==> s[j] != v,
    ensures
        count_eq(s, v) == 0,
    decreases s.len(),
{
    if s.len() > 0 {
        lemma_count_eq_zero(s.drop_last(), v);
    }
}

/// A value that occurs at index `i` occurs at least once.
pub proof fn lemma_count_eq_at(s: Seq<u8>, i: int)
    requires
        0 <= i < s.len(),
    ensures
        count_eq(s, s[i]) >= 1,
    decreases s.len(),
{
    if i < s.len() - 1 {
        lemma_count_eq_at(s.drop_last(), i);
    }
}

/// When nothing in `s` is below `v`, the strict count is zero.
pub proof fn lemma_count_lt_zero(s: Seq<u8>, v: u8)
    requires
        forall|j: int| 0 <= j < s.len() ==> s[j] >= v,
    ensures
        count_lt(s, v) == 0,
    decreases s.len(),
{
    if s.len() > 0 {
        lemma_count_lt_zero(s.drop_last(), v);
    }
}

/// When everything in `s` is at most `v`, the counts cover the whole length.
pub proof fn lemma_count_le_all(s: Seq<u8>, v: u8)
    requires
        forall|j: int| 0 <= j < s.len() ==> s[j] <= v,
    ensures
        count_lt(s, v) + count_eq(s, v) == s.len(),
    decreases s.len(),
{
    if s.len() > 0 {
        lemma_count_le_all(s.drop_last(), v);
    }
}

/// If the elements at most `v` do not cover the whole sequence, some element
/// strictly exceeds `v`.
pub proof fn lemma_count_le_partial(s: Seq<u8>, v: u8)
    requires
        count_lt(s, v) + count_eq(s, v) < s.len(),
    ensures
        exists|j: int| 0 <= j < s.len() && s[j] > v,
{
    if forall|j: int| 0 <= j < s.len() ==> s[j] <= v {
        lemma_count_le_all(s, v);
    }
}

/// Ranks of distinct values cannot cross: everything at most the smaller
/// value is strictly below the larger one.
pub proof fn lemma_count_le_lt(s: Seq<u8>, a: u8, b: u8)
    requires
        a < b,
    ensures
        count_lt(s, a) + count_eq(s, a) <= count_lt(s, b),
    decreases s.len(),
{
    if s.len() > 0 {
        lemma_count_le_lt(s.drop_last(), a, b);
    }
}

/// When every element above `a` is at least `b`, nothing lies strictly
/// between the two, so the counts are adjacent.
pub proof fn lemma_count_lt_step(s: Seq<u8>, a: u8, b: u8)
    requires
        a < b,
        forall|j: int| 0 <= j < s.len() && s[j] > a ==> s[j] >= b,
    ensures
        count_lt(s, b) == count_lt(s, a) + count_eq(s, a),
    decreases s.len(),
{
    if s.len() > 0 {
        assert forall|j: int| 0 <= j < s.drop_last().len() && s.drop_last()[j] > a implies s.drop_last()[j] >= b by {
            assert(s.drop_last()[j] == s[j]);
        }
        lemma_count_lt_step(s.drop_last(), a, b);
    }
}

/// Counts split over concatenation.
pub proof fn lemma_count_concat(s: Seq<u8>, t: Seq<u8>, v: u8)
    ensures
        count_eq(s + t, v) == count_eq(s, v) + count_eq(t, v),
        count_lt(s + t, v) == count_lt(s, v) + count_lt(t, v),
    decreases t.len(),
{
    if t.len() == 0 {
        assert(s + t =~= s);
    } else {
        lemma_count_concat(s, t.drop_last(), v);
        assert((s + t).drop_last() =~= s + t.drop_last());
        assert((s + t).last() == t.last());
    }
}

/// How many elements of `s` are strictly below the bound `b`, summed value by
/// value over the domain under `b`.
pub open spec fn count_below(s: Seq<u8>, b: int) -> nat
    decreases b,
{
    if b <= 0 {
        0
    } else {
        count_below(s, b - 1) + count_eq(s, (b - 1) as u8)
    }
}

proof fn lemma_count_below_empty(s: Seq<u8>, b: int)
    requires
        s.len() == 0,
    ensures
        count_below(s, b) == 0,
    decreases b,
{
    if b > 0 {
        lemma_count_below_empty(s, b - 1);
    }
}

proof fn lemma_count_below_push(s: Seq<u8>, x: u8, b: int)
    requires
        0 <= b <= 256,
    ensures
        count_below(s.push(x), b) == count_below(s, b) + (if (x as int) < b {
            1nat
        } else {
            0nat
        }),
    decreases b,
{
    if b > 0 {
        lemma_count_below_push(s, x, b - 1);
        lemma_count_push(s, x, (b - 1) as u8);
    }
}

/// The strict count under a value equals the value-by-value sum below it.
proof fn lemma_count_lt_below(s: Seq<u8>, v: u8)
    ensures
        count_lt(s, v) == count_below(s, v as int),
    decreases s.len(),
{
    if s.len() == 0 {
        lemma_count_below_empty(s, v as int);
    } else {
        lemma_count_lt_below(s.drop_last(), v);
        lemma_count_below_push(s.drop_last(), s.last(), v as int);
        assert(s.drop_last().push(s.last()) =~= s);
    }
}

proof fn lemma_count_below_congruent(s: Seq<u8>, t: Seq<u8>, b: int)
    requires
        forall|v: u8| #[trigger] count_eq(s, v) == count_eq(t, v),
    ensures
        count_below(s, b) == count_below(t, b),
    decreases b,
{
    if b > 0 {
        lemma_count_below_congruent(s, t, b - 1);
    }
}

/// Two sequences with the same occurrence count for every value also agree on
/// every strict count: rank structure is determined by the counts alone.
pub proof fn lemma_counts_determine_ranks(s: Seq<u8>, t: Seq<u8>, v: u8)
    requires
        forall|u: u8| #[trigger] count_eq(s, u) == count_eq(t, u),
    ensures
        count_lt(s, v) == count_lt(t, v),
        count_le(s, v) == count_le(t, v),
{
    lemma_count_lt_below(s, v);
    lemma_count_lt_below(t, v);
    lemma_count_below_congruent(s, t, v as int);
}

/// The value characterised by `is_kth_value` is exactly what sorting a copy
/// of `s` and indexing position `k` would give: for any ascending
/// rearrangement `t` of `s`, the element `t[k]` satisfies the
/// characterisation on `s` itself.
pub proof fn lemma_kth_value_from_sorted(s: Seq<u8>, t: Seq<u8>, k: int)
    requires
        s.len() == t.len(),
        forall|u: u8| #[trigger] count_eq(s, u) == count_eq(t, u),
        is_ascending(t),
        0 <= k < t.len(),
    ensures
        is_kth_value(s, k, t[k]),
{
    let v = t[k];
    assert(t =~= t.take(k) + t.skip(k));
    lemma_count_concat(t.take(k), t.skip(k), v);
    assert forall|j: int| 0 <= j < t.skip(k).len() implies t.skip(k)[j] >= v by {
        assert(t.skip(k)[j] == t[k + j]);
    }
    lemma_count_lt_zero(t.skip(k), v);
    lemma_count_le_len(t.take(k), v);
    assert(count_lt(t, v) <= k);

    assert(t =~= t.take(k + 1) + t.skip(k + 1));
    lemma_count_concat(t.take(k + 1), t.skip(k + 1), v);
    assert forall|j: int| 0 <= j < t.take(k + 1).len() implies #[trigger] t.take(k + 1)[j] <= v by {
        assert(t.take(k + 1)[j] == t[j]);
    }
    lemma_count_le_all(t.take(k + 1), v);
    assert(count_le(t, v) > k);

    lemma_counts_determine_ranks(s, t, v);
}

/// Order statistics do not decrease with rank: a value at a lower rank is at
/// most a value at a higher rank.
pub proof fn lemma_kth_value_monotone(s: Seq<u8>, k1: int, k2: int, v1: u8, v2: u8)
    requires
        is_kth_value(s, k1, v1),
        is_kth_value(s, k2, v2),
        k1 <= k2,
    ensures
        v1 <= v2,
{
    if v2 < v1 {
        lemma_count_le_lt(s, v2, v1);
    }
}

/// At a fixed rank the characterised value is unique: any two values that
/// satisfy `is_kth_value` for the same sequence and rank coincide.
pub proof fn lemma_kth_value_unique(s: Seq<u8>, k: int, v1: u8, v2: u8)
    requires
        is_kth_value(s, k, v1),
        is_kth_value(s, k, v2),
    ensures
        v1 == v2,
{
    lemma_kth_value_monotone(s, k, k, v1, v2);
    lemma_kth_value_monotone(s, k, k, v2, v1);
}

} // verus!
