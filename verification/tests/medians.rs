use approx_pearson_skew::median_pair;

/// Median through the verified selection-based traversal: average the two
/// middle values it reports (equal values average to themselves).
fn median_select(slice: &[u8]) -> Option<f32> {
    match median_pair(slice) {
        None => None,
        Some((lo, hi)) => {
            if lo == hi {
                Some(hi as f32)
            } else {
                Some(((lo as f32) + (hi as f32)) / 2.0)
            }
        }
    }
}

/// Mutable slice median: sort a copy and index the middle, used to check the
/// selection-based answer.
fn median_mut(slice: &mut [u8]) -> Option<f32> {
    if slice.is_empty() {
        return None;
    }
    slice.sort();
    let i: usize = slice.len() / 2;
    let mut med: f32 = slice[i] as f32;
    if (slice.len() % 2) == 0 {
        med = (med + (slice[i - 1] as f32)) / 2.0;
    }
    Some(med)
}

#[test]
fn median_odd_check() {
    let mut test_vec = [
        [0, 0, 0, 0, 0, 0, 0, 0, 1],
        [1, 1, 0, 1, 1, 0, 0, 0, 1],
        [9, 1, 8, 2, 7, 3, 6, 3, 5],
        [1, 1, 1, 1, 7, 3, 6, 3, 5],
        [9, 1, 8, 2, 7, 0, 0, 0, 0],
    ];
    for i in 0..test_vec.len() {
        let v = &mut test_vec[i];
        assert_eq!(v.len() % 2, 1);
        let a = median_select(v);
        let b = median_mut(v);
        assert_eq!(a, b);
    }
}

#[test]
fn median_even_check() {
    let mut test_vec = [
        [0, 0, 0, 0, 0, 0, 0, 1],
        [1, 1, 0, 1, 0, 0, 0, 1],
        [9, 1, 8, 2, 3, 6, 3, 5],
        [1, 1, 1, 1, 3, 6, 3, 5],
        [9, 1, 8, 2, 0, 0, 0, 0],
    ];
    for i in 0..test_vec.len() {
        let v = &mut test_vec[i];
        assert_eq!(v.len() % 2, 0);
        let a = median_select(v);
        let b = median_mut(v);
        assert_eq!(a, b);
    }
}

#[test]
fn median_scenario() {
    let arr = [1, 2, 6, 7, 6, 1];
    assert_eq!(median_select(&arr), Some(4.0));
    assert_eq!(median_pair(&arr), Some((2, 6)));
}

#[test]
fn median_pair_empty() {
    let empty: [u8; 0] = [];
    assert_eq!(median_pair(&empty), None);
}

#[test]
fn median_pair_idempotent() {
    // The input is borrowed immutably and the result is pinned by the
    // contract: a second call reports the same pair, and the input is
    // untouched.
    let arr = [1, 2, 6, 7, 6, 1];
    let first = median_pair(&arr);
    let second = median_pair(&arr);
    assert_eq!(first, second);
    assert_eq!(arr, [1, 2, 6, 7, 6, 1]);
}

#[test]
fn median_pair_equal_middles() {
    // Even length with both middle ranks on the same value: no averaging is
    // needed, the pair collapses.
    let arr = [3, 9, 3, 3];
    assert_eq!(median_pair(&arr), Some((3, 3)));
}
