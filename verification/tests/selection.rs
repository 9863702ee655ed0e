use approx_pearson_skew::next_min;

#[test]
fn next_min_check() {
    let test_vec = [
        [0, 0, 0, 0, 0, 0, 0, 0],
        [0, 1, 0, 1, 0, 0, 1, 1],
        [8, 1, 4, 5, 6, 3, 2, 7],
        [7, 4, 6, 7, 2, 3, 2, 2],
    ];

    // idx 0
    {
        assert_eq!(next_min(&test_vec[0], None), Some((0, 8)));
        assert_eq!(next_min(&test_vec[0], Some(&0)), None);
        assert_eq!(next_min(&test_vec[0], Some(&1)), None);
    }

    // idx 1
    {
        assert_eq!(next_min(&test_vec[1], None), Some((0, 4)));
        assert_eq!(next_min(&test_vec[1], Some(&0)), Some((1, 4)));
        assert_eq!(next_min(&test_vec[1], Some(&1)), None);
        assert_eq!(next_min(&test_vec[1], Some(&2)), None);
    }

    // idx 2
    {
        assert_eq!(next_min(&test_vec[2], None), Some((1, 1)));
        assert_eq!(next_min(&test_vec[2], Some(&0)), Some((1, 1)));
        assert_eq!(next_min(&test_vec[2], Some(&1)), Some((6, 1)));
        assert_eq!(next_min(&test_vec[2], Some(&2)), Some((5, 1)));
        assert_eq!(next_min(&test_vec[2], Some(&3)), Some((2, 1)));
        assert_eq!(next_min(&test_vec[2], Some(&4)), Some((3, 1)));
        assert_eq!(next_min(&test_vec[2], Some(&5)), Some((4, 1)));
        assert_eq!(next_min(&test_vec[2], Some(&6)), Some((7, 1)));
        assert_eq!(next_min(&test_vec[2], Some(&7)), Some((0, 1)));
        assert_eq!(next_min(&test_vec[2], Some(&8)), None);
        assert_eq!(next_min(&test_vec[2], Some(&9)), None);
    }

    //idx 3
    {
        assert_eq!(next_min(&test_vec[3], None), Some((4, 3)));
        assert_eq!(next_min(&test_vec[3], Some(&0)), Some((4, 3)));
        assert_eq!(next_min(&test_vec[3], Some(&1)), Some((4, 3)));
        assert_eq!(next_min(&test_vec[3], Some(&2)), Some((5, 1)));
        assert_eq!(next_min(&test_vec[3], Some(&3)), Some((1, 1)));
        assert_eq!(next_min(&test_vec[3], Some(&4)), Some((2, 1)));
        assert_eq!(next_min(&test_vec[3], Some(&5)), Some((2, 1)));
        assert_eq!(next_min(&test_vec[3], Some(&6)), Some((0, 2)));
        assert_eq!(next_min(&test_vec[3], Some(&7)), None);
        assert_eq!(next_min(&test_vec[3], Some(&8)), None);
    }
}

#[test]
fn next_min_empty_always_none() {
    let arr: [u8; 0] = [];
    assert_eq!(next_min(&arr, None), None);
    assert_eq!(next_min(&arr, Some(&0)), None);
    assert_eq!(next_min(&arr, Some(&255)), None);
}

#[test]
fn next_min_no_sentinel_nonempty_some() {
    assert!(next_min(&[9], None).is_some());
    assert_eq!(next_min(&[255, 255], None), Some((0, 2)));
    assert_eq!(next_min(&[255, 3, 255], None), Some((1, 1)));
}

#[test]
fn next_min_max_sentinel_none() {
    assert_eq!(next_min(&[0, 128, 255], Some(&255)), None);
    assert_eq!(next_min(&[255, 255], Some(&255)), None);
    assert_eq!(next_min(&[255], Some(&255)), None);
}

#[test]
fn next_min_max_value_found() {
    // The domain maximum is a legitimate found value below the sentinel cap.
    assert_eq!(next_min(&[0, 255, 255], Some(&0)), Some((1, 2)));
    assert_eq!(next_min(&[0, 255, 255], Some(&254)), Some((1, 2)));
}

#[test]
fn next_min_scenario() {
    let arr = [0, 2, 5, 7, 2, 1];
    let found = next_min(&arr, Some(&1));
    let (ind, occurance, value) = (1, 2, 2);
    assert_eq!(found, Some((ind, occurance)));
    assert_eq!(arr[ind], value);
}
