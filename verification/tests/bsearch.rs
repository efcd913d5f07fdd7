use relly::bsearch::binary_search_by;

#[test]
fn bsearch_test() {
    let a = vec![1, 2, 3, 5, 8, 13, 21];

    assert_eq!(Ok(0), binary_search_by(a.len(), |idx| a[idx].cmp(&1)));
    assert_eq!(Ok(1), binary_search_by(a.len(), |idx| a[idx].cmp(&2)));
    assert_eq!(Ok(4), binary_search_by(a.len(), |idx| a[idx].cmp(&8)));
    assert_eq!(Ok(6), binary_search_by(a.len(), |idx| a[idx].cmp(&21)));

    assert_eq!(Err(0), binary_search_by(a.len(), |idx| a[idx].cmp(&0)));
    assert_eq!(Err(4), binary_search_by(a.len(), |idx| a[idx].cmp(&6)));
    assert_eq!(Err(7), binary_search_by(a.len(), |idx| a[idx].cmp(&22)));
}

#[test]
fn bsearch_empty_range_is_insertion_at_zero() {
    assert_eq!(Err(0), binary_search_by(0, |_idx| std::cmp::Ordering::Equal));
}

#[test]
fn bsearch_every_element_is_found() {
    let a: Vec<u32> = (0..100).map(|x| x * 3).collect();
    for (i, v) in a.iter().enumerate() {
        assert_eq!(Ok(i), binary_search_by(a.len(), |idx| a[idx].cmp(v)));
        assert_eq!(Err(i + 1), binary_search_by(a.len(), |idx| a[idx].cmp(&(v + 1))));
    }
}
