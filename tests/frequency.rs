use string_encode_and_decode::top_k_frequent;

#[test]
fn it_works() {
    let nums: Vec<i64> = vec![
        1, 2, 2, 3, 3, 3, 4, 4, 4, 4, 5, 5, 5, 5, 5, 6, 6, 6, 6, 6, 6, 7, 7, 7, 7, 7, 7, 7, 7,
    ];
    let expected: Vec<i64> = vec![5, 6, 7];
    let mut out = top_k_frequent(nums, 3);
    out.sort();
    assert_eq!(out, expected);
}

#[test]
fn most_frequent_comes_first() {
    assert_eq!(top_k_frequent(vec![1, 1, 1, 2, 2, 3], 2), vec![1, 2]);
}

#[test]
fn zero_k_or_empty_input() {
    assert_eq!(top_k_frequent(vec![1, 2, 3], 0), Vec::<i64>::new());
    assert_eq!(top_k_frequent(vec![], 3), Vec::<i64>::new());
}

#[test]
fn fewer_distinct_values_than_k() {
    let mut out = top_k_frequent(vec![4, -4, 4], 5);
    out.sort();
    assert_eq!(out, vec![-4, 4]);
}
