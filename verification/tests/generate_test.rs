use prime_factors::generate;

#[test]
fn test_one() {
    let empty: Vec<i32> = Vec::new();

    assert_eq!(generate(1), empty);
}

#[test]
fn test_23456789() {
    assert_eq!(generate(2), vec![2]);
    assert_eq!(generate(3), vec![3]);
    assert_eq!(generate(4), vec![2, 2]);
    assert_eq!(generate(5), vec![5]);
    assert_eq!(generate(6), vec![2, 3]);
    assert_eq!(generate(7), vec![7]);
    assert_eq!(generate(8), vec![2, 2, 2]);
    assert_eq!(generate(9), vec![3, 3]);
}

#[test]
fn test_large() {
    assert_eq!(generate(2 * 2 * 3 * 3 * 5 * 11 * 13 * 13), vec![2, 2, 3, 3, 5, 11, 13, 13]);
}
