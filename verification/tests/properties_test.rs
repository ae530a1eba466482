use prime_factors::generate;

fn is_prime(p: i32) -> bool {
    if p < 2 {
        return false;
    }
    let mut d: i32 = 2;
    while d < p {
        if p % d == 0 {
            return false;
        }
        d = d + 1;
    }
    true
}

#[test]
fn product_of_factors_restores_input() {
    for n in 1i32..=500 {
        let mut product: i32 = 1;
        for f in generate(n) {
            product = product * f;
        }
        assert_eq!(product, n);
    }
    let mut product: i32 = 1;
    for f in generate(245388) {
        product = product * f;
    }
    assert_eq!(product, 245388);
}

#[test]
fn every_factor_is_prime() {
    for n in 1i32..=500 {
        for f in generate(n) {
            assert!(is_prime(f));
        }
    }
    for f in generate(30030) {
        assert!(is_prime(f));
    }
}

#[test]
fn factors_come_in_ascending_order() {
    for n in 1i32..=500 {
        let v = generate(n);
        for i in 1usize..v.len() {
            assert!(v[i - 1] <= v[i]);
        }
    }
    let v = generate(30030);
    for i in 1usize..v.len() {
        assert!(v[i - 1] <= v[i]);
    }
}

#[test]
fn prime_input_is_its_own_only_factor() {
    assert_eq!(generate(7919), vec![7919]);
    assert_eq!(generate(104729), vec![104729]);
}

#[test]
fn prime_powers() {
    assert_eq!(generate(1024), vec![2, 2, 2, 2, 2, 2, 2, 2, 2, 2]);
    assert_eq!(generate(169), vec![13, 13]);
}

#[test]
fn largest_even_input() {
    assert_eq!(generate(2147483646), vec![2, 3, 3, 7, 11, 31, 151, 331]);
}
