use multmult::{perm, MultError, MultMult};

fn factorial(n: u128) -> u128 {
    (1..=n).product()
}

#[test]
fn driver_sequence() {
    let mut mm = MultMult::new();
    mm.mul_fact(5).unwrap();
    mm.div_fact(5).unwrap();
    mm.mul_fact(7).unwrap();
    mm.div_fact(6).unwrap();
    mm.mul_comb(5, 2).unwrap();
    mm.div_perm(9, 2).unwrap();
    let (n, d) = mm.value().unwrap();
    assert_eq!((n, d), (35, 36));
    let v = n as f64 / d as f64;
    assert!((v - 7.0 * 10.0 / 72.0).abs() < 1e-12);
}

#[test]
fn factorial_over_itself() {
    for n in [0usize, 1, 2, 5, 10, 50, 200] {
        let mut mm = MultMult::new();
        mm.mul_fact(n).unwrap();
        mm.div_fact(n).unwrap();
        assert_eq!(mm.value(), Ok((1, 1)), "n = {}", n);
    }
}

#[test]
fn factorial_alone() {
    for n in 0..=25usize {
        let mut mm = MultMult::new();
        mm.mul_fact(n).unwrap();
        assert_eq!(mm.value(), Ok((factorial(n as u128), 1)), "n = {}", n);
    }
}

#[test]
fn divide_factorial_alone() {
    let mut mm = MultMult::new();
    mm.div_fact(5).unwrap();
    assert_eq!(mm.value(), Ok((1, 120)));
}

#[test]
fn permutation_then_factorial_is_combination() {
    for (l, r) in [(10usize, 4usize), (5, 2), (7, 7), (6, 0), (30, 13)] {
        let mut a = MultMult::new();
        a.mul_perm(l, r).unwrap();
        a.div_perm(r, r).unwrap();
        let mut b = MultMult::new();
        b.mul_comb(l, r).unwrap();
        assert_eq!(a.value(), b.value(), "({}, {})", l, r);
    }
    let mut c = MultMult::new();
    c.mul_comb(10, 4).unwrap();
    assert_eq!(c.value(), Ok((210, 1)));
}

#[test]
fn divide_combination() {
    let mut mm = MultMult::new();
    mm.div_comb(6, 3).unwrap();
    assert_eq!(mm.value(), Ok((1, 20)));
}

#[test]
fn order_does_not_matter() {
    let mut a = MultMult::new();
    a.mul_fact(12).unwrap();
    a.div_perm(9, 4).unwrap();
    a.mul_comb(8, 3).unwrap();
    a.div_fact(4).unwrap();
    let mut b = MultMult::new();
    b.div_fact(4).unwrap();
    b.mul_comb(8, 3).unwrap();
    b.div_perm(9, 4).unwrap();
    b.mul_fact(12).unwrap();
    let va = a.value().unwrap();
    assert_eq!(va, b.value().unwrap());
    // 12! / (9*8*7*6) * 56 / 24 = 479001600 / 3024 * 56 / 24
    assert_eq!(va, (369600, 1));
}

#[test]
fn value_twice_is_identical() {
    let mut mm = MultMult::new();
    mm.mul_fact(9).unwrap();
    mm.div_perm(11, 3).unwrap();
    let first = mm.value();
    let second = mm.value();
    assert_eq!(first, second);
    assert_eq!(first, Ok((4032, 11)));
}

#[test]
fn empty_products() {
    let mut a = MultMult::new();
    a.mul_perm(0, 0).unwrap();
    assert_eq!(a.value(), Ok((1, 1)));
    let mut b = MultMult::new();
    b.mul_perm(5, 0).unwrap();
    assert_eq!(b.value(), Ok((1, 1)));
    let mut c = MultMult::new();
    c.mul_fact(4).unwrap();
    c.mul_perm(5, 0).unwrap();
    c.mul_perm(0, 0).unwrap();
    assert_eq!(c.value(), Ok((24, 1)));
}

#[test]
fn invalid_range_changes_nothing() {
    let mut mm = MultMult::new();
    assert_eq!(mm.mul_perm(3, 5), Err(MultError::InvalidRange));
    assert_eq!(mm.div_perm(3, 5), Err(MultError::InvalidRange));
    assert_eq!(mm.mul_comb(1, 2), Err(MultError::InvalidRange));
    assert_eq!(mm.div_comb(0, 1), Err(MultError::InvalidRange));
    assert_eq!(mm.value(), Err(MultError::EmptyAccumulator));

    let mut other = MultMult::new();
    other.mul_fact(6).unwrap();
    assert_eq!(other.value(), Ok((720, 1)));
    assert_eq!(other.mul_perm(3, 5), Err(MultError::InvalidRange));
    assert_eq!(other.value(), Ok((720, 1)));
}

#[test]
fn empty_accumulator() {
    let mut mm = MultMult::new();
    assert_eq!(mm.value(), Err(MultError::EmptyAccumulator));
}

#[test]
fn exponents_persist_across_values() {
    let mut mm = MultMult::new();
    mm.mul_fact(5).unwrap();
    assert_eq!(mm.value(), Ok((120, 1)));
    mm.mul_fact(3).unwrap();
    assert_eq!(mm.value(), Ok((720, 1)));
    mm.div_perm(10, 2).unwrap();
    assert_eq!(mm.value(), Ok((8, 1)));
}

#[test]
fn ratio_too_large_then_reduced() {
    let mut mm = MultMult::new();
    mm.mul_fact(40).unwrap();
    assert_eq!(mm.value(), Err(MultError::Overflow));
    mm.div_fact(39).unwrap();
    assert_eq!(mm.value(), Ok((40, 1)));
}

#[test]
fn range_end_overflows() {
    let mut mm = MultMult::new();
    assert_eq!(mm.mul_perm(usize::MAX, 1), Err(MultError::Overflow));
    assert_eq!(mm.mul_comb(usize::MAX, 0), Ok(()));
    assert_eq!(mm.value(), Ok((1, 1)));
}

#[test]
fn large_factorial_ratio() {
    let mut mm = MultMult::new();
    mm.mul_fact(1000).unwrap();
    mm.div_fact(997).unwrap();
    assert_eq!(mm.value(), Ok((1000 * 999 * 998, 1)));
}

#[test]
fn perm_ranges() {
    assert_eq!(perm(9, 2), Ok((8, 9)));
    assert_eq!(perm(5, 5), Ok((1, 5)));
    assert_eq!(perm(0, 0), Ok((1, 1)));
    assert_eq!(perm(5, 0), Ok((1, 1)));
    assert_eq!(perm(3, 5), Err(MultError::InvalidRange));
}
