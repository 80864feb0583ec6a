use calculator::bignum::Bignum;

#[test]
fn bignum_new_with_given_radix() {
    let num = Bignum::new_positive(vec![0, 2, 3], 2);
    assert!(num.is_err());
    let num = Bignum::new_negative(vec![0, 12, 3, 0], 10);
    assert!(num.is_err());
}

#[test]
fn bignum_from_irregular_source() {
    let source = vec![0i64, -1, 12, -25, 1];
    let num = Bignum::from_iter(source, 10).unwrap();
    assert!(num.has_sign());
    let digits = num.map(false);
    assert_eq!(digits, vec![0, 1, 8, 3, 1]);
}

#[test]
fn bignum_zero_without_sign() {
    let num = Bignum::new_negative(vec![0, 0, 0], 2).unwrap();
    assert!(!num.has_sign());
}

#[test]
fn bignum_map_with_sign() {
    let num = Bignum::new_negative(vec![0, 1, 0, 1, 0, 0], 2).unwrap();
    let mapped = num.map(true);
    assert!(num.has_sign());
    assert_eq!(mapped, vec![0, -1, 0, -1]);
}

#[test]
fn bignum_reverse_sign() {
    let num_pos = Bignum::new_positive(vec![0, 3, 5, 2], 10).unwrap();
    let num_neg = num_pos.reverse();
    assert!(!num_pos.has_sign());
    assert!(num_neg.has_sign());
    let digits = num_neg.map(false);
    assert_eq!(digits, vec![0, 3, 5, 2]);
}

#[test]
fn bignum_equality() {
    let c1 = Bignum::new_negative(vec![0, 2, 3, 0], 10).unwrap();
    let c1_trim = Bignum::new_negative(vec![0, 2, 3, 0, 0], 10).unwrap();
    assert_eq!(c1, c1_trim);

    let p = Bignum::new_positive(vec![0, 2, 3, 0], 10).unwrap();
    let n = Bignum::new_negative(vec![0, 2, 3, 0, 0], 10).unwrap();
    assert_ne!(p, n);

    let n = Bignum::new_negative(vec![0, 2, 3, 0, 0], 10).unwrap();
    let r = Bignum::new_positive(vec![0, 2, 3, 0, 0], 16).unwrap();
    assert_ne!(n, r);
}

#[test]
fn new_reports_the_radix_that_does_not_match() {
    let num = Bignum::new_positive(vec![1, 7], 5);
    assert_eq!(num.unwrap_err(), calculator::domain_error::DomainError::RadixNotMatch(5));
}

#[test]
fn new_trims_and_keeps_digits() {
    let num = Bignum::new_positive(vec![4, 0, 9, 0, 0], 10).unwrap();
    assert_eq!(num.len(), 3);
    assert_eq!(num.get_radix(), 10);
    assert_eq!(num.map(false), vec![4, 0, 9]);
}

#[test]
fn new_of_no_digits_is_zero() {
    let num = Bignum::new_negative(vec![], 7).unwrap();
    assert_eq!(num.map(true), vec![0]);
    assert!(!num.has_sign());
}

#[test]
fn from_iter_carries_positive_digits() {
    // 15 + 7 * 10 = 85
    let num = Bignum::from_iter(vec![15, 7], 10).unwrap();
    assert!(!num.has_sign());
    assert_eq!(num.map(false), vec![5, 8]);
}

#[test]
fn from_iter_appends_the_final_carry() {
    // 9 + 25 * 10 = 259
    let num = Bignum::from_iter(vec![9, 25], 10).unwrap();
    assert_eq!(num.map(false), vec![9, 5, 2]);
}

#[test]
fn from_iter_keeps_an_exact_top_carry() {
    // The top position sums to exactly the radix: 10.
    let num = Bignum::from_iter(vec![10], 10).unwrap();
    assert_eq!(num.map(true), vec![0, 1]);
    assert!(!num.has_sign());
}

#[test]
fn from_iter_takes_the_sign_of_the_value() {
    // -1 + 10 * 10 = 99
    let num = Bignum::from_iter(vec![-1, 10], 10).unwrap();
    assert!(!num.has_sign());
    assert_eq!(num.map(false), vec![9, 9]);
    // 1 - 10 * 10 = -99
    let num = Bignum::from_iter(vec![1, -10], 10).unwrap();
    assert!(num.has_sign());
    assert_eq!(num.map(false), vec![9, 9]);
}

#[test]
fn reverse_leaves_zero_unsigned() {
    let zero = Bignum::new_positive(vec![0], 10).unwrap();
    assert!(!zero.reverse().has_sign());
    assert_eq!(zero.reverse(), zero);
    let five = Bignum::new_positive(vec![5], 10).unwrap();
    assert_eq!(five.reverse().reverse(), five);
}

#[test]
fn from_iter_of_nothing_is_zero() {
    let num = Bignum::from_iter(vec![], 10).unwrap();
    assert_eq!(num.map(true), vec![0]);
}

#[test]
fn from_vec_keeps_digits_in_radix_sixteen() {
    let num: Bignum = Bignum::from(vec![3, 0, 20]);
    assert_eq!(num.get_radix(), 16);
    assert!(num.has_sign());
    assert_eq!(num.map(false), vec![3, 0, 20]);
}

#[test]
fn clone_is_equal() {
    let num = Bignum::new_negative(vec![1, 2], 3).unwrap();
    let copy = num.clone();
    assert_eq!(num, copy);
}

#[test]
fn zero_and_abs_and_truncate() {
    let num = Bignum::new_negative(vec![1, 2, 3], 10).unwrap();
    assert!(!num.is_zero());
    assert!(Bignum::new_positive(vec![0, 0], 10).unwrap().is_zero());
    let a = num.abs();
    assert!(!a.has_sign());
    assert_eq!(a.map(false), vec![1, 2, 3]);
    let t = num.clone().truncate(1);
    assert!(t.has_sign());
    assert_eq!(t.map(false), vec![2, 3]);
    let t = num.truncate(5);
    assert_eq!(t.map(true), vec![0]);
    assert!(!t.has_sign());
}

#[test]
fn comparison_by_value() {
    let a = Bignum::new_negative(vec![5], 10).unwrap();
    let b = Bignum::new_positive(vec![3], 10).unwrap();
    let c = Bignum::new_positive(vec![0, 1], 10).unwrap();
    assert!(a.lt(&b));
    assert!(!b.lt(&a));
    assert!(b.lt(&c));
    assert!(b.le(&b));
    assert!(!b.lt(&b));
}
