use calculator::bignum::Bignum;
use calculator::domain_error::DomainError;
use std::str::FromStr;

#[test]
fn bignum_from_string() {
    let num = Bignum::from_str("-0x12AFBCDE0");
    assert!(num.is_ok());
    let num = num.unwrap();
    assert!(num.has_sign());
    assert_eq!(num.get_radix(), 16);

    let num = Bignum::from_str("0B111001");
    assert!(num.is_ok());
    let num = num.unwrap();
    assert!(!num.has_sign());
    assert_eq!(num.get_radix(), 2);

    let num = Bignum::from_str("12AFB0");
    assert!(num.is_err());

    let num = Bignum::from_str("-0o1276340");
    assert!(num.is_ok());
    let num = num.unwrap();
    assert!(num.has_sign());
    assert_eq!(num.get_radix(), 8);
}

#[test]
fn bignum_to_string() {
    let num = Bignum::new_negative(vec![0, 1, 2, 5, 9], 10);
    let num: String = num.unwrap().into_string();
    assert_eq!(num, "-95210");

    let num = Bignum::new_positive(vec![0, 1, 1, 1, 0], 2);
    let num: String = num.unwrap().into_string();
    assert_eq!(num, "0B1110");

    let num = Bignum::new_negative(vec![3, 10, 12, 15], 16);
    let num: String = num.unwrap().into_string();
    assert_eq!(num, "-0XFCA3");
}

#[test]
fn bignum_addition() {
    let num1 = &Bignum::from_str("12345678901234567890").unwrap();
    let num2 = &Bignum::from_str("98765432109876543210").unwrap();
    let result = num1 + num2;
    let expected = Bignum::from_str("111111111011111111100").unwrap();
    assert_eq!(result.unwrap(), expected);
}

#[test]
fn bignum_subtraction() {
    let num1 = &Bignum::from_str("12345678901234567890").unwrap();
    let num2 = &Bignum::from_str("98765432109876543210").unwrap();
    let result = num1 - num2;
    let expected = Bignum::from_str("-86419753208641975320").unwrap();
    assert_eq!(result.unwrap(), expected);
}

#[test]
fn decimal_bignum_multiplication() {
    let num1 = &Bignum::from_str("-37").unwrap();
    let num2 = &Bignum::from_str("-176").unwrap();
    let result = num1 * num2;
    let expected = Bignum::from_str("6512").unwrap();
    assert_eq!(result.unwrap(), expected);
}

#[test]
fn hex_bignum_multiplication() {
    let num1 = &Bignum::from_str("0X2B5").unwrap();
    let num2 = &Bignum::from_str("-0XA4F").unwrap();
    let result = num1 * num2;
    let expected = Bignum::from_str("-0X1BE7DB").unwrap();
    assert_eq!(result.unwrap(), expected);
}

#[test]
fn divide_by_zero() {
    let num1 = &Bignum::from_str("0xAF30").unwrap();
    let num2 = &Bignum::from_str("0x0").unwrap();
    let result = num1 / num2;
    assert!(result.is_err());
    let e = result.unwrap_err();
    assert_eq!(e, DomainError::DivisionByZero);
}

#[test]
fn bignum_divisor_less_than_dividend() {
    let num1 = &Bignum::from_str("-0x123").unwrap();
    let num2 = &Bignum::from_str("-0x456").unwrap();
    let result = num1 / num2;
    let result = result.unwrap();
    let quotient = Bignum::from_str("0X0").unwrap();
    let remainder = Bignum::from_str("-0x123").unwrap();
    assert_eq!(result.0, quotient);
    assert_eq!(result.1, remainder);
}

#[test]
fn hex_bignum_division() {
    let num1 = &Bignum::from_str("0X2B5ACF0852E0").unwrap();
    let num2 = &Bignum::from_str("-0XA4BC32").unwrap();
    let result = num1 / num2;
    let result = result.unwrap();
    let quotient = Bignum::from_str("-0x435FA8").unwrap();
    let remainder = Bignum::from_str("-0X4410").unwrap();
    assert_eq!(result.0, quotient);
    assert_eq!(result.1, remainder);
}

#[test]
fn division_of_equal_magnitudes() {
    let num1 = &Bignum::from_str("-77").unwrap();
    let num2 = &Bignum::from_str("77").unwrap();
    let (q, r) = (num1 / num2).unwrap();
    assert_eq!(q.into_string(), "-1");
    assert_eq!(r.into_string(), "0");
}

#[test]
fn decimal_division_with_remainder() {
    let num1 = &Bignum::from_str("1000").unwrap();
    let num2 = &Bignum::from_str("7").unwrap();
    let (q, r) = (num1 / num2).unwrap();
    assert_eq!(q.into_string(), "142");
    assert_eq!(r.into_string(), "6");
}

#[test]
fn division_of_opposite_signs_negates_both() {
    let num1 = &Bignum::from_str("55").unwrap();
    let num2 = &Bignum::from_str("-10").unwrap();
    let (q, r) = (num1 / num2).unwrap();
    assert_eq!(q.into_string(), "-5");
    assert_eq!(r.into_string(), "-5");
}

#[test]
fn exact_division_leaves_an_unsigned_zero() {
    let num1 = &Bignum::from_str("6").unwrap();
    let num2 = &Bignum::from_str("-3").unwrap();
    let (q, r) = (num1 / num2).unwrap();
    assert_eq!(q.into_string(), "-2");
    assert!(!r.has_sign());
    assert_eq!(r.into_string(), "0");
}

#[test]
fn division_of_long_numbers_is_exact() {
    let num1 = &Bignum::from_str(&"9".repeat(120)).unwrap();
    let num2 = &Bignum::from_str("123456789").unwrap();
    let (q, r) = (num1 / num2).unwrap();
    assert!(r.lt(num2));
    assert!(!r.has_sign());
    let back = (&(&q * num2).unwrap() + &r).unwrap();
    assert_eq!(&back, num1);
}

#[test]
fn operations_refuse_different_radixes() {
    let num1 = &Bignum::from_str("0x10").unwrap();
    let num2 = &Bignum::from_str("10").unwrap();
    assert_eq!((num1 + num2).unwrap_err(), DomainError::NotSameRadix(16, 10));
    assert_eq!((num1 - num2).unwrap_err(), DomainError::NotSameRadix(16, 10));
    assert_eq!((num1 * num2).unwrap_err(), DomainError::NotSameRadix(16, 10));
    assert_eq!((num1 / num2).unwrap_err(), DomainError::NotSameRadix(16, 10));
}

#[test]
fn addition_keeps_the_top_carry() {
    let num1 = &Bignum::from_str("5").unwrap();
    let num2 = &Bignum::from_str("5").unwrap();
    assert_eq!((num1 + num2).unwrap().into_string(), "10");
    let num3 = &Bignum::from_str("-5").unwrap();
    assert_eq!((num1 - num3).unwrap().into_string(), "10");
    assert_eq!((num3 + num3).unwrap().into_string(), "-10");
}

#[test]
fn subtraction_of_equal_numbers_is_unsigned_zero() {
    let num1 = &Bignum::from_str("-0x1f").unwrap();
    let d = (num1 - num1).unwrap();
    assert!(!d.has_sign());
    assert_eq!(d.into_string(), "0X0");
}

#[test]
fn addition_of_opposite_signs() {
    let num1 = &Bignum::from_str("-250").unwrap();
    let num2 = &Bignum::from_str("1003").unwrap();
    assert_eq!((num1 + num2).unwrap().into_string(), "753");
    assert_eq!((num2 + num1).unwrap().into_string(), "753");
}

#[test]
fn parse_reports_the_digit_text() {
    let e = Bignum::from_str("-0x12g4").unwrap_err();
    assert_eq!(e, DomainError::ParsingError { input: "12G4".to_string() });
}

#[test]
fn parse_reads_lower_case_prefix_and_digits() {
    // Only an upper-casing of the text makes "0xab" hexadecimal.
    let num = Bignum::from_str("0xab").unwrap();
    assert_eq!(num.get_radix(), 16);
    assert_eq!(num.map(false), vec![11, 10]);
}

#[test]
fn octal_numbers_are_written_with_prefix_00() {
    let num = Bignum::from_str("0o17").unwrap();
    assert_eq!(num.into_string(), "0017");
}

#[test]
fn printing_then_parsing_gives_the_number_back() {
    for text in ["-0X1F", "0B101", "98765", "-4"] {
        let num = Bignum::from_str(text).unwrap();
        let again = Bignum::from_str(&num.clone().into_string()).unwrap();
        assert_eq!(num, again);
    }
}

#[test]
fn error_messages() {
    assert_eq!(DomainError::RadixNotMatch(16).message(), "The given input has wrong format for radix(16)");
    assert_eq!(
        DomainError::ParsingError { input: "X1".to_string() }.message(),
        "Wrong format input X1"
    );
    assert_eq!(DomainError::NotSameRadix(2, 10).message(), "Two given number radix (210) not same");
    assert_eq!(
        DomainError::DivisionByZero.message(),
        "The given denominator is zero and not valid for operation"
    );
}

#[test]
fn subtraction_is_antisymmetric() {
    let a = &Bignum::from_str("0x5f3").unwrap();
    let b = &Bignum::from_str("0x1ab4").unwrap();
    let d1 = (a - b).unwrap();
    let d2 = (b - a).unwrap();
    assert_eq!(d1.into_string(), "-0X14C1");
    assert_eq!(d2.into_string(), "0X14C1");
}

#[test]
fn addition_is_commutative() {
    let a = &Bignum::from_str("-123456789").unwrap();
    let b = &Bignum::from_str("987").unwrap();
    assert_eq!((a + b).unwrap(), (b + a).unwrap());
}

#[test]
fn multiplication_of_long_numbers_is_the_product() {
    let a = &Bignum::from_str("123456789012345678901234567890").unwrap();
    let b = &Bignum::from_str("-987654321098765432109876543210").unwrap();
    let p = (a * b).unwrap();
    assert_eq!(
        p.into_string(),
        "-121932631137021795226185032733622923332237463801111263526900"
    );
}

#[test]
fn division_identity_holds_for_the_hex_example() {
    let a = &Bignum::from_str("0X2B5ACF0852E0").unwrap();
    let b = &Bignum::from_str("0XA4BC32").unwrap();
    let (q, r) = (a / b).unwrap();
    let back = (&(&q * b).unwrap() + &r).unwrap();
    assert_eq!(&back, a);
}

#[test]
fn multiplication_is_commutative() {
    let a = &Bignum::from_str("-0X2B5").unwrap();
    let b = &Bignum::from_str("0XA4F").unwrap();
    assert_eq!((a * b).unwrap(), (b * a).unwrap());
    assert_eq!((a * b).unwrap(), Bignum::from_str("-0X1BE7DB").unwrap());
    let long_a = &Bignum::from_str(&"7".repeat(200)).unwrap();
    let long_b = &Bignum::from_str(&"3".repeat(150)).unwrap();
    assert_eq!((long_a * long_b).unwrap(), (long_b * long_a).unwrap());
}

#[test]
fn multiplication_of_very_long_numbers_is_the_product() {
    // 10^200 * 10^200 = 10^400
    let mut a_text = "1".to_string();
    a_text.push_str(&"0".repeat(200));
    let mut p_text = "1".to_string();
    p_text.push_str(&"0".repeat(400));
    let a = &Bignum::from_str(&a_text).unwrap();
    assert_eq!((a * a).unwrap().into_string(), p_text);
}
