use calculator::bit_reverser::BitReverser;
use calculator::calculator::Calculator;

#[test]
fn bit_reverse_array() {
    let source = vec![0, 1, 2, 3, 4, 5, 6];
    let bit_reverse_array = BitReverser::new(3);
    assert_eq!(bit_reverse_array.get_reverse(&source), vec![0, 4, 2, 6, 1, 5, 3, 0]);
}

#[test]
fn bit_reverse_overwrites_wrapped_positions() {
    let source = vec![1, 2, 3, 4, 5];
    let reverser = BitReverser::new(2);
    // Elements 4 and 5 land where elements 0 and 1 did.
    assert_eq!(reverser.get_reverse(&source), vec![5, 3, 2, 4]);
}

#[test]
fn bit_reverse_of_nothing_is_defaults() {
    let source: Vec<u32> = vec![];
    assert_eq!(BitReverser::new(0).get_reverse(&source), vec![0]);
}

#[test]
fn calculator_adds_text() {
    let c = Calculator;
    assert_eq!(c.add("12", "-0"), Ok("12".to_string()));
    assert_eq!(c.add("0x0f", "0X11"), Ok("0X20".to_string()));
    assert_eq!(c.add("0x0f", "0X01"), Ok("0X10".to_string()));
}

#[test]
fn calculator_subtracts_and_multiplies_text() {
    let c = Calculator;
    assert_eq!(c.subtract("12", "20"), Ok("-8".to_string()));
    assert_eq!(c.multiply("-12", "12"), Ok("-144".to_string()));
}

#[test]
fn calculator_reports_wrong_format() {
    let c = Calculator;
    assert_eq!(c.add("12", "1a"), Err("Wrong format input number format is wrong!".to_string()));
}

#[test]
fn calculator_reports_different_radixes() {
    let c = Calculator;
    assert_eq!(c.multiply("0b1", "1"), Err("Two given number radix (210) not same".to_string()));
}

#[test]
fn calculator_divides_text() {
    let c = Calculator;
    assert_eq!(c.divide("1000", "7"), Ok("142, 6".to_string()));
    assert_eq!(c.divide("-0x123", "-0x456"), Ok("0X0, -0X123".to_string()));
    assert_eq!(
        c.divide("12", "0"),
        Err("The given denominator is zero and not valid for operation".to_string())
    );
    assert_eq!(c.divide("12", "1z"), Err("Wrong format input number format is wrong!".to_string()));
}

#[test]
fn bit_reverse_twice_gives_the_input_back() {
    let r = BitReverser::new(3);
    let s: Vec<u32> = (10..18).collect();
    assert_eq!(r.get_reverse(&r.get_reverse(&s)), s);
}
