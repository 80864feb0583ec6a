//! The errors of the calculator's domain.
use vstd::prelude::*;

verus! {

/// What can go wrong when numbers are built, parsed or combined.
#[derive(PartialEq, Eq, Debug, Clone)]
pub enum DomainError {
    /// A digit is not below the radix it was given with.
    RadixNotMatch(u8),
    /// A string is not a number; `input` is the part that was read as digits.
    ParsingError { input: String },
    /// Two operands have different radixes.
    NotSameRadix(u8, u8),
    /// A division by zero.
    DivisionByZero,
}

/// The decimal notation of a byte, without leading zeros.
pub open spec fn decimal_chars(n: u8) -> Seq<char> {
    if n >= 100 {
        seq![digit_char((n / 100) as u8), digit_char(((n / 10) % 10) as u8), digit_char((n % 10) as u8)]
    } else if n >= 10 {
        seq![digit_char((n / 10) as u8), digit_char((n % 10) as u8)]
    } else {
        seq![digit_char(n)]
    }
}

/// The character of a decimal digit `d < 10`.
pub open spec fn digit_char(d: u8) -> char {
    ((d as int) + ('0' as int)) as char
}

/// The text of each error.
pub open spec fn error_message(e: DomainError) -> Seq<char> {
    match e {
        DomainError::RadixNotMatch(r) => "The given input has wrong format for radix("@ + decimal_chars(
            r,
        ) + ")"@,
        DomainError::ParsingError { input } => "Wrong format input "@ + input@,
        DomainError::NotSameRadix(a, b) => "Two given number radix ("@ + decimal_chars(a)
            + decimal_chars(b) + ") not same"@,
        DomainError::DivisionByZero => "The given denominator is zero and not valid for operation"@,
    }
}

fn push_decimal(s: &mut String, n: u8)
    ensures
        final(s)@ == old(s)@ + decimal_chars(n),
{
    let mut digits: Vec<char> = Vec::new();
    if n >= 100 {
        digits.push(decimal_digit(n / 100));
    }
    if n >= 10 {
        digits.push(decimal_digit((n / 10) % 10));
    }
    digits.push(decimal_digit(n % 10));
    let ghost start = s@;
    let mut i: usize = 0;
    while i < digits.len()
        invariant
            0 <= i <= digits.len(),
            s@ == start + digits@.take(i as int),
        decreases digits.len() - i,
    {
        push_char(s, digits[i]);
        assert(digits@.take(i + 1) =~= digits@.take(i as int).push(digits@[i as int]));
        i += 1;
    }
    assert(digits@.take(digits.len() as int) =~= digits@);
    assert(digits@ =~= decimal_chars(n));
}

fn decimal_digit(d: u8) -> (c: char)
    requires
        d < 10,
    ensures
        c == digit_char(d),
{
    let chars = ['0', '1', '2', '3', '4', '5', '6', '7', '8', '9'];
    chars[d as usize]
}

/// `String::push`: appends one character.
#[verifier::external_body]
pub(crate) fn push_char(s: &mut String, c: char)
    ensures
        final(s)@ == old(s)@.push(c),
{
    s.push(c);
}

impl DomainError {
    /// The error's text, as it is shown to a user.
    pub fn message(&self) -> (m: String)
        ensures
            m@ == error_message(*self),
    {
        match self {
            DomainError::RadixNotMatch(r) => {
                let mut s = String::from_str("The given input has wrong format for radix(");
                push_decimal(&mut s, *r);
                s.append(")");
                s
            },
            DomainError::ParsingError { input } => {
                let mut s = String::from_str("Wrong format input ");
                s.append(input.as_str());
                s
            },
            DomainError::NotSameRadix(a, b) => {
                let mut s = String::from_str("Two given number radix (");
                push_decimal(&mut s, *a);
                push_decimal(&mut s, *b);
                s.append(") not same");
                s
            },
            DomainError::DivisionByZero => {
                String::from_str("The given denominator is zero and not valid for operation")
            },
        }
    }
}

} // verus!
