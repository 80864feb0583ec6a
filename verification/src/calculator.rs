//! The calculator's operations on numbers given as text.
use vstd::prelude::*;
use crate::arithmetic::{
    add_numbers, add_result, mul_numbers, mul_result, operands_ok, sub_numbers, sub_result,
};
use crate::bignum::{Bignum, BignumView, new_view};
use crate::digits::{all_zero, ints};
use crate::division::{add_view, div_numbers, div_views, mul_view, sub_view};
use crate::domain_error::{DomainError, error_message};
use crate::text::{
    all_digits, digit_text, is_negative_text, number_text, parse_result, prefix_radix, text_digits,
    unsigned_text,
};

verus! {

/// The calculator.
#[derive(Clone)]
pub struct Calculator;

/// The text `s` reads as a number.
pub open spec fn parses(s: Seq<char>) -> bool {
    all_digits(digit_text(unsigned_text(s)), prefix_radix(unsigned_text(s)))
}

/// The number that the text `s` reads as, when it does.
pub open spec fn parsed(s: Seq<char>) -> BignumView {
    new_view(
        text_digits(digit_text(unsigned_text(s))),
        prefix_radix(unsigned_text(s)),
        is_negative_text(s),
    )
}

/// The text of the error that `calculate` gives for an operand that is not a number.
pub open spec fn wrong_format_input() -> Seq<char> {
    "number format is wrong!"@
}

/// What a text operation gives when both operands are numbers, `x` and `y`
/// being those numbers and `z` the result of the operation on them: the text
/// of the result, or the text of the error when the radixes differ.
pub open spec fn text_outcome(x: BignumView, y: BignumView, z: BignumView, r: Result<String, String>) -> bool {
    if x.radix != y.radix {
        r matches Err(e) && e@ == error_message(DomainError::NotSameRadix(x.radix, y.radix))
    } else {
        r matches Ok(t) && t@ == number_text(z)
    }
}

/// What a text operation gives when an operand is not a number: the text
/// of the `ParsingError` that `calculate` gives.
pub open spec fn wrong_format_outcome(r: Result<String, String>) -> bool {
    r matches Err(e) && e@ == "Wrong format input "@ + wrong_format_input()
}

/// What dividing one text by another gives when both are numbers, `x` and
/// `y`: the text of the quotient, `", "` and the text of the remainder, or
/// the text of the error when the radixes differ or `y` is zero.
pub open spec fn division_outcome(x: BignumView, y: BignumView, r: Result<String, String>) -> bool {
    if x.radix != y.radix {
        r matches Err(e) && e@ == error_message(DomainError::NotSameRadix(x.radix, y.radix))
    } else if all_zero(ints(y.digits)) {
        r matches Err(e) && e@ == error_message(DomainError::DivisionByZero)
    } else {
        r matches Ok(t) && t@ == number_text(div_views(x, y).0) + ", "@ + number_text(
            div_views(x, y).1,
        )
    }
}

fn add_operands(x: &Bignum, y: &Bignum) -> (z: Result<Bignum, DomainError>)
    requires
        operands_ok(x@, y@),
    ensures
        add_result(x@, y@, z),
{
    add_numbers(x, y)
}

fn subtract_operands(x: &Bignum, y: &Bignum) -> (z: Result<Bignum, DomainError>)
    requires
        operands_ok(x@, y@),
    ensures
        sub_result(x@, y@, z),
{
    sub_numbers(x, y)
}

fn multiply_operands(x: &Bignum, y: &Bignum) -> (z: Result<Bignum, DomainError>)
    requires
        x@.radix == y@.radix ==> x@.radix >= 1,
    ensures
        mul_result(x@, y@, z),
{
    mul_numbers(x, y)
}

impl Calculator {
    /// Reads both operands and applies `f` to them; when either is not a
    /// number the result is `ParsingError` with the text
    /// "number format is wrong!".
    pub fn calculate<Calc>(a: &str, b: &str, f: Calc) -> (r: Result<Bignum, DomainError>) where
        Calc: Fn(&Bignum, &Bignum) -> Result<Bignum, DomainError>,

        requires
            forall|x: &Bignum, y: &Bignum|
                2 <= x@.radix <= 16 && 2 <= y@.radix <= 16 ==> #[trigger] f.requires((x, y)),
        ensures
            parses(a@) && parses(b@) ==> exists|x: Bignum, y: Bignum|
                x@ == parsed(a@) && y@ == parsed(b@) && #[trigger] f.ensures((&x, &y), r),
            !(parses(a@) && parses(b@)) ==> (r matches Err(DomainError::ParsingError { input })
                && input@ == wrong_format_input()),
    {
        let x = Bignum::parse(a);
        let y = Bignum::parse(b);
        match (x, y) {
            (Ok(x), Ok(y)) => {
                let r = f(&x, &y);
                r
            },
            _ => Err(DomainError::ParsingError { input: String::from_str("number format is wrong!") }),
        }
    }
}

impl Calculator {
    /// Adds two numbers given as text. The result is the text of the result, or the text of the error.
    pub fn add(&self, a: &str, b: &str) -> (r: Result<String, String>)
        ensures
            parses(a@) && parses(b@) ==> text_outcome(
                parsed(a@),
                parsed(b@),
                add_view(parsed(a@), parsed(b@)),
                r,
            ),
            !(parses(a@) && parses(b@)) ==> wrong_format_outcome(r),
    {
        let res = Self::calculate(
            a,
            b,
            add_operands,
        );
        match res {
            Ok(n) => Ok(n.into_string()),
            Err(e) => Err(e.message()),
        }
    }

    /// Subtracts the second number from the first, both given as text. The result is the text of the result, or the text of the error.
    pub fn subtract(&self, a: &str, b: &str) -> (r: Result<String, String>)
        ensures
            parses(a@) && parses(b@) ==> text_outcome(
                parsed(a@),
                parsed(b@),
                sub_view(parsed(a@), parsed(b@)),
                r,
            ),
            !(parses(a@) && parses(b@)) ==> wrong_format_outcome(r),
    {
        let res = Self::calculate(
            a,
            b,
            subtract_operands,
        );
        match res {
            Ok(n) => Ok(n.into_string()),
            Err(e) => Err(e.message()),
        }
    }

    /// Multiplies two numbers given as text. The result is the text of the result, or the text of the error.
    pub fn multiply(&self, a: &str, b: &str) -> (r: Result<String, String>)
        ensures
            parses(a@) && parses(b@) ==> text_outcome(
                parsed(a@),
                parsed(b@),
                mul_view(parsed(a@), parsed(b@)),
                r,
            ),
            !(parses(a@) && parses(b@)) ==> wrong_format_outcome(r),
    {
        let res = Self::calculate(
            a,
            b,
            multiply_operands,
        );
        match res {
            Ok(n) => Ok(n.into_string()),
            Err(e) => Err(e.message()),
        }
    }

    /// Divides the first number by the second, both given as text. The result
    /// is the text of the quotient and of the remainder, separated by `", "`,
    /// or the text of the error.
    pub fn divide(&self, a: &str, b: &str) -> (r: Result<String, String>)
        ensures
            parses(a@) && parses(b@) ==> division_outcome(parsed(a@), parsed(b@), r),
            !(parses(a@) && parses(b@)) ==> wrong_format_outcome(r),
    {
        let x = Bignum::parse(a);
        let y = Bignum::parse(b);
        match (x, y) {
            (Ok(x), Ok(y)) => match div_numbers(&x, &y) {
                Ok((q, m)) => {
                    let mut t = q.into_string();
                    t.append(", ");
                    let ms = m.into_string();
                    t.append(ms.as_str());
                    Ok(t)
                },
                Err(e) => Err(e.message()),
            },
            _ => {
                let e = DomainError::ParsingError {
                    input: String::from_str("number format is wrong!"),
                };
                Err(e.message())
            },
        }
    }
}

} // verus!
