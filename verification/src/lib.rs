//! Arbitrary-radix big integers with signed arithmetic, parsing and printing.
pub mod arithmetic;
pub mod bit_reverser;
pub mod calculator;
pub mod bignum;
pub mod digits;
pub mod division;
pub mod laws;
pub mod domain_error;
pub mod normalize;
pub mod order;
pub mod text;
