//! Reading a `Bignum` from text and writing it as text.
//!
//! A number is written as an optional `-`, an optional radix prefix (`0B`
//! binary, `0O` octal, `0X` hexadecimal, case-insensitive; decimal without
//! one) and the digits, most significant first. Written out, octal numbers
//! carry the prefix `00`.
use vstd::prelude::*;
use crate::bignum::{Bignum, BignumView, RadixType, new_view};
use crate::domain_error::{DomainError, push_char};

verus! {

/// Unicode's upper-case form of a text (as `str::to_uppercase` gives it).
pub uninterp spec fn uppercase_of(s: Seq<char>) -> Seq<char>;

/// The upper-case form of an ASCII character.
pub open spec fn ascii_upper(c: char) -> char {
    if 'a' <= c <= 'z' {
        ((c as int) - 32) as char
    } else {
        c
    }
}

/// Every character is ASCII.
pub open spec fn all_ascii(s: Seq<char>) -> bool {
    forall|i: int| 0 <= i < s.len() ==> (#[trigger] s[i] as int) < 128
}

/// `str::to_uppercase`: the text in upper case, as Unicode defines it. Its
/// result is named by `uppercase_of`; nothing more is stated, as the
/// upper-case forms come from Unicode's tables.
#[verifier::external_body]
fn to_uppercase(s: &str) -> (u: String)
    ensures
        u@ == uppercase_of(s@),
{
    s.to_uppercase()
}

/// The upper-case form of a text: for ASCII text, `a`..`z` replaced by
/// `A`..`Z` (which is what Unicode's upper-casing does to ASCII), otherwise
/// Unicode's upper-case form.
pub open spec fn upper_text(s: Seq<char>) -> Seq<char> {
    if all_ascii(s) {
        s.map_values(|c: char| ascii_upper(c))
    } else {
        uppercase_of(s)
    }
}

/// The text in upper case (see `upper_text`).
fn upper(s: &str) -> (u: String)
    ensures
        u@ == upper_text(s@),
{
    let n = s.unicode_len();
    let mut i: usize = 0;
    while i < n
        invariant
            0 <= i <= n,
            n == s@.len(),
            forall|j: int| 0 <= j < i ==> (#[trigger] s@[j] as int) < 128,
        decreases n - i,
    {
        if (s.get_char(i) as u32) >= 128 {
            return to_uppercase(s);
        }
        i += 1;
    }
    let mut u = String::new();
    let mut k: usize = 0;
    while k < n
        invariant
            0 <= k <= n,
            n == s@.len(),
            u@ == s@.take(k as int).map_values(|c: char| ascii_upper(c)),
        decreases n - k,
    {
        let c = s.get_char(k);
        let up = if 'a' <= c && c <= 'z' {
            ((c as u8) - 32) as char
        } else {
            c
        };
        push_char(&mut u, up);
        assert(s@.take(k + 1) =~= s@.take(k as int).push(c));
        assert(u@ =~= s@.take(k + 1).map_values(|c: char| ascii_upper(c)));
        k += 1;
    }
    assert(s@.take(n as int) =~= s@);
    u
}

/// The value of a digit character as `char::to_digit` reads it: `0`..`9`
/// are 0..9, `a`..`z` and `A`..`Z` are 10..35; any other character is 36,
/// a digit in no radix.
pub open spec fn char_value(c: char) -> int {
    if '0' <= c <= '9' {
        (c as int) - ('0' as int)
    } else if 'a' <= c <= 'z' {
        (c as int) - ('a' as int) + 10
    } else if 'A' <= c <= 'Z' {
        (c as int) - ('A' as int) + 10
    } else {
        36
    }
}

/// `char::to_digit`: the digit of `c` in radix `radix`, if it has one.
fn to_digit(c: char, radix: u8) -> (d: Option<u8>)
    requires
        2 <= radix <= 36,
    ensures
        char_value(c) < radix ==> d == Some(char_value(c) as u8),
        char_value(c) >= radix ==> d is None,
{
    let v: u32 = if '0' <= c && c <= '9' {
        (c as u32) - ('0' as u32)
    } else if 'a' <= c && c <= 'z' {
        (c as u32) - ('a' as u32) + 10
    } else if 'A' <= c && c <= 'Z' {
        (c as u32) - ('A' as u32) + 10
    } else {
        36
    };
    if v < radix as u32 {
        Some(v as u8)
    } else {
        None
    }
}

/// Whether the text starts with `0` followed by `letter`.
pub open spec fn has_prefix(u: Seq<char>, letter: char) -> bool {
    u.len() >= 2 && u[0] == '0' && u[1] == letter
}

/// The radix that the prefix of the upper-cased text `u` selects.
pub open spec fn prefix_radix(u: Seq<char>) -> u8 {
    if has_prefix(u, 'B') {
        2
    } else if has_prefix(u, 'O') {
        8
    } else if has_prefix(u, 'X') {
        16
    } else {
        10
    }
}

/// The digit characters of the upper-cased text `u`: without its prefix.
pub open spec fn digit_text(u: Seq<char>) -> Seq<char> {
    if prefix_radix(u) == 10 {
        u
    } else {
        u.subrange(2, u.len() as int)
    }
}

/// Whether the text starts with `-`.
pub open spec fn is_negative_text(s: Seq<char>) -> bool {
    s.len() > 0 && s[0] == '-'
}

/// The upper-cased text after the optional `-`.
pub open spec fn unsigned_text(s: Seq<char>) -> Seq<char> {
    upper_text(
        if is_negative_text(s) {
            s.drop_first()
        } else {
            s
        },
    )
}

/// Every character of `t` is a digit in radix `r`.
pub open spec fn all_digits(t: Seq<char>, r: u8) -> bool {
    forall|i: int| 0 <= i < t.len() ==> char_value(#[trigger] t[i]) < r
}

/// The digits of the text `t`, lowest first.
pub open spec fn text_digits(t: Seq<char>) -> Seq<u8> {
    Seq::new(t.len(), |i: int| char_value(t[t.len() - 1 - i]) as u8)
}

/// What parsing the text `s` gives: a `ParsingError` holding the digit text
/// when a character of it is not a digit of the radix, otherwise the number
/// of those digits with the sign of the text.
pub open spec fn parse_result(s: Seq<char>, r: Result<Bignum, DomainError>) -> bool {
    let u = unsigned_text(s);
    let radix = prefix_radix(u);
    let t = digit_text(u);
    if all_digits(t, radix) {
        r matches Ok(b) && b@ == new_view(text_digits(t), radix, is_negative_text(s))
    } else {
        r matches Err(DomainError::ParsingError { input }) && input@ == t
    }
}

impl Bignum {
    /// Reads a number (see the module's description).
    pub fn parse(s: &str) -> (r: Result<Bignum, DomainError>)
        ensures
            parse_result(s@, r),
    {
        let n = s.unicode_len();
        let neg = n > 0 && s.get_char(0) == '-';
        let rest: &str = if neg {
            s.substring_char(1, n)
        } else {
            s
        };
        assert(neg ==> rest@ =~= s@.drop_first());
        let upper = upper(rest);
        let u = upper.as_str();
        let m = u.unicode_len();
        let radix: RadixType = if m >= 2 && u.get_char(0) == '0' && u.get_char(1) == 'B' {
            2
        } else if m >= 2 && u.get_char(0) == '0' && u.get_char(1) == 'O' {
            8
        } else if m >= 2 && u.get_char(0) == '0' && u.get_char(1) == 'X' {
            16
        } else {
            10
        };
        let body: &str = if radix == 10 {
            u
        } else {
            u.substring_char(2, m)
        };
        let ghost t = body@;
        assert(t == digit_text(unsigned_text(s@)));
        assert(radix == prefix_radix(unsigned_text(s@)));
        let len = body.unicode_len();
        let mut digits: Vec<RadixType> = Vec::new();
        let mut i: usize = len;
        while i > 0
            invariant
                0 <= i <= len,
                len == t.len(),
                t == body@,
                t == digit_text(unsigned_text(s@)),
                radix == prefix_radix(unsigned_text(s@)),
                radix == 2 || radix == 8 || radix == 10 || radix == 16,
                digits@.len() == len - i,
                forall|j: int| 0 <= j < len - i ==> #[trigger] digits@[j] == text_digits(t)[j],
                forall|j: int| i <= j < len ==> char_value(#[trigger] t[j]) < radix,
            decreases i,
        {
            i -= 1;
            let c = body.get_char(i);
            match to_digit(c, radix) {
                Some(d) => {
                    digits.push(d);
                    assert(text_digits(t)[len - 1 - i] == char_value(t[i as int]) as u8);
                },
                None => {
                    assert(char_value(t[i as int]) >= radix);
                    assert(!all_digits(t, radix));
                    return Err(DomainError::ParsingError { input: String::from_str(body) });
                },
            }
        }
        proof {
            assert(digits@ =~= text_digits(t));
            assert(all_digits(t, radix));
            assert(crate::bignum::all_below(digits@, radix));
        }
        if neg {
            Bignum::new_negative(digits, radix)
        } else {
            Bignum::new_positive(digits, radix)
        }
    }
}

impl core::str::FromStr for Bignum {
    type Err = DomainError;

    /// Reads a number (see `Bignum::parse`).
    fn from_str(s: &str) -> (r: Result<Bignum, DomainError>)
        ensures
            parse_result(s@, r),
    {
        Bignum::parse(s)
    }
}

/// The character that writes the digit `d` of radix `r`: `0`..`9`, then
/// `A`..`Z`; `0` for a digit that is not below the radix.
pub open spec fn digit_char(d: u8, r: u8) -> char {
    if d >= r {
        '0'
    } else if d < 10 {
        ((d as int) + ('0' as int)) as char
    } else {
        ((d as int) - 10 + ('A' as int)) as char
    }
}

/// The radix prefix that is written: `0B`, `00` for octal, `0X`, or none.
pub open spec fn written_prefix(r: u8) -> Seq<char> {
    if r == 2 {
        "0B"@
    } else if r == 8 {
        "00"@
    } else if r == 16 {
        "0X"@
    } else {
        Seq::empty()
    }
}

/// The text of a number: `-` when the sign is set, the prefix, then the
/// digits, most significant first.
pub open spec fn number_text(b: BignumView) -> Seq<char> {
    (if b.neg {
        "-"@
    } else {
        Seq::<char>::empty()
    }) + written_prefix(b.radix) + Seq::new(
        b.digits.len(),
        |i: int| digit_char(b.digits[b.digits.len() - 1 - i], b.radix),
    )
}

/// The character of a digit.
fn write_digit(d: u8, r: u8) -> (c: char)
    requires
        r <= 36,
    ensures
        c == digit_char(d, r),
{
    if d >= r {
        '0'
    } else if d < 10 {
        (d + 48) as char
    } else {
        (d - 10 + 65) as char
    }
}

/// Writes a number as text (see `number_text`).
pub fn number_to_string(b: &Bignum) -> (s: String)
    requires
        2 <= b@.radix <= 36,
    ensures
        s@ == number_text(b@),
{
    let radix = b.get_radix();
    let digits = b.map(false);
    let mut s = String::new();
    if b.has_sign() {
        s.append("-");
    }
    if radix == 2 {
        s.append("0B");
    } else if radix == 8 {
        s.append("00");
    } else if radix == 16 {
        s.append("0X");
    }
    let ghost head = s@;
    proof {
        crate::bignum::lemma_signed_digits_bounded(b@, false);
    }
    let n = digits.len();
    assert forall|j: int| 0 <= j < n implies #[trigger] digits@[j] == b@.digits[j] as int by {
        assert(crate::digits::ints_i64(digits@)[j] == digits@[j] as int);
    }
    let mut i: usize = 0;
    while i < n
        invariant
            0 <= i <= n,
            n == b@.digits.len(),
            n == digits@.len(),
            radix == b@.radix,
            radix <= 36,
            forall|j: int| 0 <= j < n ==> #[trigger] digits@[j] == b@.digits[j] as int,
            s@ == head + Seq::new(
                i as nat,
                |j: int| digit_char(b@.digits[b@.digits.len() - 1 - j], b@.radix),
            ),
        decreases n - i,
    {
        let d = digits[n - 1 - i];
        let c = write_digit(d as u8, radix);
        push_char(&mut s, c);
        i += 1;
        assert(s@ =~= head + Seq::new(
            i as nat,
            |j: int| digit_char(b@.digits[b@.digits.len() - 1 - j], b@.radix),
        ));
    }
    assert(s@ =~= number_text(b@));
    s
}

impl Bignum {
    /// The number's text (see `number_text`).
    pub fn into_string(self) -> (s: String)
        requires
            2 <= self@.radix <= 36,
        ensures
            s@ == number_text(self@),
    {
        number_to_string(&self)
    }
}

} // verus!
