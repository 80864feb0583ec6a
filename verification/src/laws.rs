//! What holds of the library's operations as a whole.
use vstd::prelude::*;
use crate::bignum::{
    Bignum, BignumView, new_view, from_iter_view, lemma_negated_value, lemma_normalized_view, lemma_number_value,
    lemma_trimmed, negated, number, signed_digits, trimmed, view_of,
};
use crate::calculator::{parsed, parses};
use crate::digits::{abs_int, all_zero, digits_value, ints, lemma_digits_value_zero};
use crate::domain_error::DomainError;
use crate::text::parse_result;
use vstd::std_specs::cmp::PartialEqSpec;
use crate::division::{add_view, div_result, div_views, lemma_negated_number, mul_view, one_view, sub_view, zero_view};
use crate::order::lemma_signed_digits_value;
use crate::text::{
    all_ascii, ascii_upper, char_value, digit_char, digit_text, is_negative_text, number_text,
    prefix_radix, text_digits, unsigned_text, written_prefix,
};

verus! {

/// Normalized numbers are equal (as `==` compares them: radix, sign and
/// digits) exactly when their radixes and values are equal.
pub proof fn law_equality_is_value_equality(a: BignumView, b: BignumView)
    requires
        a.normalized(),
        b.normalized(),
    ensures
        (a == b) == (a.radix == b.radix && a.value() == b.value()),
{
    lemma_normalized_view(a);
    lemma_normalized_view(b);
    if a.radix == b.radix && a.value() == b.value() {
        assert(a.magnitude() == b.magnitude());
        if a.magnitude() == 0 {
            assert(view_of(0, a.radix, a.neg) == view_of(0, b.radix, b.neg));
        }
    }
}

/// A normalized number is the number of its value.
pub proof fn law_number_of_value(b: BignumView)
    requires
        b.normalized(),
    ensures
        number(b.value(), b.radix) == b,
{
    lemma_normalized_view(b);
}

/// Normalising the signed digits of a normalized number gives the number back.
pub proof fn law_from_iter_of_digits(b: BignumView)
    requires
        b.normalized(),
    ensures
        from_iter_view(signed_digits(b, true), b.radix) == b,
{
    lemma_signed_digits_value(b);
    law_number_of_value(b);
}

/// Addition gives the sum of the values (radix at least 2).
pub proof fn law_add_is_sum(a: BignumView, b: BignumView)
    requires
        a.radix >= 2,
    ensures
        add_view(a, b).value() == a.value() + b.value(),
        add_view(a, b).normalized(),
{
    lemma_number_value(a.value() + b.value(), a.radix);
}

/// Addition is commutative.
pub proof fn law_add_commutative(a: BignumView, b: BignumView)
    requires
        a.radix == b.radix,
    ensures
        add_view(a, b) == add_view(b, a),
{
}

/// Multiplication gives the product of the values (radix at least 2), for
/// operands of any length.
pub proof fn law_mul_is_product(a: BignumView, b: BignumView)
    requires
        a.radix >= 2,
    ensures
        mul_view(a, b).value() == a.value() * b.value(),
        mul_view(a, b).normalized(),
{
    lemma_number_value(a.value() * b.value(), a.radix);
}

/// Multiplication is commutative.
pub proof fn law_mul_commutative(a: BignumView, b: BignumView)
    requires
        a.radix == b.radix,
    ensures
        mul_view(a, b) == mul_view(b, a),
{
    assert(a.value() * b.value() == b.value() * a.value()) by (nonlinear_arith);
}

/// `b - a` is `a - b` with the sign flipped (zero staying without sign).
pub proof fn law_sub_antisymmetric(a: BignumView, b: BignumView)
    requires
        a.radix == b.radix,
        a.radix >= 2,
    ensures
        sub_view(b, a) == negated(sub_view(a, b)),
{
    lemma_negated_number(a.value() - b.value(), a.radix);
}

/// Flipping the sign of a normalized number gives a normalized number of
/// the opposite value, and flipping it twice gives the number back.
pub proof fn law_reverse_negates(b: BignumView)
    requires
        b.normalized(),
    ensures
        negated(b).normalized(),
        negated(b).value() == -b.value(),
        negated(negated(b)) == b,
{
    lemma_negated_value(b);
    if b.digits =~= seq![0u8] {
        assert(ints(b.digits)[0] == 0);
        assert(all_zero(ints(b.digits)));
    }
}

/// Division with remainder, for a divisor that is not zero: the magnitudes
/// satisfy `|a| = |q| * |b| + |m|` with `|m| < |b|`; the quotient is
/// negative exactly when it is not zero and the signs of `a` and `b`
/// differ; a zero remainder carries no sign; when `|a| < |b|` the quotient
/// is zero and the remainder is `a` itself, sign included; otherwise the
/// remainder, like the quotient, is negative exactly when it is not zero and
/// the signs differ.
pub proof fn law_division(a: BignumView, b: BignumView)
    requires
        a.normalized(),
        b.normalized(),
        a.radix == b.radix,
        a.radix >= 2,
        b.value() != 0,
    ensures
        ({
            let (q, m) = div_views(a, b);
            &&& q.normalized()
            &&& m.normalized()
            &&& q.radix == a.radix
            &&& m.radix == a.radix
            &&& abs_int(a.value()) == abs_int(q.value()) * abs_int(b.value()) + abs_int(m.value())
            &&& abs_int(m.value()) < abs_int(b.value())
            &&& q.neg == (q.value() != 0 && a.neg != b.neg)
            &&& (m.value() == 0 ==> !m.neg)
            &&& (abs_int(a.value()) < abs_int(b.value()) ==> q.value() == 0 && m == a)
            &&& (abs_int(a.value()) >= abs_int(b.value()) ==> m.neg == (m.value() != 0 && a.neg
                != b.neg))
        }),
{
    let r = a.radix;
    let aa = crate::bignum::digits_view(a.digits, r, false);
    let bb = crate::bignum::digits_view(b.digits, r, false);
    lemma_normalized_view(a);
    lemma_normalized_view(b);
    let av = aa.value();
    let bv = bb.value();
    assert(av == abs_int(a.value()));
    assert(bv == abs_int(b.value()));
    let (q, m) = div_views(a, b);
    if aa == bb {
        lemma_number_value(1, r);
        lemma_number_value(0, r);
        law_number_of_value(one_view(r));
        assert(one_view(r).digits =~= seq![1u8]) by {
            assert(trimmed(seq![1u8]) =~= seq![1u8]);
        }
        assert(ints(one_view(r).digits) =~= seq![1int]);
        assert(seq![1int].drop_last() =~= Seq::<int>::empty());
        assert(digits_value(Seq::<int>::empty(), r as int) == 0);
        assert(crate::digits::radix_pow(r as int, 0) == 1);
        assert(one_view(r).value() == 1);
        assert(zero_view(r).digits =~= seq![0u8]) by {
            lemma_trimmed(seq![0u8]);
            assert(seq![0u8].drop_last() =~= Seq::<u8>::empty());
        }
        assert(ints(zero_view(r).digits) =~= seq![0int]);
        assert(seq![0int].drop_last() =~= Seq::<int>::empty());
        assert(zero_view(r).value() == 0);
        assert(one_view(r) == number(1, r));
        lemma_negated_number(1, r);
        lemma_number_value(-1, r);
        assert(av == bv);
        assert(abs_int(q.value()) == 1);
        assert(abs_int(m.value()) == 0);
        assert(abs_int(q.value()) * bv == bv) by (nonlinear_arith)
            requires
                abs_int(q.value()) == 1,
        ;
    } else if av < bv {
        lemma_number_value(0, r);
        assert(zero_view(r).digits =~= seq![0u8]) by {
            lemma_trimmed(seq![0u8]);
            assert(seq![0u8].drop_last() =~= Seq::<u8>::empty());
        }
        assert(ints(zero_view(r).digits) =~= seq![0int]);
        assert(seq![0int].drop_last() =~= Seq::<int>::empty());
        assert(zero_view(r).value() == 0);
        if a.value() == 0 {
            assert(!a.neg);
        }
        assert(q.value() == 0);
        assert(abs_int(q.value()) * bv == 0) by (nonlinear_arith)
            requires
                q.value() == 0,
        ;
    } else {
        let qv = av / bv;
        let mv = av % bv;
        vstd::arithmetic::div_mod::lemma_fundamental_div_mod(av, bv);
        vstd::arithmetic::div_mod::lemma_mod_pos_bound(av, bv);
        assert(qv >= 0) by (nonlinear_arith)
            requires
                av == bv * qv + mv,
                0 <= mv < bv,
                av >= 0,
        ;
        assert(av == qv * bv + mv) by (nonlinear_arith)
            requires
                av == bv * qv + mv,
        ;
        lemma_number_value(qv, r);
        lemma_number_value(mv, r);
        lemma_number_value(-qv, r);
        lemma_number_value(-mv, r);
        assert(abs_int(q.value()) == qv);
        assert(abs_int(m.value()) == mv);
    }
}

/// What `a / b` returns, for a divisor that is not zero, satisfies the
/// relations of `law_division`: quotient and remainder by magnitude, and
/// their signs by the signs of `a` and `b`.
pub proof fn law_division_result(a: BignumView, b: BignumView, r: Result<(Bignum, Bignum), DomainError>)
    requires
        a.normalized(),
        b.normalized(),
        a.radix == b.radix,
        a.radix >= 2,
        b.value() != 0,
        div_result(a, b, r),
    ensures
        r matches Ok((q, m)) && {
            &&& q@.normalized()
            &&& m@.normalized()
            &&& q@.radix == a.radix
            &&& m@.radix == a.radix
            &&& abs_int(a.value()) == abs_int(q@.value()) * abs_int(b.value()) + abs_int(
                m@.value(),
            )
            &&& abs_int(m@.value()) < abs_int(b.value())
            &&& q@.neg == (q@.value() != 0 && a.neg != b.neg)
            &&& (m@.value() == 0 ==> !m@.neg)
            &&& (abs_int(a.value()) < abs_int(b.value()) ==> q@.value() == 0 && m@ == a)
            &&& (abs_int(a.value()) >= abs_int(b.value()) ==> m@.neg == (m@.value() != 0 && a.neg
                != b.neg))
        },
{
    if all_zero(ints(b.digits)) {
        lemma_digits_value_zero(ints(b.digits), b.radix as int);
    }
    law_division(a, b);
}

/// `==` on numbers compares radix, sign and digits: numbers of different
/// radixes or signs are never equal.
pub proof fn law_eq_compares_radix_sign_digits(x: &Bignum, y: &Bignum)
    ensures
        x.eq_spec(y) == (x@.radix == y@.radix && x@.neg == y@.neg && x@.digits == y@.digits),
        x.eq_spec(y) ==> x@.radix == y@.radix,
{
}

/// For normalized numbers, `==` holds exactly when radix and value are equal.
pub proof fn law_eq_is_value_equality(x: &Bignum, y: &Bignum)
    requires
        x@.normalized(),
        y@.normalized(),
    ensures
        x.eq_spec(y) == (x@.radix == y@.radix && x@.value() == y@.value()),
{
    law_equality_is_value_equality(x@, y@);
}

/// A number is written with a leading `-` exactly when it is negative, in
/// every radix (octal included).
pub proof fn law_written_sign(b: BignumView)
    requires
        b.digits.len() >= 1,
    ensures
        number_text(b).len() > 0,
        (number_text(b)[0] == '-') == b.neg,
{
    let t = number_text(b);
    reveal_strlit("-");
    reveal_strlit("0B");
    reveal_strlit("00");
    reveal_strlit("0X");
    let n = b.digits.len();
    let body = Seq::new(n, |i: int| digit_char(b.digits[n - 1 - i], b.radix));
    let p = written_prefix(b.radix);
    if b.neg {
        assert(t =~= "-"@ + p + body);
        assert(t[0] == '-');
    } else {
        assert(t =~= p + body);
        if p.len() > 0 {
            assert(t[0] == p[0]);
            assert(p[0] == '0');
        } else {
            assert(t[0] == body[0]);
            let d = b.digits[n - 1];
            assert(body[0] == digit_char(d, b.radix));
            assert(digit_char(d, b.radix) != '-');
        }
    }
}

/// The numbers `new_view` builds from the same digits and radix with and
/// without the sign have opposite values; the unsigned one has no sign.
proof fn lemma_new_view_negation(d: Seq<u8>, r: u8)
    ensures
        new_view(d, r, true).value() == -new_view(d, r, false).value(),
        !new_view(d, r, false).neg,
        new_view(d, r, true).digits == new_view(d, r, false).digits,
{
    if trimmed(d).len() == 0 {
        let z = new_view(d, r, false);
        assert(z.digits =~= seq![0u8]);
        assert(ints(z.digits) =~= seq![0int]);
        assert(seq![0int].drop_last() =~= Seq::<int>::empty());
        assert(digits_value(Seq::<int>::empty(), r as int) == 0);
        assert(z.magnitude() == 0);
    }
}

/// Reading `-` followed by a text `t` (that does not itself start with `-`)
/// gives the negation of reading `t`: both succeed or fail together, with
/// the same radix and opposite values, and the unsigned reading has no sign.
pub proof fn law_parse_negation(t: Seq<char>, r1: Result<Bignum, DomainError>, r2: Result<Bignum, DomainError>)
    requires
        t.len() > 0 ==> t[0] != '-',
        parse_result(seq!['-'] + t, r1),
        parse_result(t, r2),
    ensures
        (r1 is Ok) == (r2 is Ok),
        r1 matches Ok(b1) ==> (r2 matches Ok(b2) && b1@.radix == b2@.radix && b1@.value()
            == -b2@.value() && !b2@.neg && b1@.digits == b2@.digits),
        r1 matches Err(DomainError::ParsingError { input: i1 }) ==> (r2 matches Err(
            DomainError::ParsingError { input: i2 },
        ) && i1@ == i2@),
{
    let s = seq!['-'] + t;
    assert(s.drop_first() =~= t);
    assert(unsigned_text(s) == unsigned_text(t));
    let u = unsigned_text(t);
    lemma_new_view_negation(text_digits(digit_text(u)), prefix_radix(u));
}

/// The calculator reads `-` followed by `t` (not itself starting with `-`)
/// as the negation of `t`, in the same radix; the reading of `t` has no sign.
pub proof fn law_parsed_negation(t: Seq<char>)
    requires
        t.len() > 0 ==> t[0] != '-',
    ensures
        parses(seq!['-'] + t) == parses(t),
        parsed(seq!['-'] + t).radix == parsed(t).radix,
        parsed(seq!['-'] + t).value() == -parsed(t).value(),
        !parsed(t).neg,
{
    let s = seq!['-'] + t;
    assert(s.drop_first() =~= t);
    assert(unsigned_text(s) == unsigned_text(t));
    let u = unsigned_text(t);
    lemma_new_view_negation(text_digits(digit_text(u)), prefix_radix(u));
}

/// A written digit reads back as the digit.
proof fn lemma_digit_char_value(d: u8, r: u8)
    requires
        d < r,
        r <= 36,
    ensures
        char_value(digit_char(d, r)) == d,
        ascii_upper(digit_char(d, r)) == digit_char(d, r),
        (digit_char(d, r) as int) < 128,
        digit_char(d, r) != '-',
        r <= 10 ==> '0' <= digit_char(d, r) <= '9',
{
}

/// Writing a normalized number of radix 2, 10 or 16 and reading the text
/// gives the number back. (Octal numbers are written with the prefix `00`,
/// which reads as decimal.)
pub proof fn law_print_then_parse(b: BignumView)
    requires
        b.normalized(),
        b.radix == 2 || b.radix == 10 || b.radix == 16,
    ensures
        parses(number_text(b)),
        parsed(number_text(b)) == b,
{
    let r = b.radix;
    let n = b.digits.len();
    let body = Seq::new(n, |i: int| digit_char(b.digits[n - 1 - i], r));
    let prefix = written_prefix(r);
    let sign_part = if b.neg {
        "-"@
    } else {
        Seq::<char>::empty()
    };
    let t = number_text(b);
    reveal_strlit("-");
    reveal_strlit("0B");
    reveal_strlit("0X");
    assert(t == sign_part + prefix + body);
    assert(n >= 1);
    assert forall|i: int| 0 <= i < n implies b.digits[i] < r by {
        if !(b.digits =~= seq![0u8]) {
            assert(ints(b.digits)[i] == b.digits[i] as int);
        }
    }
    assert forall|i: int| 0 <= i < n implies char_value(#[trigger] body[i]) == b.digits[n - 1 - i]
        && ascii_upper(body[i]) == body[i] && (body[i] as int) < 128 && body[i] != '-' && (r
        == 10 ==> '0' <= body[i] <= '9') by {
        lemma_digit_char_value(b.digits[n - 1 - i], r);
    }
    let rest = prefix + body;
    if b.neg {
        assert(t[0] == '-');
        assert(t.drop_first() =~= rest);
    } else {
        assert(t =~= rest);
        if r == 10 {
            assert(t[0] == body[0]);
        } else {
            assert(t[0] == '0');
        }
    }
    assert(is_negative_text(t) == b.neg);
    assert(all_ascii(rest)) by {
        assert forall|i: int| 0 <= i < rest.len() implies (#[trigger] rest[i] as int) < 128 by {
            if i >= prefix.len() {
                assert(rest[i] == body[i - prefix.len()]);
            }
        }
    }
    assert(rest.map_values(|c: char| ascii_upper(c)) =~= rest) by {
        assert forall|i: int| 0 <= i < rest.len() implies ascii_upper(#[trigger] rest[i])
            == rest[i] by {
            if i >= prefix.len() {
                assert(rest[i] == body[i - prefix.len()]);
            }
        }
    }
    let u = unsigned_text(t);
    assert(u == rest);
    if r == 10 {
        assert(rest =~= body);
        if n >= 2 {
            assert('0' <= body[1] <= '9');
        }
        assert(prefix_radix(u) == 10);
        assert(digit_text(u) == body);
    } else if r == 2 {
        assert(prefix_radix(u) == 2);
        assert(digit_text(u) =~= body);
    } else {
        assert(prefix_radix(u) == 16);
        assert(digit_text(u) =~= body);
    }
    assert(text_digits(body) =~= b.digits);
    lemma_trimmed(b.digits);
    if b.digits =~= seq![0u8] {
        assert(trimmed(b.digits.drop_last()) =~= Seq::<u8>::empty());
        assert(b.digits.drop_last() =~= Seq::<u8>::empty());
    } else {
        assert(trimmed(b.digits) == b.digits);
    }
}

} // verus!
