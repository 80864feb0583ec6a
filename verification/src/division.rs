//! Division with remainder. A Newton iteration for the reciprocal of the
//! divisor gives an estimate of the quotient; the remainder it leaves is then
//! divided exactly, digit by digit, and the estimate corrected, so that the
//! quotient is `|a| / |b|` rounded down and the remainder below `|b|`.
use vstd::prelude::*;
use crate::arithmetic::{add_numbers, mul_numbers, shift_in, sub_numbers};
use crate::bignum::{
    Bignum, BignumView, RadixType, all_below, digits_view, lemma_negated_value,
    lemma_normalized_view, lemma_number_value, negated, new_view, number,
};
use crate::digits::{all_zero, digits_in_range, digits_value, ints, lemma_digits_value_append,
    lemma_digits_value_zero, radix_pow};
use crate::domain_error::DomainError;
use vstd::arithmetic::div_mod::{
    lemma_fundamental_div_mod, lemma_fundamental_div_mod_converse, lemma_mod_pos_bound,
};

verus! {

/// `a + b` for numbers of the same radix.
pub open spec fn add_view(a: BignumView, b: BignumView) -> BignumView {
    number(a.value() + b.value(), a.radix)
}

/// `a - b` for numbers of the same radix.
pub open spec fn sub_view(a: BignumView, b: BignumView) -> BignumView {
    number(a.value() - b.value(), a.radix)
}

/// `a * b` for numbers of the same radix.
pub open spec fn mul_view(a: BignumView, b: BignumView) -> BignumView {
    number(a.value() * b.value(), a.radix)
}

/// The number one.
pub open spec fn one_view(r: u8) -> BignumView {
    new_view(seq![1u8], r, false)
}

/// The number zero.
pub open spec fn zero_view(r: u8) -> BignumView {
    new_view(seq![0u8], r, false)
}

/// `len` zero digits.
pub open spec fn zero_digits(len: nat) -> Seq<u8> {
    Seq::new(len, |i: int| 0u8)
}

/// The digits that `make_two` builds: a 2 above `len` zeros, that is
/// `2 * r^len`; in radix 2 a 1 below `len` zeros, that is 1.
pub open spec fn two_digits(r: u8, len: nat) -> Seq<u8> {
    if r == 2 {
        seq![1u8] + zero_digits(len)
    } else {
        zero_digits(len) + seq![2u8]
    }
}

/// The number that `make_two` builds.
pub open spec fn two_view(r: u8, len: nat) -> BignumView {
    new_view(two_digits(r, len), r, false)
}

/// Builds the scaled two that the Newton iteration starts from: a digit 2
/// (1 in radix 2) placed in a vector of `len + 1` zeros, rotated right by
/// `len`.
fn make_two(radix: RadixType, len: usize) -> (r: Result<Bignum, DomainError>)
    requires
        len < usize::MAX,
        radix == 2 ==> len >= 1,
    ensures
        radix >= 2 ==> (r matches Ok(t) && t@ == two_view(radix, len as nat)),
        radix < 2 ==> r == Err::<Bignum, DomainError>(DomainError::RadixNotMatch(radix)),
{
    let mut two: Vec<RadixType> = Vec::new();
    let mut i: usize = 0;
    while i < len + 1
        invariant
            0 <= i <= len + 1,
            len < usize::MAX,
            two@ == zero_digits(i as nat),
        decreases len + 1 - i,
    {
        two.push(0);
        assert(two@ =~= zero_digits((i + 1) as nat));
        i += 1;
    }
    if radix == 2 {
        two.set(1, 1);
    } else {
        two.set(0, 2);
    }
    let rotated = rotate_right_by(&two, len);
    proof {
        assert(rotated@ =~= two_digits(radix, len as nat));
    }
    Bignum::new_positive(rotated, radix)
}

/// `v` rotated right by `k = v.len() - 1` places, which moves its first
/// element to the end.
fn rotate_right_by(v: &Vec<RadixType>, k: usize) -> (r: Vec<RadixType>)
    requires
        v@.len() == k + 1,
    ensures
        r@ == v@.subrange(1, v@.len() as int).push(v@[0]),
{
    let mut r: Vec<RadixType> = Vec::new();
    let mut i: usize = 1;
    while i < v.len()
        invariant
            1 <= i <= v.len(),
            v@.len() == k + 1,
            r@ == v@.subrange(1, i as int),
        decreases v.len() - i,
    {
        r.push(v[i]);
        assert(r@ =~= v@.subrange(1, i + 1));
        i += 1;
    }
    r.push(v[0]);
    r
}

/// Quotient and remainder of `a / b` for `b` not zero, both of radix `r`:
/// with `aa`, `bb` the magnitudes, `(1, 0)` when they are equal, `(0, a)`
/// when `aa` is the smaller, otherwise `aa / bb` rounded down and `aa % bb`;
/// quotient and remainder are negated when exactly one operand is negative
/// (a zero stays without sign).
pub open spec fn div_views(a: BignumView, b: BignumView) -> (BignumView, BignumView) {
    let r = a.radix;
    let sign = a.neg != b.neg;
    let aa = digits_view(a.digits, r, false);
    let bb = digits_view(b.digits, r, false);
    if aa == bb {
        if sign {
            (negated(one_view(r)), zero_view(r))
        } else {
            (one_view(r), zero_view(r))
        }
    } else if aa.value() < bb.value() {
        (zero_view(r), a)
    } else {
        let q = aa.value() / bb.value();
        let m = aa.value() % bb.value();
        if sign {
            (number(-q, r), number(-m, r))
        } else {
            (number(q, r), number(m, r))
        }
    }
}

/// What `a / b` gives: an error for different radixes, an error for a zero
/// divisor, otherwise the quotient and remainder of `div_views`.
pub open spec fn div_result(
    a: BignumView,
    b: BignumView,
    r: Result<(Bignum, Bignum), DomainError>,
) -> bool {
    if a.radix != b.radix {
        r == Err::<(Bignum, Bignum), DomainError>(DomainError::NotSameRadix(a.radix, b.radix))
    } else if all_zero(ints(b.digits)) {
        r == Err::<(Bignum, Bignum), DomainError>(DomainError::DivisionByZero)
    } else {
        r matches Ok((q, m)) && q@ == div_views(a, b).0 && m@ == div_views(a, b).1
    }
}

/// A single digit.
fn digit_vec(d: RadixType) -> (v: Vec<RadixType>)
    ensures
        v@ == seq![d],
{
    let v = vec![d];
    assert(v@ =~= seq![d]);
    v
}

/// The number zero in radix `radix`.
fn zero_number(radix: RadixType) -> (z: Bignum)
    requires
        radix >= 2,
    ensures
        z@ == number(0, radix),
{
    let z = Bignum::new_positive(digit_vec(0), radix).unwrap();
    proof {
        lemma_normalized_view(z@);
        crate::bignum::lemma_trimmed(seq![0u8]);
        assert(seq![0u8].drop_last() =~= Seq::<u8>::empty());
        assert(crate::bignum::trimmed(seq![0u8].drop_last()) =~= Seq::<u8>::empty());
        assert(ints(z@.digits).drop_last() =~= Seq::<int>::empty());
        assert(digits_value(Seq::<int>::empty(), radix as int) == 0);
    }
    z
}

/// Flipping the sign of the number of value `v` gives the number of value `-v`.
pub proof fn lemma_negated_number(v: int, r: u8)
    requires
        r >= 2,
    ensures
        negated(number(v, r)) == number(-v, r),
{
    let n = number(v, r);
    lemma_number_value(v, r);
    lemma_number_value(-v, r);
    lemma_negated_value(n);
    let g = negated(n);
    assert(g.normalized());
    lemma_normalized_view(g);
    lemma_normalized_view(number(-v, r));
    if v != 0 && all_zero(ints(n.digits)) {
        lemma_digits_value_zero(ints(n.digits), r as int);
    }
}

/// An estimate of `a / b` for magnitudes `a >= b > 0`: the reciprocal of
/// `b`, scaled by `r^(2 * len(b))`, after five Newton steps from the scaled
/// two, times `a`, scaled back. Only the radix of the estimate matters to
/// the result.
fn newton_estimate(a: &Bignum, b: &Bignum) -> (q: Bignum)
    requires
        a@.radix == b@.radix,
        a@.radix >= 2,
        b@.digits.len() >= 1,
    ensures
        q@.radix == a@.radix,
{
    let radix = a.get_radix();
    if b.len() > usize::MAX / 4 {
        return zero_number(radix);
    }
    let len = b.len() * 2;
    let two = make_two(radix, len).unwrap();
    let mut reciprocal = two.clone().truncate(b.len());
    let mut step: usize = 0;
    while step < 5
        invariant
            0 <= step <= 5,
            b@.radix == radix,
            two@.radix == radix,
            reciprocal@.radix == radix,
            radix >= 2,
        decreases 5 - step,
    {
        let bq = mul_numbers(b, &reciprocal).unwrap();
        let s = sub_numbers(&two, &bq).unwrap();
        let qs = mul_numbers(&reciprocal, &s).unwrap();
        reciprocal = qs.truncate(len);
        step += 1;
    }
    let aq = mul_numbers(a, &reciprocal).unwrap();
    aq.truncate(len)
}

/// Exact division of a magnitude `x` by a positive `b`, digit by digit from
/// the top: the remainder so far is moved up one position with the next
/// digit of `x` below it, and `b` is subtracted while it fits.
fn long_divide(x: &Bignum, b: &Bignum) -> (qm: (Bignum, Bignum))
    requires
        x@.radix == b@.radix,
        x@.radix >= 2,
        x@.normalized(),
        !x@.neg,
        b@.value() > 0,
    ensures
        qm.0@ == number(x@.value() / b@.value(), x@.radix),
        qm.1@ == number(x@.value() % b@.value(), x@.radix),
{
    let radix = x.get_radix();
    let ghost rr = radix as int;
    let ghost bv = b@.value();
    let ghost xs = ints(x@.digits);
    let digits = x.map(false);
    let n = digits.len();
    proof {
        crate::bignum::lemma_signed_digits_bounded(x@, false);
        assert(crate::bignum::signed_digits(x@, false) =~= xs);
        assert(digits_in_range(xs, rr)) by {
            if x@.digits =~= seq![0u8] {
                assert(xs[0] == 0);
            }
        }
        assert(xs.subrange(n as int, n as int) =~= Seq::<int>::empty());
        assert(digits_value(Seq::<int>::empty(), rr) == 0);
        lemma_number_value(0, radix);
    }
    let mut q = zero_number(radix);
    let mut cur = zero_number(radix);
    let mut i: usize = n;
    while i > 0
        invariant
            0 <= i <= n,
            n == xs.len(),
            crate::digits::ints_i64(digits@) == xs,
            digits_in_range(xs, rr),
            rr == radix as int,
            rr >= 2,
            b@.radix == radix,
            bv == b@.value(),
            bv > 0,
            q@.radix == radix,
            cur@.radix == radix,
            q@.value() >= 0,
            0 <= cur@.value() < bv,
            q@ == number(q@.value(), radix),
            cur@ == number(cur@.value(), radix),
            digits_value(xs.subrange(i as int, n as int), rr) == q@.value() * bv + cur@.value(),
        decreases i,
    {
        i -= 1;
        let ghost rest = xs.subrange(i + 1, n as int);
        let ghost di = xs[i as int];
        let ghost qv = q@.value();
        let ghost cv = cur@.value();
        let d = digits[i];
        assert(d == di);
        assert(0 <= di < rr);
        let mut c = shift_in(&cur, d);
        proof {
            lemma_number_value(di + rr * cv, radix);
            assert(di + rr * cv < rr * bv) by (nonlinear_arith)
                requires
                    0 <= di < rr,
                    0 <= cv < bv,
            ;
        }
        let ghost c0 = di + rr * cv;
        let mut t: i64 = 0;
        while b.le(&c)
            invariant
                b@.radix == radix,
                c@.radix == radix,
                bv == b@.value(),
                bv > 0,
                rr == radix as int,
                rr >= 2,
                c0 < rr * bv,
                0 <= t,
                c@.value() >= 0,
                c@.value() + t * bv == c0,
                c@ == number(c@.value(), radix),
            decreases c@.value(),
        {
            let ghost before = c@.value();
            assert((t + 1) * bv <= c0) by (nonlinear_arith)
                requires
                    bv <= before,
                    before + t * bv == c0,
            ;
            assert(t + 1 < rr) by (nonlinear_arith)
                requires
                    (t + 1) * bv <= c0,
                    c0 < rr * bv,
                    bv > 0,
            ;
            c = sub_numbers(&c, b).unwrap();
            proof {
                lemma_number_value(before - bv, radix);
                assert((before - bv) + (t + 1) * bv == c0) by (nonlinear_arith)
                    requires
                        before + t * bv == c0,
                ;
            }
            t = t + 1;
        }
        assert(t < rr) by (nonlinear_arith)
            requires
                t * bv <= c0,
                c0 < rr * bv,
                bv > 0,
                0 <= t,
        ;
        q = shift_in(&q, t);
        cur = c;
        proof {
            lemma_number_value(t + rr * qv, radix);
            assert(xs.subrange(i as int, n as int) =~= seq![di] + rest);
            lemma_digits_value_append(seq![di], rest, rr);
            assert(seq![di].drop_last() =~= Seq::<int>::empty());
            assert(radix_pow(rr, 0) == 1);
            assert(radix_pow(rr, 1) == rr * radix_pow(rr, 0));
            assert(digits_value(seq![di], rr) == di) by {
                assert(seq![di].drop_last() =~= Seq::<int>::empty());
                assert(seq![di].last() == di);
                assert(digits_value(Seq::<int>::empty(), rr) == 0);
                assert(radix_pow(rr, 0) == 1);
                assert(di * 1 == di);
            }
            assert(t + rr * qv >= 0) by (nonlinear_arith)
                requires
                    t >= 0,
                    qv >= 0,
                    rr >= 2,
            ;
            assert(di + rr * (qv * bv + cv) == (t + rr * qv) * bv + cur@.value())
                by (nonlinear_arith)
                requires
                    cur@.value() + t * bv == di + rr * cv,
            ;
        }
    }
    proof {
        assert(xs.subrange(0, n as int) =~= xs);
        lemma_fundamental_div_mod_converse(x@.value(), bv, q@.value(), cur@.value());
        assert(x@.value() == x@.magnitude());
    }
    (q, cur)
}

/// Division with remainder (see `div_result`).
pub(crate) fn div_numbers(lhs: &Bignum, rhs: &Bignum) -> (r: Result<(Bignum, Bignum), DomainError>)
    ensures
        div_result(lhs@, rhs@, r),
{
    let radix = lhs.get_radix();
    let rhs_radix = rhs.get_radix();
    if radix != rhs_radix {
        return Err(DomainError::NotSameRadix(radix, rhs_radix));
    }
    if rhs.is_zero() {
        return Err(DomainError::DivisionByZero);
    }
    assert(radix >= 2);
    let sign = lhs.has_sign() != rhs.has_sign();
    let a = lhs.abs();
    let b = rhs.abs();
    if a == b {
        let q = Bignum::new_positive(digit_vec(1), radix).unwrap();
        let zero = Bignum::new_positive(digit_vec(0), radix).unwrap();
        proof {
            assert(!all_zero(ints(seq![1u8]))) by {
                assert(ints(seq![1u8])[0] == 1);
            }
        }
        return if sign {
            Ok((q.reverse(), zero))
        } else {
            Ok((q, zero))
        };
    }
    if a.lt(&b) {
        let zero = Bignum::new_positive(digit_vec(0), radix).unwrap();
        return Ok((zero, lhs.clone()));
    }
    let ghost av = a@.value();
    let ghost bv = b@.value();
    proof {
        lemma_digits_value_positive(ints(b@.digits), radix as int);
        lemma_digits_value_positive(ints(a@.digits), radix as int);
    }
    let q0 = newton_estimate(&a, &b);
    let q0b = mul_numbers(&q0, &b).unwrap();
    let rem0 = sub_numbers(&a, &q0b).unwrap();
    let ghost qv0 = q0@.value();
    let ghost rv0 = av - qv0 * bv;
    proof {
        lemma_number_value(qv0 * bv, radix);
        lemma_number_value(rv0, radix);
    }
    let rem_abs = rem0.abs();
    proof {
        lemma_normalized_view(rem0@);
    }
    let (dq, m) = long_divide(&rem_abs, &b);
    let ghost dqv = abs_of(rv0) / bv;
    let ghost mv = abs_of(rv0) % bv;
    proof {
        lemma_number_value(dqv, radix);
        lemma_number_value(mv, radix);
        lemma_fundamental_div_mod(abs_of(rv0), bv);
        lemma_mod_pos_bound(abs_of(rv0), bv);
        assert(abs_of(rv0) == dqv * bv + mv) by (nonlinear_arith)
            requires
                abs_of(rv0) == bv * dqv + mv,
        ;
    }
    let quotient;
    let remainder;
    if !rem0.has_sign() {
        quotient = add_numbers(&q0, &dq).unwrap();
        remainder = m;
        proof {
            lemma_number_value(qv0 + dqv, radix);
            assert(av == (qv0 + dqv) * bv + mv) by (nonlinear_arith)
                requires
                    av == qv0 * bv + rv0,
                    rv0 == dqv * bv + mv,
            ;
            lemma_fundamental_div_mod_converse(av, bv, qv0 + dqv, mv);
        }
    } else if m.is_zero() {
        quotient = sub_numbers(&q0, &dq).unwrap();
        remainder = m;
        proof {
            lemma_digits_value_zero(ints(m@.digits), radix as int);
            lemma_number_value(qv0 - dqv, radix);
            assert(av == (qv0 - dqv) * bv + 0) by (nonlinear_arith)
                requires
                    av == qv0 * bv + rv0,
                    -rv0 == dqv * bv + 0,
            ;
            lemma_fundamental_div_mod_converse(av, bv, qv0 - dqv, 0);
        }
    } else {
        let one = Bignum::new_positive(digit_vec(1), radix).unwrap();
        let q1 = sub_numbers(&q0, &dq).unwrap();
        quotient = sub_numbers(&q1, &one).unwrap();
        remainder = sub_numbers(&b, &m).unwrap();
        proof {
            assert(one@.value() == 1) by {
                assert(crate::bignum::trimmed(seq![1u8]) =~= seq![1u8]);
                assert(one@.digits =~= seq![1u8]);
                assert(ints(one@.digits) =~= seq![1int]);
                assert(seq![1int].drop_last() =~= Seq::<int>::empty());
                assert(digits_value(Seq::<int>::empty(), radix as int) == 0);
                assert(radix_pow(radix as int, 0) == 1);
            }
            lemma_number_value(qv0 - dqv, radix);
            lemma_number_value(qv0 - dqv - 1, radix);
            lemma_number_value(bv - mv, radix);
            if mv == 0 {
                assert(m@.digits =~= seq![0u8]);
                assert(ints(m@.digits)[0] == 0);
                assert(all_zero(ints(m@.digits)));
            }
            assert(av == (qv0 - dqv - 1) * bv + (bv - mv)) by (nonlinear_arith)
                requires
                    av == qv0 * bv + rv0,
                    -rv0 == dqv * bv + mv,
            ;
            lemma_fundamental_div_mod_converse(av, bv, qv0 - dqv - 1, bv - mv);
        }
    }
    proof {
        lemma_negated_number(av / bv, radix);
        lemma_negated_number(av % bv, radix);
    }
    if sign {
        Ok((quotient.reverse(), remainder.reverse()))
    } else {
        Ok((quotient, remainder))
    }
}

/// Absolute value.
pub open spec fn abs_of(x: int) -> int {
    if x < 0 {
        -x
    } else {
        x
    }
}

/// Non-negative digits have a non-negative value, positive when they are
/// not all zero.
proof fn lemma_digits_value_positive(s: Seq<int>, r: int)
    requires
        r >= 2,
        forall|i: int| 0 <= i < s.len() ==> 0 <= #[trigger] s[i],
    ensures
        digits_value(s, r) >= 0,
        !all_zero(s) ==> digits_value(s, r) > 0,
    decreases s.len(),
{
    if s.len() > 0 {
        let t = s.drop_last();
        crate::digits::lemma_radix_pow_positive(r, t.len());
        assert forall|i: int| 0 <= i < t.len() implies 0 <= #[trigger] t[i] by {
            assert(t[i] == s[i]);
        }
        lemma_digits_value_positive(t, r);
        let p = radix_pow(r, t.len());
        let e = s.last();
        assert(e == s[s.len() - 1]);
        assert(e * p >= 0) by (nonlinear_arith)
            requires
                e >= 0,
                p > 0,
        ;
        if e > 0 {
            assert(e * p > 0) by (nonlinear_arith)
                requires
                    e > 0,
                    p > 0,
            ;
        } else if !all_zero(s) {
            assert(!all_zero(t)) by {
                if all_zero(t) {
                    assert forall|i: int| 0 <= i < s.len() implies #[trigger] s[i] == 0 by {
                        if i < t.len() {
                            assert(s[i] == t[i]);
                        }
                    }
                }
            }
        }
    } else {
        assert(all_zero(s));
    }
}

impl<'a> core::ops::Div for &'a Bignum {
    type Output = Result<(Bignum, Bignum), DomainError>;

    /// Quotient and remainder (see `div_result`).
    fn div(self, rhs: Self) -> (r: Result<(Bignum, Bignum), DomainError>)
        ensures
            div_result(self@, rhs@, r),
    {
        div_numbers(self, rhs)
    }
}

impl<'a> vstd::std_specs::ops::DivSpecImpl for &'a Bignum {
    open spec fn obeys_div_spec() -> bool {
        false
    }

    open spec fn div_req(self, rhs: &'a Bignum) -> bool {
        true
    }

    open spec fn div_spec(self, rhs: &'a Bignum) -> Result<(Bignum, Bignum), DomainError> {
        choose|r: Result<(Bignum, Bignum), DomainError>| div_result(self@, rhs@, r)
    }
}

} // verus!
