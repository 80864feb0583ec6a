//! Addition, subtraction and multiplication of `Bignum`s.
use vstd::prelude::*;
use crate::bignum::{
    Bignum, BignumView, from_iter_accepts, lemma_negated_value, lemma_number_value,
    lemma_signed_digits_bounded, lemma_view_of, number, signed_digits,
};
use crate::digits::{
    all_zero, digits_value, ints, ints_i64, lemma_digits_value_append, lemma_digits_value_scale,
    lemma_digits_value_zero, radix_pow,
};
use crate::domain_error::DomainError;
use crate::normalize::{lemma_small_digits_fit, lemma_zero_digits_no_carry};
use crate::order::{lemma_signed_digits_value, lemma_sum_digits_value};

verus! {

/// The `i`-th element of `s`, or zero past its end.
pub open spec fn digit_at(s: Seq<int>, i: int) -> int {
    if 0 <= i < s.len() {
        s[i]
    } else {
        0
    }
}

/// The element-wise sum of two digit sequences, the shorter one padded with zeros.
pub open spec fn sum_digits(a: Seq<int>, b: Seq<int>) -> Seq<int> {
    Seq::new(
        if a.len() >= b.len() {
            a.len()
        } else {
            b.len()
        },
        |i: int| digit_at(a, i) + digit_at(b, i),
    )
}

/// What `a + b` gives: an error for different radixes, otherwise the
/// number whose value is the sum of the values.
pub open spec fn add_result(a: BignumView, b: BignumView, r: Result<Bignum, DomainError>) -> bool {
    if a.radix != b.radix {
        r == Err::<Bignum, DomainError>(DomainError::NotSameRadix(a.radix, b.radix))
    } else {
        r matches Ok(c) && c@ == number(a.value() + b.value(), a.radix)
    }
}

/// What `a - b` gives: an error for different radixes, otherwise the
/// number whose value is the difference of the values.
pub open spec fn sub_result(a: BignumView, b: BignumView, r: Result<Bignum, DomainError>) -> bool {
    if a.radix != b.radix {
        r == Err::<Bignum, DomainError>(DomainError::NotSameRadix(a.radix, b.radix))
    } else {
        r matches Ok(c) && c@ == number(a.value() - b.value(), a.radix)
    }
}

/// What two operands of the same radix need: a radix other than 0, unless
/// there are no digits at all (a radix of 0 divides by zero).
pub open spec fn operands_ok(a: BignumView, b: BignumView) -> bool {
    a.radix == b.radix ==> (a.radix >= 1 || (a.digits.len() == 0 && b.digits.len() == 0))
}

/// Digits of two numbers of radix 1 are zero, as their sum; in radix 0 there
/// are none.
proof fn lemma_sum_accepted(a: BignumView, b: BignumView)
    requires
        a.radix == b.radix,
        operands_ok(a, b),
        a.radix < 2 ==> all_zero(ints(a.digits)) && all_zero(ints(b.digits)),
    ensures
        from_iter_accepts(sum_digits(signed_digits(a, true), signed_digits(b, true)), a.radix),
{
    let sa = signed_digits(a, true);
    let sb = signed_digits(b, true);
    let g = sum_digits(sa, sb);
    if a.radix >= 2 {
        assert forall|i: int| 0 <= i < g.len() implies -510 <= #[trigger] g[i] <= 510 by {
            if i < sa.len() {
                assert(0 <= ints(a.digits)[i] <= 255);
            }
            if i < sb.len() {
                assert(0 <= ints(b.digits)[i] <= 255);
            }
        }
        lemma_small_digits_fit(g, a.radix as int, 510);
    } else if a.radix == 1 {
        assert forall|i: int| 0 <= i < g.len() implies #[trigger] g[i] == 0 by {
            if i < sa.len() {
                assert(ints(a.digits)[i] == 0);
            }
            if i < sb.len() {
                assert(ints(b.digits)[i] == 0);
            }
        }
        lemma_zero_digits_no_carry(g, 1);
        lemma_digits_value_zero(g, 1);
    } else {
        assert(g.len() == 0);
    }
}

impl<'a> core::ops::Add for &'a Bignum {
    type Output = Result<Bignum, DomainError>;

    /// The sum: the signed digits added position by position, normalised.
    fn add(self, rhs: Self) -> (r: Result<Bignum, DomainError>)
        ensures
            add_result(self@, rhs@, r),
    {
        add_numbers(self, rhs)
    }
}

/// The sum of two numbers (see `add_result`).
pub(crate) fn add_numbers(lhs: &Bignum, rhs: &Bignum) -> (r: Result<Bignum, DomainError>)
    requires
        operands_ok(lhs@, rhs@),
    ensures
        add_result(lhs@, rhs@, r),
{
    let s: &Bignum = lhs;
    {
        let radix = s.get_radix();
        let rhs_radix = rhs.get_radix();
        if radix != rhs_radix {
            return Err(DomainError::NotSameRadix(radix, rhs_radix));
        }
        let a = s.map(true);
        let b = rhs.map(true);
        let max_len = if s.len() >= rhs.len() {
            s.len()
        } else {
            rhs.len()
        };
        let ghost sa = signed_digits(s@, true);
        let ghost sb = signed_digits(rhs@, true);
        let ghost goal = sum_digits(sa, sb);
        let mut c: Vec<i64> = Vec::new();
        let mut i: usize = 0;
        while i < max_len
            invariant
                0 <= i <= max_len,
                max_len == goal.len(),
                goal == sum_digits(sa, sb),
                sa == signed_digits(s@, true),
                sb == signed_digits(rhs@, true),
                ints_i64(a@) == sa,
                ints_i64(b@) == sb,
                sa.len() == s@.digits.len(),
                sb.len() == rhs@.digits.len(),
                forall|j: int| 0 <= j < sa.len() ==> -255 <= #[trigger] sa[j] <= 255,
                forall|j: int| 0 <= j < sb.len() ==> -255 <= #[trigger] sb[j] <= 255,
                radix == s@.radix,
                radix == rhs@.radix,
                radix < 2 ==> all_zero(ints(s@.digits)) && all_zero(ints(rhs@.digits)),
                ints_i64(c@) == goal.take(i as int),
            decreases max_len - i,
        {
            let x: i64 = if i < a.len() {
                assert(sa[i as int] == a@[i as int]);
                a[i]
            } else {
                0
            };
            let y: i64 = if i < b.len() {
                assert(sb[i as int] == b@[i as int]);
                b[i]
            } else {
                0
            };
            assert(x == digit_at(sa, i as int));
            assert(y == digit_at(sb, i as int));
            assert(goal[i as int] == digit_at(sa, i as int) + digit_at(sb, i as int));
            let ghost before = c@;
            c.push(x + y);
            assert(ints_i64(c@) =~= ints_i64(before).push(goal[i as int]));
            assert(goal.take(i + 1) =~= goal.take(i as int).push(goal[i as int]));
            i += 1;
        }
        proof {
            assert(goal.take(max_len as int) =~= goal);
            lemma_sum_accepted(s@, rhs@);
            lemma_sum_digits_value(sa, sb, radix as int);
            lemma_signed_digits_value(s@);
            lemma_signed_digits_value(rhs@);
        }
        Bignum::from_iter(c, radix)
    }
}

impl<'a> vstd::std_specs::ops::AddSpecImpl for &'a Bignum {
    open spec fn obeys_add_spec() -> bool {
        false
    }

    open spec fn add_req(self, rhs: &'a Bignum) -> bool {
        operands_ok(self@, rhs@)
    }

    open spec fn add_spec(self, rhs: &'a Bignum) -> Result<Bignum, DomainError> {
        choose|r: Result<Bignum, DomainError>| add_result(self@, rhs@, r)
    }
}

impl<'a> core::ops::Sub for &'a Bignum {
    type Output = Result<Bignum, DomainError>;

    /// The difference, computed as `self + (-rhs)`.
    fn sub(self, rhs: Self) -> (r: Result<Bignum, DomainError>)
        ensures
            sub_result(self@, rhs@, r),
    {
        sub_numbers(self, rhs)
    }
}

/// The difference of two numbers: `lhs + (-rhs)`.
pub(crate) fn sub_numbers(lhs: &Bignum, rhs: &Bignum) -> (r: Result<Bignum, DomainError>)
    requires
        operands_ok(lhs@, rhs@),
    ensures
        sub_result(lhs@, rhs@, r),
{
    let rhs_neg = rhs.reverse();
    proof {
        lemma_negated_value(rhs@);
    }
    add_numbers(lhs, &rhs_neg)
}

impl<'a> vstd::std_specs::ops::SubSpecImpl for &'a Bignum {
    open spec fn obeys_sub_spec() -> bool {
        false
    }

    open spec fn sub_req(self, rhs: &'a Bignum) -> bool {
        operands_ok(self@, rhs@)
    }

    open spec fn sub_spec(self, rhs: &'a Bignum) -> Result<Bignum, DomainError> {
        choose|r: Result<Bignum, DomainError>| sub_result(self@, rhs@, r)
    }
}

/// What `a * b` gives: an error for different radixes, otherwise the
/// number whose value is the product of the values.
pub open spec fn mul_result(a: BignumView, b: BignumView, r: Result<Bignum, DomainError>) -> bool {
    if a.radix != b.radix {
        r == Err::<Bignum, DomainError>(DomainError::NotSameRadix(a.radix, b.radix))
    } else {
        r matches Ok(c) && c@ == number(a.value() * b.value(), a.radix)
    }
}

/// The number of value `low + r * x`, for a digit `low` of either sign:
/// `x` moved up one position with `low` below it.
pub(crate) fn shift_in(x: &Bignum, low: i64) -> (r: Bignum)
    requires
        x@.radix >= 2,
        -255 <= low <= 255,
    ensures
        r@ == number(low + x@.radix * x@.value(), x@.radix),
{
    let radix = x.get_radix();
    let digits = x.map(true);
    let mut d: Vec<i64> = Vec::new();
    d.push(low);
    let mut i: usize = 0;
    let ghost sx = signed_digits(x@, true);
    proof {
        lemma_signed_digits_bounded(x@, true);
    }
    while i < digits.len()
        invariant
            0 <= i <= digits.len(),
            ints_i64(digits@) == sx,
            sx.len() == digits.len(),
            ints_i64(d@) == seq![low as int] + sx.take(i as int),
        decreases digits.len() - i,
    {
        let ghost before = d@;
        d.push(digits[i]);
        assert(ints_i64(d@) =~= ints_i64(before).push(sx[i as int]));
        assert(sx.take(i + 1) =~= sx.take(i as int).push(sx[i as int]));
        i += 1;
    }
    let ghost g = ints_i64(d@);
    proof {
        let rr = radix as int;
        assert(sx.take(digits.len() as int) =~= sx);
        assert forall|k: int| 0 <= k < g.len() implies -255 <= #[trigger] g[k] <= 255 by {
            if k > 0 {
                assert(g[k] == sx[k - 1]);
            }
        }
        lemma_small_digits_fit(g, rr, 255);
        lemma_digits_value_append(seq![low as int], sx, rr);
        assert(seq![low as int].drop_last() =~= Seq::<int>::empty());
        assert(radix_pow(rr, 0) == 1);
        assert(radix_pow(rr, 1) == rr * radix_pow(rr, 0));
        assert(g =~= seq![low as int] + sx);
        assert(digits_value(seq![low as int], rr) == low) by {
            assert(digits_value(Seq::<int>::empty(), rr) == 0);
        }
        lemma_signed_digits_value(x@);
    }
    Bignum::from_iter(d, radix).unwrap()
}

/// The number of value `t * x`, for a digit `t` of either sign.
pub(crate) fn scale(x: &Bignum, t: i64) -> (r: Bignum)
    requires
        x@.radix >= 2,
        -255 <= t <= 255,
    ensures
        r@ == number(t * x@.value(), x@.radix),
{
    let radix = x.get_radix();
    let digits = x.map(true);
    let ghost sx = signed_digits(x@, true);
    let ghost goal = sx.map_values(|e: int| t * e);
    proof {
        lemma_signed_digits_bounded(x@, true);
    }
    let mut d: Vec<i64> = Vec::new();
    let mut i: usize = 0;
    while i < digits.len()
        invariant
            0 <= i <= digits.len(),
            ints_i64(digits@) == sx,
            sx.len() == digits.len(),
            -255 <= t <= 255,
            goal == sx.map_values(|e: int| t * e),
            forall|k: int| 0 <= k < sx.len() ==> -255 <= #[trigger] sx[k] <= 255,
            ints_i64(d@) == goal.take(i as int),
        decreases digits.len() - i,
    {
        let e = digits[i];
        assert(e == sx[i as int]);
        assert(-65025 <= t * e <= 65025) by (nonlinear_arith)
            requires
                -255 <= t <= 255,
                -255 <= e <= 255,
        ;
        let ghost before = d@;
        d.push(t * e);
        assert(ints_i64(d@) =~= ints_i64(before).push(goal[i as int]));
        assert(goal.take(i + 1) =~= goal.take(i as int).push(goal[i as int]));
        i += 1;
    }
    proof {
        let rr = radix as int;
        assert(goal.take(digits.len() as int) =~= goal);
        assert forall|k: int| 0 <= k < goal.len() implies -65025 <= #[trigger] goal[k] <= 65025 by {
            let e = sx[k];
            assert(-65025 <= t * e <= 65025) by (nonlinear_arith)
                requires
                    -255 <= t <= 255,
                    -255 <= e <= 255,
            ;
        }
        lemma_small_digits_fit(goal, rr, 65025);
        lemma_digits_value_scale(sx, t as int, rr);
        lemma_signed_digits_value(x@);
    }
    Bignum::from_iter(d, radix).unwrap()
}

impl<'a> core::ops::Mul for &'a Bignum {
    type Output = Result<Bignum, DomainError>;

    /// The product.
    fn mul(self, rhs: Self) -> (r: Result<Bignum, DomainError>)
        ensures
            mul_result(self@, rhs@, r),
    {
        mul_numbers(self, rhs)
    }
}

/// The product of two numbers (see `mul_result`): the digits of `lhs` are
/// taken from the top, and at each one the product so far is moved up one
/// position and the digit times `rhs` is added.
pub(crate) fn mul_numbers(lhs: &Bignum, rhs: &Bignum) -> (r: Result<Bignum, DomainError>)
    requires
        lhs@.radix == rhs@.radix ==> lhs@.radix >= 1,
    ensures
        mul_result(lhs@, rhs@, r),
{
    let radix = lhs.get_radix();
    let rhs_radix = rhs.get_radix();
    if radix != rhs_radix {
        return Err(DomainError::NotSameRadix(radix, rhs_radix));
    }
    if radix < 2 {
        let empty: Vec<i64> = Vec::new();
        proof {
            lemma_digits_value_zero(ints(lhs@.digits), radix as int);
            assert(ints_i64(empty@) =~= Seq::<int>::empty());
            assert(digits_value(Seq::<int>::empty(), radix as int) == 0);
            assert(lhs@.value() * rhs@.value() == 0) by (nonlinear_arith)
                requires
                    lhs@.magnitude() == 0,
                    lhs@.value() == lhs@.magnitude() || lhs@.value() == -lhs@.magnitude(),
            ;
        }
        return Bignum::from_iter(empty, radix);
    }
    let a = lhs.map(true);
    let ghost sa = signed_digits(lhs@, true);
    let ghost rr = radix as int;
    let ghost bv = rhs@.value();
    let n = a.len();
    proof {
        lemma_signed_digits_bounded(lhs@, true);
        assert(sa.subrange(n as int, n as int) =~= Seq::<int>::empty());
        assert(digits_value(Seq::<int>::empty(), rr) == 0);
        lemma_view_of(0, radix, false);
    }
    let empty: Vec<i64> = Vec::new();
    assert(ints_i64(empty@) =~= Seq::<int>::empty());
    let mut acc = Bignum::from_iter(empty, radix).unwrap();
    let mut i: usize = n;
    while i > 0
        invariant
            0 <= i <= n,
            n == sa.len(),
            ints_i64(a@) == sa,
            rr == radix as int,
            rr >= 2,
            rhs@.radix == radix,
            bv == rhs@.value(),
            forall|k: int| 0 <= k < sa.len() ==> -255 <= #[trigger] sa[k] <= 255,
            acc@ == number(digits_value(sa.subrange(i as int, n as int), rr) * bv, radix),
        decreases i,
    {
        i -= 1;
        let ghost rest = sa.subrange(i + 1, n as int);
        let ghost vr = digits_value(rest, rr);
        let ghost di = sa[i as int];
        proof {
            lemma_number_value(vr * bv, radix);
        }
        let up = shift_in(&acc, 0);
        let part = scale(rhs, a[i]);
        assert(a@[i as int] == di);
        acc = match add_numbers(&up, &part) {
            Ok(v) => v,
            Err(e) => return Err(e),
        };
        proof {
            assert(sa.subrange(i as int, n as int) =~= seq![di] + rest);
            lemma_digits_value_append(seq![di], rest, rr);
            assert(seq![di].drop_last() =~= Seq::<int>::empty());
            assert(radix_pow(rr, 0) == 1);
            assert(radix_pow(rr, 1) == rr * radix_pow(rr, 0));
            assert(digits_value(seq![di], rr) == di) by {
                assert(digits_value(Seq::<int>::empty(), rr) == 0);
            }
            lemma_number_value(rr * (vr * bv), radix);
            lemma_number_value(di * bv, radix);
            assert(rr * (vr * bv) + di * bv == (di + rr * vr) * bv) by (nonlinear_arith);
        }
    }
    proof {
        assert(sa.subrange(0, n as int) =~= sa);
        lemma_signed_digits_value(lhs@);
    }
    Ok(acc)
}

impl<'a> vstd::std_specs::ops::MulSpecImpl for &'a Bignum {
    open spec fn obeys_mul_spec() -> bool {
        false
    }

    open spec fn mul_req(self, rhs: &'a Bignum) -> bool {
        self@.radix == rhs@.radix ==> self@.radix >= 1
    }

    open spec fn mul_spec(self, rhs: &'a Bignum) -> Result<Bignum, DomainError> {
        choose|r: Result<Bignum, DomainError>| mul_result(self@, rhs@, r)
    }
}

} // verus!
