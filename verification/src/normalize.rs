//! Normalisation of a sequence of signed "digits" of any size into the digits
//! of a `Bignum`.
//!
//! It runs in two passes. The first pass carries from the low end with
//! truncating division, so that every digit ends up strictly between `-r` and
//! `r`, and appends the digits of the final carry. It remembers the sign of the
//! highest non-zero digit produced, final carry included: the sign of the
//! value, and so the *sign* of the result. The second pass multiplies every
//! digit by that sign and borrows, so that every digit lies in `[0, r)`; the
//! result is then the magnitude of the value.
use vstd::prelude::*;
use crate::digits::{
    abs_int, digits_in_range, digits_small, digits_value, lemma_digits_value_append,
    lemma_digits_value_bounds, lemma_digits_value_push, lemma_digits_value_small, lemma_tdiv_trem,
    radix_pow, sgn, tdiv,
    trem,
};

verus! {

/// The carry that enters position `k` of the first pass.
pub open spec fn carry_before(d: Seq<int>, r: int, k: nat) -> int
    decreases k,
{
    if k == 0 {
        0
    } else {
        tdiv(d[k - 1] + carry_before(d, r, (k - 1) as nat), r)
    }
}

/// The digit that the first pass leaves at position `k < d.len()`.
pub open spec fn low_digit(d: Seq<int>, r: int, k: int) -> int {
    trem(d[k] + carry_before(d, r, k as nat), r)
}

/// The digits that the carrying loop of the first pass leaves, one per input digit.
pub open spec fn low_digits(d: Seq<int>, r: int) -> Seq<int> {
    Seq::new(d.len(), |k: int| low_digit(d, r, k))
}

/// The truncated digits of a carry `c`, lowest first: `c % r`, `(c / r) % r`, ...
/// until the quotient is zero (empty for `r < 2`).
pub open spec fn carry_digits(c: int, r: int) -> Seq<int>
    decreases abs_int(c),
{
    if c == 0 || r < 2 {
        Seq::empty()
    } else {
        proof {
            lemma_tdiv_trem(c, r);
        }
        seq![trem(c, r)] + carry_digits(tdiv(c, r), r)
    }
}

/// All digits after the first pass.
pub open spec fn first_pass(d: Seq<int>, r: int) -> Seq<int> {
    low_digits(d, r) + carry_digits(carry_before(d, r, d.len()), r)
}

/// The borrow that enters position `k` of the second pass (0 or -1).
pub open spec fn borrow_before(w: Seq<int>, s: int, r: int, k: nat) -> int
    decreases k,
{
    if k == 0 {
        0
    } else if w[k - 1] * s + borrow_before(w, s, r, (k - 1) as nat) < 0 {
        -1
    } else {
        0
    }
}

/// The digit that the second pass writes at position `k`.
pub open spec fn out_digit(w: Seq<int>, s: int, r: int, k: int) -> int {
    let x = w[k] * s + borrow_before(w, s, r, k as nat);
    if x < 0 {
        x + r
    } else {
        x
    }
}

/// All digits after the second pass.
pub open spec fn second_pass(w: Seq<int>, s: int, r: int) -> Seq<int> {
    Seq::new(w.len(), |k: int| out_digit(w, s, r, k))
}

/// No sum of an input digit and the incoming carry leaves the range of `i64`.
pub open spec fn carries_fit_i64(d: Seq<int>, r: int) -> bool {
    forall|k: int|
        0 <= k < d.len() ==> i64::MIN <= #[trigger] d[k] + carry_before(d, r, k as nat)
            <= i64::MAX
}

/// The sign of the highest non-zero element of `w`, or 0 when all are zero.
pub open spec fn top_sign(w: Seq<int>) -> int
    decreases w.len(),
{
    if w.len() == 0 {
        0
    } else if w.last() != 0 {
        sgn(w.last())
    } else {
        top_sign(w.drop_last())
    }
}

/// The sign that normalisation gives the result (see the module's description).
pub open spec fn normal_sign(d: Seq<int>, r: int) -> int {
    top_sign(first_pass(d, r))
}

/// Appending `x` makes `x` the top sign unless it is zero.
pub proof fn lemma_top_sign_push(w: Seq<int>, x: int)
    ensures
        top_sign(w.push(x)) == if x != 0 { sgn(x) } else { top_sign(w) },
{
    assert(w.push(x).drop_last() =~= w);
}

/// The top sign is -1, 0 or 1.
pub proof fn lemma_top_sign_range(w: Seq<int>)
    ensures
        -1 <= top_sign(w) <= 1,
    decreases w.len(),
{
    if w.len() > 0 {
        lemma_top_sign_range(w.drop_last());
    }
}

/// For digits strictly between `-r` and `r`, the highest non-zero digit has
/// the sign of the value.
pub proof fn lemma_top_sign_is_sign(w: Seq<int>, r: int)
    requires
        r >= 1,
        digits_small(w, r),
    ensures
        top_sign(w) == sgn(digits_value(w, r)),
    decreases w.len(),
{
    if w.len() > 0 {
        let t = w.drop_last();
        assert(digits_small(t, r)) by {
            assert forall|i: int| 0 <= i < t.len() implies -r < #[trigger] t[i] < r by {
                assert(t[i] == w[i]);
            }
        }
        lemma_top_sign_is_sign(t, r);
        lemma_digits_value_small(t, r);
        let p = radix_pow(r, t.len());
        crate::digits::lemma_radix_pow_positive(r, t.len());
        let v = digits_value(t, r);
        let e = w.last();
        assert(e == w[w.len() - 1]);
        if e > 0 {
            assert(v + e * p > 0) by (nonlinear_arith)
                requires
                    -p < v < p,
                    e >= 1,
            ;
        } else if e < 0 {
            assert(v + e * p < 0) by (nonlinear_arith)
                requires
                    -p < v < p,
                    e <= -1,
            ;
        } else {
            assert(e * p == 0) by (nonlinear_arith)
                requires
                    e == 0,
            ;
        }
    }
}

/// The number of digits that the two passes produce.
pub open spec fn normal_len(d: Seq<int>, r: int) -> nat {
    first_pass(d, r).len()
}

/// What the second pass computes: with `v` the value of `d` and `s` the sign
/// as above, `s * v` when that is not negative, and otherwise `s * v + r^n`,
/// `n` being the number of digits produced (a borrow out of the top). Since
/// `s` is the sign of `v`, the second case never arises and this is `|v|`
/// (`lemma_normal_exact`).
pub open spec fn normal_magnitude(d: Seq<int>, r: int) -> int {
    let sv = normal_sign(d, r) * digits_value(d, r);
    if sv >= 0 {
        sv
    } else {
        sv + radix_pow(r, normal_len(d, r))
    }
}

/// The first pass keeps the value: what the carrying loop left below `k`, plus
/// the carry at `k`, is the value of the first `k` input digits.
pub proof fn lemma_first_pass_prefix(d: Seq<int>, r: int, k: nat)
    requires
        r >= 1,
        k <= d.len(),
    ensures
        digits_value(low_digits(d, r).take(k as int), r) + carry_before(d, r, k) * radix_pow(r, k)
            == digits_value(d.take(k as int), r),
        digits_small(low_digits(d, r).take(k as int), r),
    decreases k,
{
    if k == 0 {
        assert(low_digits(d, r).take(0) =~= Seq::<int>::empty());
        assert(d.take(0) =~= Seq::<int>::empty());
    } else {
        let j = (k - 1) as nat;
        lemma_first_pass_prefix(d, r, j);
        let lo = low_digits(d, r);
        assert(lo.take(k as int) =~= lo.take(j as int).push(lo[j as int]));
        assert(d.take(k as int) =~= d.take(j as int).push(d[j as int]));
        lemma_digits_value_push(lo.take(j as int), lo[j as int], r);
        lemma_digits_value_push(d.take(j as int), d[j as int], r);
        let t = d[j as int] + carry_before(d, r, j);
        lemma_tdiv_trem(t, r);
        let p = radix_pow(r, j);
        let c = carry_before(d, r, j);
        let q = tdiv(t, r);
        let e = trem(t, r);
        assert(carry_before(d, r, k) == q);
        assert(lo[j as int] == e);
        assert(radix_pow(r, k) == r * p);
        assert(e * p + q * (r * p) == c * p + d[j as int] * p) by (nonlinear_arith)
            requires
                t == r * q + e,
                t == d[j as int] + c,
        ;
        assert(digits_small(lo.take(k as int), r)) by {
            assert forall|i: int| 0 <= i < k implies -r < #[trigger] lo.take(k as int)[i] < r by {
                if i < j {
                    assert(lo.take(k as int)[i] == lo.take(j as int)[i]);
                }
            }
        }
    }
}

/// The digits of a carry have the carry's value and are small.
pub proof fn lemma_carry_digits(c: int, r: int)
    requires
        r >= 2,
    ensures
        digits_value(carry_digits(c, r), r) == c,
        digits_small(carry_digits(c, r), r),
    decreases abs_int(c),
{
    if c != 0 {
        lemma_tdiv_trem(c, r);
        let q = tdiv(c, r);
        let rest = carry_digits(q, r);
        lemma_carry_digits(q, r);
        lemma_digits_value_append(seq![trem(c, r)], rest, r);
        let one = seq![trem(c, r)];
        assert(one.drop_last() =~= Seq::<int>::empty());
        assert(radix_pow(r, 0) == 1);
        assert(digits_value(Seq::<int>::empty(), r) == 0);
        assert(digits_value(one, r) == trem(c, r));
        assert(radix_pow(r, 1) == r * radix_pow(r, 0));
        let all = one + rest;
        assert(digits_small(all, r)) by {
            assert forall|i: int| 0 <= i < all.len() implies -r < #[trigger] all[i] < r by {
                if i > 0 {
                    assert(all[i] == rest[i - 1]);
                }
            }
        }
    }
}

/// The second pass, up to position `k`: it produces digits in `[0, r)` whose
/// value is `s` times the value of the first `k` digits, minus the outgoing
/// borrow at the next power.
pub proof fn lemma_second_pass_prefix(w: Seq<int>, s: int, r: int, k: nat)
    requires
        r >= 1,
        -1 <= s <= 1,
        k <= w.len(),
        digits_small(w, r),
    ensures
        digits_value(second_pass(w, s, r).take(k as int), r) == s * digits_value(
            w.take(k as int),
            r,
        ) - borrow_before(w, s, r, k) * radix_pow(r, k),
        digits_in_range(second_pass(w, s, r).take(k as int), r),
        -1 <= borrow_before(w, s, r, k) <= 0,
    decreases k,
{
    let o = second_pass(w, s, r);
    if k == 0 {
        assert(o.take(0) =~= Seq::<int>::empty());
        assert(w.take(0) =~= Seq::<int>::empty());
    } else {
        let j = (k - 1) as nat;
        lemma_second_pass_prefix(w, s, r, j);
        assert(o.take(k as int) =~= o.take(j as int).push(o[j as int]));
        assert(w.take(k as int) =~= w.take(j as int).push(w[j as int]));
        lemma_digits_value_push(o.take(j as int), o[j as int], r);
        lemma_digits_value_push(w.take(j as int), w[j as int], r);
        let b = borrow_before(w, s, r, j);
        let x = w[j as int] * s + b;
        let wj = w[j as int];
        assert(-r < wj < r);
        assert(-r < wj * s < r) by (nonlinear_arith)
            requires
                -r < wj < r,
                -1 <= s <= 1,
        ;
        let p = radix_pow(r, j);
        assert(radix_pow(r, k) == r * p);
        let nb = borrow_before(w, s, r, k);
        assert(o[j as int] == out_digit(w, s, r, j as int));
        let oj = o[j as int];
        if x < 0 {
            assert(nb == -1);
            assert(oj == x + r);
            assert(oj == x - r * nb) by (nonlinear_arith)
                requires
                    nb == -1,
                    oj == x + r,
            ;
        } else {
            assert(nb == 0);
            assert(oj == x);
            assert(oj == x - r * nb) by (nonlinear_arith)
                requires
                    nb == 0,
                    oj == x,
            ;
        }
        let v = digits_value(w.take(j as int), r);
        assert(s * v - b * p + (x - r * nb) * p == s * (v + wj * p) - nb * (r * p))
            by (nonlinear_arith)
            requires
                x == wj * s + b,
        ;
        assert(digits_in_range(o.take(k as int), r)) by {
            assert forall|i: int| 0 <= i < k implies 0 <= #[trigger] o.take(k as int)[i] < r by {
                if i < j {
                    assert(o.take(k as int)[i] == o.take(j as int)[i]);
                }
            }
        }
    }
}

/// With every digit of the first pass small, the second pass yields
/// exactly `normal_magnitude`.
#[verifier::spinoff_prover]
#[verifier::rlimit(50)]
pub proof fn lemma_normal_magnitude(d: Seq<int>, r: int)
    requires
        r >= 1,
        r == 1 ==> carry_before(d, r, d.len()) == 0,
    ensures
        digits_small(first_pass(d, r), r),
        -1 <= normal_sign(d, r) <= 1,
        digits_value(first_pass(d, r), r) == digits_value(d, r),
        digits_in_range(second_pass(first_pass(d, r), normal_sign(d, r), r), r),
        digits_value(second_pass(first_pass(d, r), normal_sign(d, r), r), r) == normal_magnitude(
            d,
            r,
        ),
{
    let n = d.len();
    let lo = low_digits(d, r);
    let c = carry_before(d, r, n);
    let cd = carry_digits(c, r);
    let w = first_pass(d, r);
    let s = normal_sign(d, r);
    lemma_first_pass_prefix(d, r, n);
    assert(lo.take(n as int) =~= lo);
    assert(d.take(n as int) =~= d);
    if r >= 2 {
        lemma_carry_digits(c, r);
    } else {
        assert(cd =~= Seq::<int>::empty());
        assert(digits_small(cd, r));
    }
    lemma_digits_value_append(lo, cd, r);
    assert(digits_value(cd, r) == c);
    assert(radix_pow(r, n) * c == c * radix_pow(r, n)) by (nonlinear_arith);
    assert(digits_value(w, r) == digits_value(d, r));
    assert(digits_small(w, r)) by {
        assert forall|i: int| 0 <= i < w.len() implies -r < #[trigger] w[i] < r by {
            if i < lo.len() {
                assert(w[i] == lo[i]);
            } else {
                assert(w[i] == cd[i - lo.len()]);
            }
        }
    }
    lemma_top_sign_range(w);
    let m = w.len();
    lemma_second_pass_prefix(w, s, r, m);
    let o = second_pass(w, s, r);
    assert(o.take(m as int) =~= o);
    assert(w.take(m as int) =~= w);
    lemma_digits_value_bounds(o, r);
    let b = borrow_before(w, s, r, m);
    let p = radix_pow(r, m);
    let v = digits_value(d, r);
    assert(digits_value(o, r) == s * v - b * p);
    if b == 0 {
        assert(s * v >= 0);
    } else {
        assert(b == -1);
        assert(s * v - b * p == s * v + p) by (nonlinear_arith)
            requires
                b == -1,
        ;
        assert(s * v < 0);
    }
}

/// Normalisation keeps the value: its sign is the sign of the value of `d`
/// and its magnitude the absolute value.
pub proof fn lemma_normal_exact(d: Seq<int>, r: int)
    requires
        r >= 1,
        r == 1 ==> carry_before(d, r, d.len()) == 0,
    ensures
        normal_sign(d, r) == sgn(digits_value(d, r)),
        normal_magnitude(d, r) == abs_int(digits_value(d, r)),
{
    lemma_normal_magnitude(d, r);
    lemma_top_sign_is_sign(first_pass(d, r), r);
    let v = digits_value(d, r);
    let s = sgn(v);
    if v < 0 {
        assert(s * v == -v) by (nonlinear_arith)
            requires
                s == -1,
        ;
    } else if v > 0 {
        assert(s * v == v) by (nonlinear_arith)
            requires
                s == 1,
        ;
    } else {
        assert(s * v == 0) by (nonlinear_arith)
            requires
                v == 0,
        ;
    }
}

/// With every digit at most `bound` in absolute value and a radix of at least
/// 2, no carry exceeds `bound` either.
pub proof fn lemma_carries_bounded(d: Seq<int>, r: int, bound: int, k: nat)
    requires
        r >= 2,
        k <= d.len(),
        bound >= 0,
        forall|i: int| 0 <= i < d.len() ==> -bound <= #[trigger] d[i] <= bound,
    ensures
        -bound <= carry_before(d, r, k) <= bound,
    decreases k,
{
    if k > 0 {
        let j = (k - 1) as nat;
        lemma_carries_bounded(d, r, bound, j);
        let t = d[j as int] + carry_before(d, r, j);
        lemma_tdiv_trem(t, r);
        let q = tdiv(t, r);
        assert(abs_int(q) <= bound) by (nonlinear_arith)
            requires
                abs_int(q) * r <= abs_int(t),
                abs_int(t) <= 2 * bound,
                r >= 2,
                abs_int(q) >= 0,
        ;
        assert(carry_before(d, r, k) == q);
    }
}

/// Zero digits carry nothing.
pub proof fn lemma_zero_digits_carry(d: Seq<int>, r: int, k: nat)
    requires
        r >= 1,
        k <= d.len(),
        forall|i: int| 0 <= i < d.len() ==> #[trigger] d[i] == 0,
    ensures
        carry_before(d, r, k) == 0,
    decreases k,
{
    if k > 0 {
        lemma_zero_digits_carry(d, r, (k - 1) as nat);
        assert(carry_before(d, r, k) == tdiv(0, r));
    }
}

/// Zero digits never overflow a carry.
pub proof fn lemma_zero_digits_no_carry(d: Seq<int>, r: int)
    requires
        r >= 1,
        forall|i: int| 0 <= i < d.len() ==> #[trigger] d[i] == 0,
    ensures
        carries_fit_i64(d, r),
{
    assert forall|j: int| 0 <= j < d.len() implies i64::MIN <= #[trigger] d[j] + carry_before(
        d,
        r,
        j as nat,
    ) <= i64::MAX by {
        lemma_zero_digits_carry(d, r, j as nat);
    }
}

/// Digits of at most half the range of `i64` never overflow a carry.
pub proof fn lemma_small_digits_fit(d: Seq<int>, r: int, bound: int)
    requires
        r >= 2,
        0 <= bound <= i64::MAX / 2,
        forall|i: int| 0 <= i < d.len() ==> -bound <= #[trigger] d[i] <= bound,
    ensures
        carries_fit_i64(d, r),
{
    assert forall|k: int| 0 <= k < d.len() implies i64::MIN <= #[trigger] d[k] + carry_before(
        d,
        r,
        k as nat,
    ) <= i64::MAX by {
        lemma_carries_bounded(d, r, bound, k as nat);
    }
}

} // verus!
