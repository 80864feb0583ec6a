//! Positional notation over an arbitrary radix: the value of a little-endian
//! digit sequence, truncating division, and the facts about them that the
//! arithmetic of `Bignum` rests on.
use vstd::prelude::*;

verus! {

/// `r` raised to the `n`-th power.
pub open spec fn radix_pow(r: int, n: nat) -> int
    decreases n,
{
    if n == 0 {
        1
    } else {
        r * radix_pow(r, (n - 1) as nat)
    }
}

/// The value of the little-endian digit sequence `s` in radix `r`:
/// `s[0] + s[1] * r + s[2] * r^2 + ...`. Digits may be any integers.
pub open spec fn digits_value(s: Seq<int>, r: int) -> int
    decreases s.len(),
{
    if s.len() == 0 {
        0
    } else {
        digits_value(s.drop_last(), r) + s.last() * radix_pow(r, (s.len() - 1) as nat)
    }
}

/// Byte digits seen as integers.
pub open spec fn ints(s: Seq<u8>) -> Seq<int> {
    s.map_values(|d: u8| d as int)
}

/// Machine integers seen as integers.
pub open spec fn ints_i64(s: Seq<i64>) -> Seq<int> {
    s.map_values(|d: i64| d as int)
}

/// Every digit lies in `[0, r)`.
pub open spec fn digits_in_range(s: Seq<int>, r: int) -> bool {
    forall|i: int| 0 <= i < s.len() ==> 0 <= #[trigger] s[i] < r
}

/// Every digit lies strictly between `-r` and `r`.
pub open spec fn digits_small(s: Seq<int>, r: int) -> bool {
    forall|i: int| 0 <= i < s.len() ==> -r < #[trigger] s[i] < r
}

/// Every digit is zero.
pub open spec fn all_zero(s: Seq<int>) -> bool {
    forall|i: int| 0 <= i < s.len() ==> #[trigger] s[i] == 0
}

/// The sign of `x`: -1, 0 or 1.
pub open spec fn sgn(x: int) -> int {
    if x > 0 {
        1
    } else if x < 0 {
        -1
    } else {
        0
    }
}

/// Absolute value.
pub open spec fn abs_int(x: int) -> int {
    if x >= 0 {
        x
    } else {
        -x
    }
}

/// Division that rounds toward zero, as Rust's `/` on signed integers (`r > 0`).
pub open spec fn tdiv(a: int, r: int) -> int {
    if a >= 0 {
        a / r
    } else {
        -((-a) / r)
    }
}

/// The remainder that goes with `tdiv`, as Rust's `%` on signed integers: it
/// has the sign of `a`.
pub open spec fn trem(a: int, r: int) -> int {
    a - r * tdiv(a, r)
}

pub proof fn lemma_radix_pow_positive(r: int, n: nat)
    requires
        r >= 1,
    ensures
        radix_pow(r, n) >= 1,
    decreases n,
{
    if n > 0 {
        lemma_radix_pow_positive(r, (n - 1) as nat);
        assert(r * radix_pow(r, (n - 1) as nat) >= radix_pow(r, (n - 1) as nat)) by (nonlinear_arith)
            requires
                r >= 1,
                radix_pow(r, (n - 1) as nat) >= 1,
        ;
    }
}

pub proof fn lemma_radix_pow_one(n: nat)
    ensures
        radix_pow(1, n) == 1,
    decreases n,
{
    if n > 0 {
        lemma_radix_pow_one((n - 1) as nat);
    }
}

pub proof fn lemma_radix_pow_adds(r: int, a: nat, b: nat)
    ensures
        radix_pow(r, a + b) == radix_pow(r, a) * radix_pow(r, b),
    decreases b,
{
    if b > 0 {
        lemma_radix_pow_adds(r, a, (b - 1) as nat);
        assert(radix_pow(r, a + b) == r * radix_pow(r, (a + b - 1) as nat));
        assert(r * (radix_pow(r, a) * radix_pow(r, (b - 1) as nat)) == radix_pow(r, a) * (r
            * radix_pow(r, (b - 1) as nat))) by (nonlinear_arith);
    }
}

pub proof fn lemma_radix_pow_monotone(r: int, a: nat, b: nat)
    requires
        r >= 1,
        a <= b,
    ensures
        radix_pow(r, a) <= radix_pow(r, b),
    decreases b,
{
    if a < b {
        lemma_radix_pow_monotone(r, a, (b - 1) as nat);
        lemma_radix_pow_positive(r, (b - 1) as nat);
        assert(r * radix_pow(r, (b - 1) as nat) >= radix_pow(r, (b - 1) as nat)) by (nonlinear_arith)
            requires
                r >= 1,
                radix_pow(r, (b - 1) as nat) >= 1,
        ;
    }
}

pub proof fn lemma_tdiv_trem(a: int, r: int)
    requires
        r > 0,
    ensures
        a == r * tdiv(a, r) + trem(a, r),
        a >= 0 ==> 0 <= trem(a, r) < r && tdiv(a, r) >= 0,
        a < 0 ==> -r < trem(a, r) <= 0 && tdiv(a, r) <= 0,
        abs_int(tdiv(a, r)) * r <= abs_int(a),
        r >= 2 && a != 0 ==> abs_int(tdiv(a, r)) < abs_int(a),
{
    if a >= 0 {
        assert(0 <= a % r < r && a == r * (a / r) + a % r && a / r >= 0) by (nonlinear_arith)
            requires
                r > 0,
                a >= 0,
        ;
        assert(r >= 2 && a != 0 ==> a / r < a) by (nonlinear_arith)
            requires
                r > 0,
                a >= 0,
        ;
        assert((a / r) * r <= a) by (nonlinear_arith)
            requires
                r > 0,
                a >= 0,
        ;
    } else {
        let b = -a;
        assert(0 <= b % r < r && b == r * (b / r) + b % r && b / r >= 0) by (nonlinear_arith)
            requires
                r > 0,
                b > 0,
        ;
        assert(r >= 2 ==> b / r < b) by (nonlinear_arith)
            requires
                r > 0,
                b > 0,
        ;
        assert((b / r) * r <= b) by (nonlinear_arith)
            requires
                r > 0,
                b > 0,
        ;
        assert(r * tdiv(a, r) == -(r * (b / r))) by (nonlinear_arith)
            requires
                tdiv(a, r) == -(b / r),
        ;
    }
}

/// Appending a digit adds it at the next power.
pub proof fn lemma_digits_value_push(s: Seq<int>, x: int, r: int)
    ensures
        digits_value(s.push(x), r) == digits_value(s, r) + x * radix_pow(r, s.len()),
{
    assert(s.push(x).drop_last() =~= s);
}

/// A digit sequence in range has a value in `[0, r^len)`.
pub proof fn lemma_digits_value_bounds(s: Seq<int>, r: int)
    requires
        r >= 1,
        digits_in_range(s, r),
    ensures
        0 <= digits_value(s, r) < radix_pow(r, s.len()),
    decreases s.len(),
{
    if s.len() > 0 {
        let t = s.drop_last();
        assert(digits_in_range(t, r));
        lemma_digits_value_bounds(t, r);
        let p = radix_pow(r, t.len());
        let x = s.last();
        assert(0 <= x < r);
        assert(0 <= digits_value(t, r) + x * p < r * p) by (nonlinear_arith)
            requires
                0 <= digits_value(t, r) < p,
                0 <= x < r,
        ;
    }
}

/// Digits strictly between `-r` and `r` give a value strictly between `-r^len` and `r^len`.
pub proof fn lemma_digits_value_small(s: Seq<int>, r: int)
    requires
        r >= 1,
        digits_small(s, r),
    ensures
        -radix_pow(r, s.len()) < digits_value(s, r) < radix_pow(r, s.len()),
    decreases s.len(),
{
    if s.len() > 0 {
        let t = s.drop_last();
        assert(digits_small(t, r));
        lemma_digits_value_small(t, r);
        let p = radix_pow(r, t.len());
        let x = s.last();
        assert(-r < x < r);
        assert(-(r * p) < digits_value(t, r) + x * p < r * p) by (nonlinear_arith)
            requires
                -p < digits_value(t, r) < p,
                -r < x < r,
        ;
    }
}

/// Trailing zero digits do not change the value.
pub proof fn lemma_digits_value_trailing_zeros(s: Seq<int>, k: int, r: int)
    requires
        0 <= k <= s.len(),
        forall|i: int| k <= i < s.len() ==> s[i] == 0,
    ensures
        digits_value(s, r) == digits_value(s.subrange(0, k), r),
    decreases s.len(),
{
    if s.len() > k {
        let t = s.drop_last();
        assert(t.subrange(0, k) =~= s.subrange(0, k));
        lemma_digits_value_trailing_zeros(t, k, r);
        assert(s.last() == s[s.len() - 1]);
        assert(s.last() * radix_pow(r, (s.len() - 1) as nat) == 0);
    } else {
        assert(s.subrange(0, k) =~= s);
    }
}

/// All-zero digits have value zero.
pub proof fn lemma_digits_value_zero(s: Seq<int>, r: int)
    requires
        all_zero(s),
    ensures
        digits_value(s, r) == 0,
{
    lemma_digits_value_trailing_zeros(s, 0, r);
    assert(s.subrange(0, 0) =~= Seq::<int>::empty());
}

/// The value of a concatenation.
pub proof fn lemma_digits_value_append(s: Seq<int>, t: Seq<int>, r: int)
    ensures
        digits_value(s + t, r) == digits_value(s, r) + radix_pow(r, s.len()) * digits_value(t, r),
    decreases t.len(),
{
    if t.len() == 0 {
        assert(s + t =~= s);
    } else {
        let t0 = t.drop_last();
        lemma_digits_value_append(s, t0, r);
        assert((s + t).drop_last() =~= s + t0);
        lemma_radix_pow_adds(r, s.len(), t0.len());
        let a = radix_pow(r, s.len());
        let b = radix_pow(r, t0.len());
        assert(a * (digits_value(t0, r) + t.last() * b) == a * digits_value(t0, r) + t.last() * (a
            * b)) by (nonlinear_arith);
    }
}

/// Scaling every digit by `c` scales the value by `c`.
pub proof fn lemma_digits_value_scale(s: Seq<int>, c: int, r: int)
    ensures
        digits_value(s.map_values(|d: int| c * d), r) == c * digits_value(s, r),
    decreases s.len(),
{
    let m = s.map_values(|d: int| c * d);
    if s.len() > 0 {
        let t = s.drop_last();
        assert(m.drop_last() =~= t.map_values(|d: int| c * d));
        lemma_digits_value_scale(t, c, r);
        let p = radix_pow(r, t.len());
        assert(c * (digits_value(t, r) + s.last() * p) == c * digits_value(t, r) + (c * s.last())
            * p) by (nonlinear_arith);
    }
}

/// Two digit sequences in range, of the same length, with the same value, are equal.
pub proof fn lemma_digits_value_injective(s: Seq<int>, t: Seq<int>, r: int)
    requires
        r >= 1,
        s.len() == t.len(),
        digits_in_range(s, r),
        digits_in_range(t, r),
        digits_value(s, r) == digits_value(t, r),
    ensures
        s =~= t,
    decreases s.len(),
{
    if s.len() > 0 {
        let s0 = s.drop_last();
        let t0 = t.drop_last();
        assert(digits_in_range(s0, r));
        assert(digits_in_range(t0, r));
        lemma_digits_value_bounds(s0, r);
        lemma_digits_value_bounds(t0, r);
        let p = radix_pow(r, s0.len());
        let a = digits_value(s0, r);
        let b = digits_value(t0, r);
        let x = s.last();
        let y = t.last();
        assert(x == y) by (nonlinear_arith)
            requires
                0 <= a < p,
                0 <= b < p,
                a + x * p == b + y * p,
        {
            if x < y {
                assert(x * p + p <= y * p);
            } else if y < x {
                assert(y * p + p <= x * p);
            }
        }
        lemma_digits_value_injective(s0, t0, r);
        assert(s =~= s0.push(x));
        assert(t =~= t0.push(y));
    }
}

/// The canonical digits of `m >= 0` in radix `r`, lowest first, without
/// leading zeros (empty for zero).
pub open spec fn to_digits(m: int, r: int) -> Seq<u8>
    decreases m,
{
    if m <= 0 || r < 2 {
        Seq::empty()
    } else {
        proof {
            assert(m / r < m) by (nonlinear_arith)
                requires
                    m > 0,
                    r >= 2,
            ;
        }
        seq![(m % r) as u8] + to_digits(m / r, r)
    }
}

/// The canonical digits of `m >= 0`, with zero written as one zero digit.
pub open spec fn canonical_digits(m: int, r: int) -> Seq<u8> {
    if m == 0 {
        seq![0u8]
    } else {
        to_digits(m, r)
    }
}

/// A sequence with a non-zero top digit in range is at least `r^(len-1)`.
pub proof fn lemma_digits_value_top(s: Seq<int>, r: int)
    requires
        r >= 1,
        s.len() >= 1,
        digits_in_range(s, r),
        s.last() != 0,
    ensures
        radix_pow(r, (s.len() - 1) as nat) <= digits_value(s, r),
{
    let t = s.drop_last();
    assert(digits_in_range(t, r));
    lemma_digits_value_bounds(t, r);
    lemma_radix_pow_positive(r, t.len());
    let p = radix_pow(r, t.len());
    assert(s.last() >= 1);
    assert(s.last() * p >= p) by (nonlinear_arith)
        requires
            s.last() >= 1,
            p >= 1,
    ;
}

/// The canonical digits are in range, have the value `m` and a non-zero top digit.
pub proof fn lemma_to_digits(m: int, r: int)
    requires
        2 <= r <= 256,
        m >= 0,
    ensures
        digits_in_range(ints(to_digits(m, r)), r),
        digits_value(ints(to_digits(m, r)), r) == m,
        m > 0 ==> to_digits(m, r).len() >= 1 && to_digits(m, r).last() != 0,
    decreases m,
{
    if m > 0 {
        let q = m / r;
        let x = m % r;
        assert(0 <= m % r < r && m == r * (m / r) + m % r && 0 <= m / r < m) by (nonlinear_arith)
            requires
                m > 0,
                r >= 2,
        ;
        lemma_to_digits(q, r);
        let rest = to_digits(q, r);
        let one = seq![x as u8];
        assert(to_digits(m, r) == one + rest);
        assert(ints(one + rest) =~= ints(one) + ints(rest));
        lemma_digits_value_append(ints(one), ints(rest), r);
        assert(ints(one).drop_last() =~= Seq::<int>::empty());
        assert(radix_pow(r, 0) == 1);
        assert(digits_value(Seq::<int>::empty(), r) == 0);
        assert(digits_value(ints(one), r) == x);
        assert(radix_pow(r, 1) == r * radix_pow(r, 0));
        assert(digits_in_range(ints(one + rest), r)) by {
            assert forall|i: int| 0 <= i < (one + rest).len() implies 0 <= #[trigger] ints(
                one + rest,
            )[i] < r by {
                if i > 0 {
                    assert(ints(one + rest)[i] == ints(rest)[i - 1]);
                }
            }
        }
        if q == 0 {
            assert(rest =~= Seq::<u8>::empty());
            assert(one + rest =~= one);
            assert(x != 0);
        } else {
            assert((one + rest).last() == rest.last());
        }
    }
}

/// Digits in range with a non-zero top digit are the canonical digits of their value.
pub proof fn lemma_canonical_unique(s: Seq<u8>, r: int)
    requires
        2 <= r <= 256,
        s.len() >= 1,
        s.last() != 0,
        digits_in_range(ints(s), r),
    ensures
        s == to_digits(digits_value(ints(s), r), r),
{
    let m = digits_value(ints(s), r);
    let t = to_digits(m, r);
    lemma_digits_value_bounds(ints(s), r);
    assert(ints(s).last() == s.last() as int);
    lemma_digits_value_top(ints(s), r);
    lemma_radix_pow_positive(r, (s.len() - 1) as nat);
    lemma_to_digits(m, r);
    lemma_digits_value_bounds(ints(t), r);
    assert(ints(t).last() == t.last() as int);
    lemma_digits_value_top(ints(t), r);
    if s.len() < t.len() {
        lemma_radix_pow_monotone(r, s.len(), (t.len() - 1) as nat);
    } else if t.len() < s.len() {
        lemma_radix_pow_monotone(r, t.len(), (s.len() - 1) as nat);
    }
    lemma_digits_value_injective(ints(s), ints(t), r);
    assert forall|i: int| 0 <= i < s.len() implies s[i] == t[i] by {
        assert(ints(s)[i] == ints(t)[i]);
    }
    assert(s =~= t);
}

} // verus!
