//! Comparison of `Bignum`s by their signed values.
use vstd::prelude::*;
use crate::arithmetic::{digit_at, sum_digits};
use crate::bignum::{Bignum, BignumView, digits_view, lemma_signed_digits_bounded, negated, signed_digits};
use crate::digits::{
    all_zero, digits_in_range, digits_value, ints, ints_i64, lemma_digits_value_bounds,
    lemma_digits_value_push, lemma_digits_value_scale, lemma_digits_value_trailing_zeros,
    lemma_radix_pow_positive, radix_pow, sgn,
};

verus! {

/// The carry that enters position `k` when digits are carried with floor
/// division, so that every digit left is in `[0, r)`.
pub open spec fn floor_carry(d: Seq<int>, r: int, k: nat) -> int
    decreases k,
{
    if k == 0 {
        0
    } else {
        (d[k - 1] + floor_carry(d, r, (k - 1) as nat)) / r
    }
}

/// The digit left at position `k` by floor carrying.
pub open spec fn floor_digit(d: Seq<int>, r: int, k: int) -> int {
    (d[k] + floor_carry(d, r, k as nat)) % r
}

/// All digits left by floor carrying.
pub open spec fn floor_digits(d: Seq<int>, r: int) -> Seq<int> {
    Seq::new(d.len(), |k: int| floor_digit(d, r, k))
}

/// Floor carrying keeps the value.
proof fn lemma_floor_carry(d: Seq<int>, r: int, k: nat)
    requires
        r >= 2,
        k <= d.len(),
    ensures
        digits_value(floor_digits(d, r).take(k as int), r) + floor_carry(d, r, k) * radix_pow(r, k)
            == digits_value(d.take(k as int), r),
        digits_in_range(floor_digits(d, r).take(k as int), r),
    decreases k,
{
    let f = floor_digits(d, r);
    if k == 0 {
        assert(f.take(0) =~= Seq::<int>::empty());
        assert(d.take(0) =~= Seq::<int>::empty());
    } else {
        let j = (k - 1) as nat;
        lemma_floor_carry(d, r, j);
        assert(f.take(k as int) =~= f.take(j as int).push(f[j as int]));
        assert(d.take(k as int) =~= d.take(j as int).push(d[j as int]));
        lemma_digits_value_push(f.take(j as int), f[j as int], r);
        lemma_digits_value_push(d.take(j as int), d[j as int], r);
        let c = floor_carry(d, r, j);
        let t = d[j as int] + c;
        let p = radix_pow(r, j);
        assert(t == r * (t / r) + t % r && 0 <= t % r < r) by (nonlinear_arith)
            requires
                r >= 2,
        ;
        assert(floor_carry(d, r, k) == t / r);
        assert(f[j as int] == t % r);
        assert(radix_pow(r, k) == r * p);
        assert((t % r) * p + (t / r) * (r * p) == c * p + d[j as int] * p) by (nonlinear_arith)
            requires
                t == r * (t / r) + t % r,
                t == d[j as int] + c,
        ;
        assert(digits_in_range(f.take(k as int), r)) by {
            assert forall|i: int| 0 <= i < k implies 0 <= #[trigger] f.take(k as int)[i] < r by {
                if i < j {
                    assert(f.take(k as int)[i] == f.take(j as int)[i]);
                }
            }
        }
    }
}

/// Digits in range are all zero exactly when their value is zero.
proof fn lemma_value_zero_iff(s: Seq<int>, r: int)
    requires
        r >= 1,
        digits_in_range(s, r),
    ensures
        (digits_value(s, r) == 0) == all_zero(s),
    decreases s.len(),
{
    if s.len() > 0 {
        let t = s.drop_last();
        assert(digits_in_range(t, r));
        lemma_value_zero_iff(t, r);
        lemma_digits_value_bounds(t, r);
        lemma_radix_pow_positive(r, t.len());
        let p = radix_pow(r, t.len());
        let x = s.last();
        assert(x == s[s.len() - 1]);
        if x > 0 {
            assert(x * p >= p) by (nonlinear_arith)
                requires
                    x >= 1,
                    p >= 1,
            ;
            assert(!all_zero(s));
        } else {
            assert(x == 0);
            assert(x * p == 0) by (nonlinear_arith)
                requires
                    x == 0,
            ;
            if all_zero(t) {
                assert forall|i: int| 0 <= i < s.len() implies #[trigger] s[i] == 0 by {
                    if i < t.len() {
                        assert(s[i] == t[i]);
                    }
                }
            } else {
                let i = choose|i: int| 0 <= i < t.len() && t[i] != 0;
                assert(s[i] == t[i]);
            }
        }
    } else {
        assert(all_zero(s));
    }
}

/// The sign of the value of the digits `d` (each within 510 of zero), in radix `r >= 2`.
fn sign_of_digits(d: &Vec<i64>, r: i64) -> (s: i8)
    requires
        r >= 2,
        r <= 255,
        forall|i: int| 0 <= i < d@.len() ==> -510 <= #[trigger] d@[i] <= 510,
    ensures
        s == sgn(digits_value(ints_i64(d@), r as int)),
{
    let ghost v = ints_i64(d@);
    let ghost rr = r as int;
    let mut carry: i64 = 0;
    let mut nonzero = false;
    let mut k: usize = 0;
    while k < d.len()
        invariant
            0 <= k <= d.len(),
            v == ints_i64(d@),
            rr == r,
            2 <= r <= 255,
            forall|i: int| 0 <= i < d@.len() ==> -510 <= #[trigger] d@[i] <= 510,
            carry == floor_carry(v, rr, k as nat),
            -510 <= carry <= 510,
            nonzero == !all_zero(floor_digits(v, rr).take(k as int)),
        decreases d.len() - k,
    {
        assert(v[k as int] == d@[k as int]);
        let t = d[k] + carry;
        assert(-1020 <= t <= 1020);
        let mut q = t / r;
        assert(q == crate::digits::tdiv(t as int, rr));
        proof {
            crate::digits::lemma_tdiv_trem(t as int, rr);
        }
        assert(-1020 <= q * r <= 1020) by (nonlinear_arith)
            requires
                crate::digits::abs_int(q as int) * rr <= crate::digits::abs_int(t as int),
                -1020 <= t <= 1020,
                rr == r,
                r >= 2,
        ;
        let mut m = t - q * r;
        assert(m == crate::digits::trem(t as int, rr)) by (nonlinear_arith)
            requires
                m == t - q * r,
                q == crate::digits::tdiv(t as int, rr),
                rr == r,
        ;
        assert(-r < m < r);
        if m < 0 {
            assert(m + r == t - (q - 1) * r) by (nonlinear_arith)
                requires
                    m == t - q * r,
            ;
            m = m + r;
            q = q - 1;
        }
        assert(q == t / r && m == t % r) by (nonlinear_arith)
            requires
                m == t - q * r,
                0 <= m < r,
                r >= 2,
        ;
        assert(-510 <= q <= 510) by (nonlinear_arith)
            requires
                -1020 <= t <= 1020,
                q == t / r,
                r >= 2,
        ;
        proof {
            let f = floor_digits(v, rr);
            assert(f.take(k + 1) =~= f.take(k as int).push(f[k as int]));
            assert(f[k as int] == m);
            if all_zero(f.take(k as int)) && m == 0 {
                assert forall|i: int| 0 <= i < k + 1 implies #[trigger] f.take(k + 1)[i] == 0 by {
                    if i < k {
                        assert(f.take(k + 1)[i] == f.take(k as int)[i]);
                    }
                }
            }
            if !all_zero(f.take(k as int)) {
                let i = choose|i: int| 0 <= i < k && f.take(k as int)[i] != 0;
                assert(f.take(k + 1)[i] == f.take(k as int)[i]);
            }
            if m != 0 {
                assert(f.take(k + 1)[k as int] != 0);
            }
        }
        if m != 0 {
            nonzero = true;
        }
        carry = q;
        k += 1;
    }
    proof {
        let n = d.len();
        lemma_floor_carry(v, rr, n as nat);
        let f = floor_digits(v, rr);
        assert(f.take(n as int) =~= f);
        assert(v.take(n as int) =~= v);
        lemma_digits_value_bounds(f, rr);
        lemma_value_zero_iff(f, rr);
        lemma_radix_pow_positive(rr, n as nat);
        let p = radix_pow(rr, n as nat);
        let e = digits_value(f, rr);
        if carry < 0 {
            assert(e + carry * p < 0) by (nonlinear_arith)
                requires
                    e < p,
                    carry <= -1,
                    p >= 1,
            ;
        } else if carry > 0 {
            assert(e + carry * p > 0) by (nonlinear_arith)
                requires
                    e >= 0,
                    carry >= 1,
                    p >= 1,
            ;
        } else {
            assert(carry == 0);
            assert(carry * p == 0) by (nonlinear_arith)
                requires
                    carry == 0,
            ;
        }
    }
    if carry < 0 {
        -1
    } else if carry > 0 {
        1
    } else if nonzero {
        1
    } else {
        0
    }
}

/// The value of the element-wise sum is the sum of the values.
pub proof fn lemma_sum_digits_value(x: Seq<int>, y: Seq<int>, r: int)
    ensures
        digits_value(sum_digits(x, y), r) == digits_value(x, r) + digits_value(y, r),
{
    let n = sum_digits(x, y).len();
    let px = Seq::new(n, |i: int| digit_at(x, i));
    let py = Seq::new(n, |i: int| digit_at(y, i));
    lemma_pad_value(x, n, r);
    lemma_pad_value(y, n, r);
    lemma_pointwise_sum_value(px, py, r);
    assert(sum_digits(x, y) =~= Seq::new(n, |i: int| px[i] + py[i]));
}

/// Padding with zeros keeps the value.
pub proof fn lemma_pad_value(x: Seq<int>, n: nat, r: int)
    requires
        n >= x.len(),
    ensures
        digits_value(Seq::new(n, |i: int| digit_at(x, i)), r) == digits_value(x, r),
{
    let p = Seq::new(n, |i: int| digit_at(x, i));
    lemma_digits_value_trailing_zeros(p, x.len() as int, r);
    assert(p.subrange(0, x.len() as int) =~= x);
}

/// The value of an element-wise sum of equally long sequences.
pub proof fn lemma_pointwise_sum_value(x: Seq<int>, y: Seq<int>, r: int)
    requires
        x.len() == y.len(),
    ensures
        digits_value(Seq::new(x.len(), |i: int| x[i] + y[i]), r) == digits_value(x, r)
            + digits_value(y, r),
    decreases x.len(),
{
    let s = Seq::new(x.len(), |i: int| x[i] + y[i]);
    if x.len() > 0 {
        let x0 = x.drop_last();
        let y0 = y.drop_last();
        lemma_pointwise_sum_value(x0, y0, r);
        assert(s.drop_last() =~= Seq::new(x0.len(), |i: int| x0[i] + y0[i]));
        let p = radix_pow(r, x0.len());
        assert((x.last() + y.last()) * p == x.last() * p + y.last() * p) by (nonlinear_arith);
    }
}

/// The signed digits of a number have its signed value.
pub proof fn lemma_signed_digits_value(b: BignumView)
    ensures
        digits_value(signed_digits(b, true), b.radix as int) == b.value(),
{
    let f = if b.neg {
        -1int
    } else {
        1int
    };
    lemma_digits_value_scale(ints(b.digits), f, b.radix as int);
    assert(signed_digits(b, true) =~= ints(b.digits).map_values(|d: int| f * d));
    let m = digits_value(ints(b.digits), b.radix as int);
    if b.neg {
        assert(f * m == -m) by (nonlinear_arith)
            requires
                f == -1,
        ;
    } else {
        assert(f * m == m) by (nonlinear_arith)
            requires
                f == 1,
        ;
    }
}

/// The sign of `a.value() - b.value()` for two numbers of the same radix.
fn compare_values(a: &Bignum, b: &Bignum) -> (s: i8)
    requires
        a@.radix == b@.radix,
    ensures
        s == sgn(a@.value() - b@.value()),
{
    let radix = a.get_radix();
    let _ = b.get_radix();
    let x = a.map(true);
    let y = b.reverse().map(true);
    let ghost sx = signed_digits(a@, true);
    let ghost sy = signed_digits(negated(b@), true);
    proof {
        lemma_signed_digits_bounded(a@, true);
        lemma_signed_digits_bounded(negated(b@), true);
        lemma_signed_digits_value(a@);
        lemma_signed_digits_value(negated(b@));
        crate::bignum::lemma_negated_value(b@);
        lemma_sum_digits_value(sx, sy, radix as int);
    }
    if radix < 2 {
        proof {
            lemma_digits_value_zero_of(a@);
            lemma_digits_value_zero_of(b@);
        }
        return 0;
    }
    let n = if x.len() >= y.len() {
        x.len()
    } else {
        y.len()
    };
    let ghost goal = sum_digits(sx, sy);
    let mut d: Vec<i64> = Vec::new();
    let mut i: usize = 0;
    while i < n
        invariant
            0 <= i <= n,
            n == goal.len(),
            goal == sum_digits(sx, sy),
            ints_i64(x@) == sx,
            ints_i64(y@) == sy,
            forall|j: int| 0 <= j < sx.len() ==> -255 <= #[trigger] sx[j] <= 255,
            forall|j: int| 0 <= j < sy.len() ==> -255 <= #[trigger] sy[j] <= 255,
            ints_i64(d@) == goal.take(i as int),
            forall|j: int| 0 <= j < i ==> -510 <= #[trigger] d@[j] <= 510,
        decreases n - i,
    {
        let u: i64 = if i < x.len() {
            assert(sx[i as int] == x@[i as int]);
            x[i]
        } else {
            0
        };
        let w: i64 = if i < y.len() {
            assert(sy[i as int] == y@[i as int]);
            y[i]
        } else {
            0
        };
        assert(goal[i as int] == digit_at(sx, i as int) + digit_at(sy, i as int));
        let ghost before = d@;
        d.push(u + w);
        assert(ints_i64(d@) =~= ints_i64(before).push(goal[i as int]));
        assert(goal.take(i + 1) =~= goal.take(i as int).push(goal[i as int]));
        i += 1;
    }
    assert(goal.take(n as int) =~= goal);
    sign_of_digits(&d, radix as i64)
}

/// A number whose digits are all zero has value zero.
proof fn lemma_digits_value_zero_of(b: BignumView)
    requires
        all_zero(ints(b.digits)),
    ensures
        b.value() == 0,
{
    crate::digits::lemma_digits_value_zero(ints(b.digits), b.radix as int);
}

impl Bignum {
    /// Whether the value is below that of `other` (same radix).
    pub fn lt(&self, other: &Bignum) -> (r: bool)
        requires
            self@.radix == other@.radix,
        ensures
            r == (self@.value() < other@.value()),
    {
        compare_values(self, other) < 0
    }

    /// Whether the value is at most that of `other` (same radix).
    pub fn le(&self, other: &Bignum) -> (r: bool)
        requires
            self@.radix == other@.radix,
        ensures
            r == (self@.value() <= other@.value()),
    {
        compare_values(self, other) <= 0
    }
}

} // verus!
