//! Signed big integers in a radix of at most 255, stored as little-endian
//! digits.
use vstd::prelude::*;
use crate::digits::{
    abs_int, all_zero, digits_in_range, digits_small, digits_value, ints, ints_i64,
    lemma_digits_value_bounds, lemma_digits_value_trailing_zeros, lemma_digits_value_zero,
    lemma_radix_pow_positive, canonical_digits, lemma_canonical_unique, lemma_digits_value_top,
    lemma_to_digits, lemma_radix_pow_one,
    lemma_tdiv_trem, radix_pow, sgn, tdiv, trem,
};
use crate::domain_error::DomainError;
use crate::normalize::{
    borrow_before, carries_fit_i64, carry_before, carry_digits, first_pass, lemma_first_pass_prefix,
    lemma_normal_exact, lemma_normal_magnitude, lemma_top_sign_push, low_digit, low_digits,
    normal_magnitude, normal_sign, out_digit, second_pass, top_sign,
};

verus! {

/// The type of a radix and of a digit.
pub type RadixType = u8;

/// A signed big integer: `value` holds its digits, lowest first, in base
/// `radix`; `sign` is set for a negative number.
#[derive(Debug)]
pub struct Bignum {
    value: Vec<RadixType>,
    radix: RadixType,
    sign: bool,
}

/// What a `Bignum` holds, as mathematical values.
pub struct BignumView {
    pub digits: Seq<u8>,
    pub radix: u8,
    pub neg: bool,
}

impl BignumView {
    /// The value of the digits, without the sign.
    pub open spec fn magnitude(self) -> int {
        digits_value(ints(self.digits), self.radix as int)
    }

    /// The signed value.
    pub open spec fn value(self) -> int {
        if self.neg {
            -self.magnitude()
        } else {
            self.magnitude()
        }
    }

    /// The digits are canonical: every digit is below the radix and the top
    /// digit is not zero, or the number is the single digit zero.
    pub open spec fn wf(self) -> bool {
        ||| self.digits =~= seq![0u8]
        ||| (self.digits.len() >= 1 && self.digits.last() != 0 && digits_in_range(
            ints(self.digits),
            self.radix as int,
        ))
    }

    /// Canonical, and zero carries no sign.
    pub open spec fn normalized(self) -> bool {
        self.wf() && (self.digits =~= seq![0u8] ==> !self.neg)
    }
}

impl Bignum {
    /// Numbers of radix 0 or 1 have only zero digits.
    #[verifier::type_invariant]
    spec fn small_radix_zero(self) -> bool {
        self.radix < 2 ==> all_zero(ints(self.value@))
    }
}

impl View for Bignum {
    type V = BignumView;

    closed spec fn view(&self) -> BignumView {
        BignumView { digits: self.value@, radix: self.radix, neg: self.sign }
    }
}

/// `b` with its sign flipped, a number whose digits are all zero staying
/// without sign.
pub open spec fn negated(b: BignumView) -> BignumView {
    digits_view(b.digits, b.radix, !b.neg && !all_zero(ints(b.digits)))
}

/// A view from its parts.
pub open spec fn digits_view(digits: Seq<u8>, radix: u8, neg: bool) -> BignumView {
    BignumView { digits, radix, neg }
}

/// Every digit of `s` is below `radix`.
pub open spec fn all_below(s: Seq<u8>, radix: u8) -> bool {
    forall|i: int| 0 <= i < s.len() ==> s[i] < radix
}

/// The number that `new` builds from the digits `s`, the radix and the sign:
/// trailing zeros dropped, zero without sign.
pub open spec fn new_view(s: Seq<u8>, radix: u8, sign: bool) -> BignumView {
    digits_view(normal_digits(s), radix, sign && trimmed(s).len() > 0)
}

/// `s` without its trailing zero digits.
pub open spec fn trimmed(s: Seq<u8>) -> Seq<u8>
    decreases s.len(),
{
    if s.len() > 0 && s.last() == 0 {
        trimmed(s.drop_last())
    } else {
        s
    }
}

/// The digits that a number given by the digits `s` is stored with: `s`
/// without trailing zeros, or a single zero when nothing is left.
pub open spec fn normal_digits(s: Seq<u8>) -> Seq<u8> {
    if trimmed(s).len() == 0 {
        seq![0u8]
    } else {
        trimmed(s)
    }
}

/// `trimmed(s)` is a prefix of `s` followed in `s` by zeros only.
pub proof fn lemma_trimmed(s: Seq<u8>)
    ensures
        trimmed(s).len() <= s.len(),
        trimmed(s) =~= s.subrange(0, trimmed(s).len() as int),
        forall|i: int| trimmed(s).len() <= i < s.len() ==> s[i] == 0,
        trimmed(s).len() > 0 ==> trimmed(s).last() != 0,
    decreases s.len(),
{
    if s.len() > 0 && s.last() == 0 {
        let t = s.drop_last();
        lemma_trimmed(t);
        assert forall|i: int| trimmed(s).len() <= i < s.len() implies s[i] == 0 by {
            if i < t.len() {
                assert(t[i] == s[i]);
            }
        }
        assert(t.subrange(0, trimmed(t).len() as int) =~= s.subrange(0, trimmed(t).len() as int));
    } else {
        assert(s.subrange(0, s.len() as int) =~= s);
    }
}

/// The stored digits have the value of the given digits; they are zero
/// exactly when all given digits are zero.
pub proof fn lemma_normal_digits(s: Seq<u8>, r: int)
    requires
        digits_in_range(ints(s), r),
    ensures
        digits_value(ints(normal_digits(s)), r) == digits_value(ints(s), r),
        (trimmed(s).len() == 0) == all_zero(ints(s)),
        (trimmed(s).len() == 0) ==> digits_value(ints(s), r) == 0,
        r >= 1 ==> ((trimmed(s).len() == 0) == (digits_value(ints(s), r) == 0)),
        (r == r as u8) ==> digits_view(normal_digits(s), r as u8, false).wf(),
{
    lemma_trimmed(s);
    let k = trimmed(s).len() as int;
    lemma_digits_value_trailing_zeros(ints(s), k, r);
    assert(ints(s).subrange(0, k) =~= ints(trimmed(s)));
    if k == 0 {
        lemma_digits_value_zero(ints(s), r);
        let z = seq![0u8];
        assert(z.drop_last() =~= Seq::<u8>::empty());
        assert(ints(z).drop_last() =~= Seq::<int>::empty());
        assert(digits_value(ints(z), r) == digits_value(Seq::<int>::empty(), r) + 0 * radix_pow(r, 0));
    } else {
        assert(ints(s)[k - 1] == s[k - 1]);
        assert(!all_zero(ints(s)));
        if r >= 1 {
            let t = ints(trimmed(s));
            let t0 = t.drop_last();
            assert(digits_in_range(t0, r)) by {
                assert forall|i: int| 0 <= i < t0.len() implies 0 <= #[trigger] t0[i] < r by {
                    assert(t0[i] == ints(s)[i]);
                }
            }
            lemma_digits_value_bounds(t0, r);
            lemma_radix_pow_positive(r, t0.len());
            assert(t.last() == trimmed(s).last() as int);
            assert(t.last() >= 1);
            assert(t.last() * radix_pow(r, t0.len()) >= 1) by (nonlinear_arith)
                requires
                    t.last() >= 1,
                    radix_pow(r, t0.len()) >= 1,
            ;
        }
    }
}

/// What `from_iter` asks of its digits: none, or a radix of at least 1 with
/// which no carry overflows `i64`, and when the radix is 1 (where nothing
/// carries away) a total of zero.
pub open spec fn from_iter_accepts(d: Seq<int>, radix: u8) -> bool {
    ||| d.len() == 0
    ||| (radix >= 1 && carries_fit_i64(d, radix as int) && (radix >= 2 || digits_value(d, 1) == 0))
}

/// The number of magnitude `m >= 0` in radix `r`, negative when `neg` is set
/// and `m` is not zero, with canonical digits.
pub open spec fn view_of(m: int, r: u8, neg: bool) -> BignumView {
    digits_view(canonical_digits(m, r as int), r, neg && m != 0)
}

/// The number of value `v` in radix `r`, with canonical digits.
pub open spec fn number(v: int, r: u8) -> BignumView {
    view_of(abs_int(v), r, v < 0)
}

/// The number that `from_iter` builds from the digits `d`: the one with
/// their value.
pub open spec fn from_iter_view(d: Seq<int>, radix: u8) -> BignumView {
    number(digits_value(d, radix as int), radix)
}

/// The number of value `v` in a radix of at least 2 is normalized and has
/// value `v`.
pub proof fn lemma_number_value(v: int, r: u8)
    requires
        r >= 2 || v == 0,
    ensures
        number(v, r).value() == v,
        number(v, r).normalized(),
{
    lemma_view_of(abs_int(v), r, v < 0);
}

/// Flipping the sign negates the value.
pub proof fn lemma_negated_value(b: BignumView)
    ensures
        negated(b).value() == -b.value(),
        negated(b).magnitude() == b.magnitude(),
{
    if all_zero(ints(b.digits)) {
        lemma_digits_value_zero(ints(b.digits), b.radix as int);
    }
}

/// A normalized number is determined by its magnitude, radix and sign.
pub proof fn lemma_normalized_view(v: BignumView)
    requires
        v.normalized(),
    ensures
        v == view_of(v.magnitude(), v.radix, v.neg),
        v.magnitude() >= 0,
{
    let r = v.radix as int;
    if v.digits =~= seq![0u8] {
        assert(ints(v.digits).drop_last() =~= Seq::<int>::empty());
        assert(ints(v.digits).last() == 0);
        assert(digits_value(Seq::<int>::empty(), r) == 0);
        assert(v.magnitude() == 0);
        assert(canonical_digits(0, r) =~= v.digits);
    } else {
        let s = v.digits;
        assert(ints(s)[s.len() - 1] == s.last() as int);
        assert(0 <= ints(s)[s.len() - 1] < r);
        assert(r >= 2);
        lemma_canonical_unique(s, r);
        assert(ints(s).last() == s.last() as int);
        lemma_digits_value_top(ints(s), r);
        lemma_radix_pow_positive(r, (s.len() - 1) as nat);
        assert(v.magnitude() > 0);
    }
}

/// The canonical number of magnitude `m` is normalized and has magnitude `m`.
pub proof fn lemma_view_of(m: int, r: u8, neg: bool)
    requires
        m >= 0,
        r >= 2 || m == 0,
    ensures
        view_of(m, r, neg).normalized(),
        view_of(m, r, neg).magnitude() == m,
        view_of(m, r, neg).value() == if neg { -m } else { m },
{
    let v = view_of(m, r, neg);
    if m == 0 {
        assert(ints(v.digits).drop_last() =~= Seq::<int>::empty());
        assert(ints(v.digits).last() == 0);
        assert(digits_value(Seq::<int>::empty(), r as int) == 0);
    } else {
        lemma_to_digits(m, r as int);
    }
}

/// In radix 1 nothing is carried away when the digits sum to zero.
proof fn lemma_unit_radix_no_carry(d: Seq<int>)
    requires
        digits_value(d, 1) == 0,
    ensures
        carry_before(d, 1, d.len()) == 0,
        all_zero(low_digits(d, 1)),
{
    let n = d.len();
    lemma_first_pass_prefix(d, 1, n);
    let lo = low_digits(d, 1);
    assert(lo.take(n as int) =~= lo);
    assert(d.take(n as int) =~= d);
    assert(all_zero(lo)) by {
        assert forall|i: int| 0 <= i < lo.len() implies #[trigger] lo[i] == 0 by {
            assert(-1 < lo[i] < 1);
        }
    }
    lemma_digits_value_zero(lo, 1);
    lemma_radix_pow_one(n);
}

impl Bignum {
    /// Builds a number from its digits (lowest first), its radix and its
    /// sign. Fails when a digit is not below the radix; otherwise trailing
    /// zeros are dropped, and zero is stored as one digit without sign.
    fn new(value: Vec<RadixType>, radix: RadixType, sign: bool) -> (r: Result<
        Bignum,
        DomainError,
    >)
        ensures
            all_below(value@, radix) ==> (r matches Ok(b) && b@ == new_view(value@, radix, sign)
                && b@.normalized()),
            !all_below(value@, radix) ==> r == Err::<Bignum, DomainError>(
                DomainError::RadixNotMatch(radix),
            ),
    {
        let mut i: usize = 0;
        while i < value.len()
            invariant
                0 <= i <= value.len(),
                forall|j: int| 0 <= j < i ==> value@[j] < radix,
            decreases value.len() - i,
        {
            if value[i] >= radix {
                return Err(DomainError::RadixNotMatch(radix));
            }
            i += 1;
        }
        proof {
            lemma_trimmed(value@);
            assert(digits_in_range(ints(value@), radix as int));
            lemma_normal_digits(value@, radix as int);
            if radix < 2 {
                assert forall|j: int| 0 <= j < value@.len() implies #[trigger] ints(value@)[j]
                    == 0 by {
                    assert(ints(value@)[j] == value@[j] as int);
                    assert(value@[j] < radix);
                }
            }
        }
        Ok(Self::trimmed_new(value, radix, sign))
    }

    /// The number with the digits `value` without trailing zeros (zero as a
    /// single digit without sign); digits are not checked.
    fn trimmed_new(value: Vec<RadixType>, radix: RadixType, sign: bool) -> (b: Bignum)
        requires
            radix < 2 ==> all_zero(ints(value@)),
        ensures
            b@ == new_view(value@, radix, sign),
    {
        proof {
            lemma_trimmed(value@);
        }
        let mut end: usize = value.len();
        assert(value@.subrange(0, end as int) =~= value@);
        while end > 0 && value[end - 1] == 0
            invariant
                0 <= end <= value.len(),
                trimmed(value@) == trimmed(value@.subrange(0, end as int)),
            decreases end,
        {
            assert(value@.subrange(0, end as int).drop_last() =~= value@.subrange(0, end - 1));
            end -= 1;
        }
        proof {
            assert(trimmed(value@.subrange(0, end as int)) == value@.subrange(0, end as int));
        }
        let ghost given = value@;
        if end > 0 {
            let mut value = value;
            value.truncate(end);
            assert(value@ =~= normal_digits(given));
            if radix < 2 {
                assert forall|j: int| 0 <= j < value@.len() implies #[trigger] ints(value@)[j]
                    == 0 by {
                    assert(value@[j] == given[j]);
                    assert(ints(value@)[j] == value@[j] as int);
                    assert(ints(given)[j] == given[j] as int);
                }
            }
            Bignum { value, radix, sign }
        } else {
            let z: Vec<RadixType> = vec![0];
            assert(z@ =~= seq![0u8]);
            assert(normal_digits(given) =~= seq![0u8]);
            Bignum { value: z, radix, sign: false }
        }
    }

    /// Whether every digit is zero.
    pub fn is_zero(&self) -> (z: bool)
        ensures
            z == all_zero(ints(self@.digits)),
    {
        let mut i: usize = 0;
        while i < self.value.len()
            invariant
                0 <= i <= self.value.len(),
                forall|j: int| 0 <= j < i ==> self.value@[j] == 0,
            decreases self.value.len() - i,
        {
            if self.value[i] != 0 {
                assert(ints(self.value@)[i as int] != 0);
                return false;
            }
            i += 1;
        }
        assert forall|j: int| 0 <= j < self.value@.len() implies #[trigger] ints(self.value@)[j]
            == 0 by {
            assert(ints(self.value@)[j] == self.value@[j] as int);
        }
        true
    }

    /// The same digits and radix without sign.
    pub fn abs(&self) -> (r: Bignum)
        ensures
            r@ == digits_view(self@.digits, self@.radix, false),
    {
        proof {
            use_type_invariant(self);
        }
        Bignum { value: self.copy_digits(), radix: self.radix, sign: false }
    }

    /// Drops the `n` lowest digits, keeping the sign; the rest is trimmed
    /// as `new` does (zero when nothing is left).
    pub fn truncate(self, n: usize) -> (r: Bignum)
        ensures
            r@ == truncated_view(self@, n as int),
    {
        proof {
            use_type_invariant(&self);
        }
        let mut kept: Vec<RadixType> = Vec::new();
        let mut i: usize = n;
        while i < self.value.len()
            invariant
                n <= self.value.len() ==> n <= i <= self.value.len(),
                n > self.value.len() ==> i == n,
                n <= self.value.len() ==> kept@ == self.value@.subrange(n as int, i as int),
                n > self.value.len() ==> kept@.len() == 0,
            decreases self.value.len() - i,
        {
            kept.push(self.value[i]);
            assert(kept@ =~= self.value@.subrange(n as int, i + 1));
            i += 1;
        }
        let ghost rest = if (n as int) < self.value@.len() {
            self.value@.subrange(n as int, self.value@.len() as int)
        } else {
            Seq::<u8>::empty()
        };
        assert(kept@ =~= rest);
        proof {
            if self.radix < 2 {
                assert forall|j: int| 0 <= j < kept@.len() implies #[trigger] ints(kept@)[j]
                    == 0 by {
                    assert(ints(kept@)[j] == kept@[j] as int);
                    assert(kept@[j] == self.value@[n + j]);
                    assert(ints(self.value@)[n + j] == self.value@[n + j] as int);
                }
            }
        }
        Self::trimmed_new(kept, self.radix, self.sign)
    }
}

/// What `truncate(n)` gives: the digits from position `n` on, trimmed, with
/// the sign kept when something non-zero is left.
pub open spec fn truncated_view(b: BignumView, n: int) -> BignumView {
    new_view(
        if n < b.digits.len() {
            b.digits.subrange(n, b.digits.len() as int)
        } else {
            Seq::empty()
        },
        b.radix,
        b.neg,
    )
}

impl Bignum {
    /// Builds a number from signed digits of any size, lowest first: it
    /// carries and borrows until every digit is below the radix. The result
    /// has the value of the digits (see `normalize`).
    pub fn from_iter(num: Vec<i64>, radix: RadixType) -> (r: Result<Bignum, DomainError>)
        requires
            from_iter_accepts(ints_i64(num@), radix),
        ensures
            r matches Ok(b) && b@ == from_iter_view(ints_i64(num@), radix),
            r matches Ok(b) && b@.value() == digits_value(ints_i64(num@), radix as int)
                && b@.normalized(),
    {
        let ghost d = ints_i64(num@);
        let ghost rr = radix as int;
        let r: i64 = radix as i64;
        let mut sign_num: i64 = 0;
        let mut to_higher: i64 = 0;
        let mut value: Vec<i64> = Vec::new();
        let n = num.len();
        proof {
            if n > 0 && radix == 1 {
                lemma_unit_radix_no_carry(d);
            }
        }
        let mut i: usize = 0;
        while i < n
            invariant
                n == num.len(),
                d == ints_i64(num@),
                rr == radix as int,
                r == rr,
                0 <= i <= n,
                from_iter_accepts(d, radix),
                n > 0 ==> r >= 1,
                value@.len() == i,
                forall|j: int| 0 <= j < i ==> #[trigger] value@[j] == low_digit(d, rr, j),
                to_higher == carry_before(d, rr, i as nat),
                sign_num == top_sign(ints_i64(value@)),
                ints_i64(value@) == low_digits(d, rr).take(i as int),
            decreases n - i,
        {
            assert(d[i as int] == num@[i as int]);
            let t = num[i] + to_higher;
            proof {
                lemma_tdiv_trem(t as int, rr);
            }
            to_higher = t / r;
            assert(to_higher == tdiv(t as int, rr));
            assert(abs_int(to_higher as int) * rr <= abs_int(t as int));
            assert(-abs_int(t as int) <= to_higher * r <= abs_int(t as int)) by (nonlinear_arith)
                requires
                    abs_int(to_higher as int) * rr <= abs_int(t as int),
                    r == rr,
                    rr >= 1,
            ;
            let digit = t - to_higher * r;
            assert(digit == trem(t as int, rr));
            let ghost before = ints_i64(value@);
            if digit != 0 {
                sign_num = if digit > 0 { 1 } else { -1 };
            }
            value.push(digit);
            proof {
                lemma_top_sign_push(before, digit as int);
                assert(ints_i64(value@) =~= before.push(digit as int));
                assert(low_digits(d, rr).take(i + 1) =~= low_digits(d, rr).take(i as int).push(
                    low_digit(d, rr, i as int),
                ));
            }
            i += 1;
        }
        proof {
            assert(ints_i64(value@) =~= low_digits(d, rr));
        }
        let ghost c0 = to_higher;
        proof {
            if radix == 1 && n > 0 {
                assert(c0 == 0);
            }
        }
        while to_higher != 0
            invariant
                rr == radix as int,
                r == rr,
                to_higher != 0 ==> rr >= 2,
                ints_i64(value@) + carry_digits(to_higher as int, rr) == low_digits(d, rr)
                    + carry_digits(c0 as int, rr),
                sign_num == top_sign(ints_i64(value@)),
            decreases abs_int(to_higher as int),
        {
            proof {
                lemma_tdiv_trem(to_higher as int, rr);
            }
            let ghost old_value = value@;
            let ghost old_c = to_higher;
            let q = to_higher / r;
            assert(q == tdiv(old_c as int, rr));
            assert(-abs_int(old_c as int) <= q * r <= abs_int(old_c as int)) by (nonlinear_arith)
                requires
                    abs_int(q as int) * rr <= abs_int(old_c as int),
                    r == rr,
                    rr >= 1,
            ;
            assert(q * r == rr * tdiv(old_c as int, rr)) by (nonlinear_arith)
                requires
                    q == tdiv(old_c as int, rr),
                    r == rr,
            ;
            assert(-rr < trem(old_c as int, rr) < rr);
            let top = to_higher - q * r;
            if top != 0 {
                sign_num = if top > 0 { 1 } else { -1 };
            }
            value.push(top);
            proof {
                lemma_top_sign_push(ints_i64(old_value), top as int);
            }
            to_higher = q;
            assert(ints_i64(value@) =~= ints_i64(old_value).push(trem(old_c as int, rr)));
            assert(carry_digits(old_c as int, rr) =~= seq![trem(old_c as int, rr)]
                + carry_digits(to_higher as int, rr));
            assert(ints_i64(value@) + carry_digits(to_higher as int, rr) =~= ints_i64(old_value)
                + carry_digits(old_c as int, rr));
        }
        let ghost w = ints_i64(value@);
        proof {
            assert(carry_digits(0, rr) =~= Seq::<int>::empty());
            assert(w + Seq::<int>::empty() =~= w);
            assert(w =~= first_pass(d, rr));
            if n > 0 {
                lemma_normal_magnitude(d, rr);
                lemma_normal_exact(d, rr);
            }
        }
        let ghost s = sign_num as int;
        let m = value.len();
        let mut out: Vec<RadixType> = Vec::new();
        to_higher = 0;
        let mut k: usize = 0;
        while k < m
            invariant
                m == value.len(),
                w == ints_i64(value@),
                n > 0 ==> rr >= 1,
                n == 0 ==> m == 0,
                rr == radix as int,
                r == rr,
                s == sign_num,
                s == normal_sign(d, rr),
                n > 0 ==> digits_small(w, rr),
                n > 0 ==> -1 <= s <= 1,
                n > 0 ==> digits_in_range(second_pass(w, s, rr), rr),
                0 <= k <= m,
                out@.len() == k,
                forall|j: int| 0 <= j < k ==> #[trigger] out@[j] as int == out_digit(w, s, rr, j),
                to_higher == borrow_before(w, s, rr, k as nat),
                -1 <= to_higher <= 0,
            decreases m - k,
        {
            let wk = value[k];
            assert(w[k as int] == wk);
            assert(-rr < wk < rr);
            assert(-rr < wk * sign_num < rr) by (nonlinear_arith)
                requires
                    -rr < wk < rr,
                    -1 <= sign_num <= 1,
            ;
            let mut x = wk * sign_num + to_higher;
            if x < 0 {
                x = x + r;
                to_higher = -1;
            } else {
                to_higher = 0;
            }
            assert(second_pass(w, s, rr)[k as int] == out_digit(w, s, rr, k as int));
            assert(0 <= x < rr);
            out.push(x as u8);
            k += 1;
        }
        proof {
            assert(ints(out@) =~= second_pass(w, s, rr));
            assert(digits_in_range(ints(out@), rr));
            lemma_normal_digits(out@, rr);
            if n == 0 {
                assert(ints(out@) =~= Seq::<int>::empty());
                assert(d =~= Seq::<int>::empty());
                assert(normal_sign(d, rr) == 0);
            }
        }
        assert(all_below(out@, radix)) by {
            assert forall|i: int| 0 <= i < out@.len() implies out@[i] < radix by {
                assert(ints(out@)[i] == out@[i] as int);
            }
        }
        let b = Self::new(out, radix, sign_num < 0);
        proof {
            lemma_normalized_view(b->Ok_0@);
            let v = digits_value(d, rr);
            if n == 0 {
                assert(d =~= Seq::<int>::empty());
                assert(v == 0);
            }
            if radix == 1 {
                assert(v == 0);
            }
            lemma_view_of(abs_int(v), radix, v < 0);
        }
        b
    }
}

impl Bignum {
    /// A non-negative number from its digits, lowest first.
    pub fn new_positive(value: Vec<RadixType>, radix: RadixType) -> (r: Result<Bignum, DomainError>)
        ensures
            all_below(value@, radix) ==> (r matches Ok(b) && b@ == new_view(value@, radix, false)
                && b@.normalized()),
            !all_below(value@, radix) ==> r == Err::<Bignum, DomainError>(
                DomainError::RadixNotMatch(radix),
            ),
    {
        Self::new(value, radix, false)
    }

    /// A non-positive number from the digits of its magnitude, lowest first.
    pub fn new_negative(value: Vec<RadixType>, radix: RadixType) -> (r: Result<Bignum, DomainError>)
        ensures
            all_below(value@, radix) ==> (r matches Ok(b) && b@ == new_view(value@, radix, true)
                && b@.normalized()),
            !all_below(value@, radix) ==> r == Err::<Bignum, DomainError>(
                DomainError::RadixNotMatch(radix),
            ),
    {
        Self::new(value, radix, true)
    }

    /// The number of digits.
    pub fn len(&self) -> (n: usize)
        ensures
            n == self@.digits.len(),
    {
        self.value.len()
    }

    /// The radix.
    pub fn get_radix(&self) -> (r: RadixType)
        ensures
            r == self@.radix,
            r < 2 ==> all_zero(ints(self@.digits)),
    {
        proof {
            use_type_invariant(self);
        }
        self.radix
    }

    /// Whether the sign is set.
    pub fn has_sign(&self) -> (s: bool)
        ensures
            s == self@.neg,
    {
        self.sign
    }

    /// The same digits and radix with the sign flipped; zero stays without
    /// sign.
    pub fn reverse(&self) -> (r: Self)
        ensures
            r@ == negated(self@),
    {
        proof {
            use_type_invariant(self);
        }
        let value = self.copy_digits();
        let zero = self.is_zero();
        Self { value, radix: self.radix, sign: !self.sign && !zero }
    }

    fn copy_digits(&self) -> (v: Vec<RadixType>)
        ensures
            v@ == self.value@,
    {
        let v = self.value.clone();
        assert(v@ =~= self.value@);
        v
    }

    /// The digits, lowest first, as signed numbers; negated when `with_sign`
    /// is set and the number is negative.
    pub fn map(&self, with_sign: bool) -> (m: Vec<i64>)
        ensures
            ints_i64(m@) == signed_digits(self@, with_sign),
    {
        let sign: i64 = if self.sign && with_sign { -1 } else { 1 };
        let mut m: Vec<i64> = Vec::new();
        let mut i: usize = 0;
        while i < self.value.len()
            invariant
                0 <= i <= self.value.len(),
                sign == digit_factor(self@, with_sign),
                ints_i64(m@) == signed_digits(self@, with_sign).take(i as int),
            decreases self.value.len() - i,
        {
            let ghost before = m@;
            m.push(sign * (self.value[i] as i64));
            assert(ints_i64(m@) =~= ints_i64(before).push(
                signed_digits(self@, with_sign)[i as int],
            ));
            assert(signed_digits(self@, with_sign).take(i + 1) =~= signed_digits(
                self@,
                with_sign,
            ).take(i as int).push(signed_digits(self@, with_sign)[i as int]));
            i += 1;
        }
        assert(signed_digits(self@, with_sign).take(i as int) =~= signed_digits(self@, with_sign));
        m
    }
}

/// -1 when the digits of `b` are to be negated, else 1.
pub open spec fn digit_factor(b: BignumView, with_sign: bool) -> int {
    if b.neg && with_sign {
        -1
    } else {
        1
    }
}

/// The digits of `b` as integers, multiplied by `digit_factor`.
pub open spec fn signed_digits(b: BignumView, with_sign: bool) -> Seq<int> {
    ints(b.digits).map_values(|d: int| digit_factor(b, with_sign) * d)
}

impl From<Vec<RadixType>> for Bignum {
    /// Takes the digits as they are, in radix 16 with the sign set; nothing is
    /// checked or trimmed.
    fn from(values: Vec<RadixType>) -> (r: Self) {
        Self { radix: 16, sign: true, value: values }
    }
}

impl vstd::std_specs::convert::FromSpecImpl<Vec<RadixType>> for Bignum {
    open spec fn obeys_from_spec() -> bool {
        true
    }

    closed spec fn from_spec(v: Vec<RadixType>) -> Bignum {
        Bignum { radix: 16, sign: true, value: v }
    }
}

/// What `Bignum::from` gives for the digits `v`.
pub proof fn lemma_from_digits(v: Vec<RadixType>)
    ensures
        <Bignum as vstd::std_specs::convert::FromSpec<Vec<RadixType>>>::from_spec(v)@ == digits_view(
            v@,
            16,
            true,
        ),
{
}

impl PartialEq for Bignum {
    fn eq(&self, other: &Self) -> (r: bool) {
        if self.radix != other.radix || self.sign != other.sign || self.value.len()
            != other.value.len() {
            return false;
        }
        let mut i: usize = 0;
        while i < self.value.len()
            invariant
                0 <= i <= self.value.len(),
                self.value.len() == other.value.len(),
                forall|j: int| 0 <= j < i ==> self.value@[j] == other.value@[j],
            decreases self.value.len() - i,
        {
            if self.value[i] != other.value[i] {
                return false;
            }
            i += 1;
        }
        assert(self.value@ =~= other.value@);
        true
    }
}

impl vstd::std_specs::cmp::PartialEqSpecImpl for Bignum {
    open spec fn obeys_eq_spec() -> bool {
        true
    }

    /// Equal radix, sign and digits.
    open spec fn eq_spec(&self, other: &Bignum) -> bool {
        self@ == other@
    }
}

impl Clone for Bignum {
    fn clone(&self) -> (r: Self)
        ensures
            r@ == self@,
    {
        proof {
            use_type_invariant(self);
        }
        Self { value: self.copy_digits(), radix: self.radix, sign: self.sign }
    }
}

/// Signed digits lie in `[-255, 255]`.
pub proof fn lemma_signed_digits_bounded(b: BignumView, with_sign: bool)
    ensures
        signed_digits(b, with_sign).len() == b.digits.len(),
        forall|i: int|
            0 <= i < b.digits.len() ==> -255 <= #[trigger] signed_digits(b, with_sign)[i] <= 255,
        forall|i: int|
            0 <= i < b.digits.len() ==> #[trigger] signed_digits(b, with_sign)[i] == digit_factor(
                b,
                with_sign,
            ) * (b.digits[i] as int),
{
    assert forall|i: int| 0 <= i < b.digits.len() implies -255 <= #[trigger] signed_digits(
        b,
        with_sign,
    )[i] <= 255 by {
        assert(ints(b.digits)[i] == b.digits[i] as int);
    }
}

} // verus!
