//! The bit-reversal permutation that orders the input of a radix-2 fast
//! Fourier transform.
use vstd::prelude::*;
use vstd::arithmetic::power2::{lemma2_to64, lemma_pow2_pos, lemma_pow2_strictly_increases, lemma_pow2_unfold, pow2};
use vstd::arithmetic::div_mod::lemma_div_denominator;

verus! {

/// Reverses the order of the lowest bits of indices.
pub struct BitReverser {
    size: u8,
}

/// The lowest `n` bits of `k` in reverse order: bit `t` of `k` becomes bit
/// `n - 1 - t` of the result; higher bits of `k` are ignored.
pub open spec fn reversed_bits(k: nat, n: nat) -> nat
    decreases n,
{
    if n == 0 {
        0
    } else {
        2 * reversed_bits(k, (n - 1) as nat) + (k / pow2((n - 1) as nat)) % 2
    }
}

/// The position of the last element of `src` (before index `upto`) that
/// lands at position `p`, if any.
pub open spec fn last_source(len: nat, n: nat, p: nat, upto: nat) -> Option<nat>
    decreases upto,
{
    if upto == 0 {
        None
    } else if reversed_bits((upto - 1) as nat, n) == p {
        Some((upto - 1) as nat)
    } else {
        last_source(len, n, p, (upto - 1) as nat)
    }
}

/// The reversed bits of `k` are below `2^n`.
pub proof fn lemma_reversed_bits_bound(k: nat, n: nat)
    ensures
        reversed_bits(k, n) < pow2(n),
    decreases n,
{
    if n == 0 {
        lemma2_to64();
    } else {
        lemma_reversed_bits_bound(k, (n - 1) as nat);
        lemma_pow2_unfold(n);
    }
}

/// `2^n` fits a `usize` for `n` below the width of `usize`.
proof fn lemma_pow2_fits(n: nat)
    requires
        n < usize::BITS,
    ensures
        pow2(n) <= usize::MAX,
        pow2(n) * 2 <= usize::MAX + 1,
{
    lemma2_to64();
    if usize::BITS == 32 {
        if n < 32 {
            lemma_pow2_strictly_increases(n, 32);
        }
        lemma_pow2_unfold((n + 1) as nat);
        if n + 1 < 32 {
            lemma_pow2_strictly_increases((n + 1) as nat, 32);
        }
    } else {
        if n < 64 {
            lemma_pow2_strictly_increases(n, 64);
        }
        lemma_pow2_unfold((n + 1) as nat);
        if n + 1 < 64 {
            lemma_pow2_strictly_increases((n + 1) as nat, 64);
        }
    }
}

impl BitReverser {
    /// The number of bits that are reversed.
    pub closed spec fn bits(&self) -> nat {
        self.size as nat
    }

    /// A reverser of the lowest `size` bits.
    pub fn new(size: u8) -> (r: Self)
        ensures
            r.bits() == size,
    {
        Self { size }
    }

    /// The elements of `source` at the bit-reversed positions of a vector of
    /// `2^size` elements: element `k` goes to position `reversed_bits(k,
    /// size)`, a later element overwriting an earlier one; positions that no
    /// element reaches hold `T::default()`.
    pub fn get_reverse<T>(&self, source: &[T]) -> (r: Vec<T>) where T: Clone + Default
        requires
            self.bits() < usize::BITS,
            source@.len() > 0 ==> self.bits() >= 1,
        ensures
            r@.len() == pow2(self.bits()),
            forall|p: int|
                0 <= p < r@.len() ==> match last_source(
                    source@.len(),
                    self.bits(),
                    p as nat,
                    source@.len(),
                ) {
                    Some(k) => cloned(source@[k as int], #[trigger] r@[p]),
                    None => call_ensures(T::default, (), r@[p]),
                },
    {
        let n = self.size as usize;
        proof {
            lemma_pow2_fits(n as nat);
        }
        let size = power_of_two(n);
        let mut reversed: Vec<T> = Vec::new();
        let mut i: usize = 0;
        while i < size
            invariant
                0 <= i <= size,
                reversed@.len() == i,
                forall|p: int| 0 <= p < i ==> call_ensures(T::default, (), #[trigger] reversed@[p]),
            decreases size - i,
        {
            reversed.push(T::default());
            i += 1;
        }
        let mut k: usize = 0;
        while k < source.len()
            invariant
                0 <= k <= source@.len(),
                n == self.bits(),
                size == pow2(n as nat),
                source@.len() > 0 ==> n >= 1,
                n < usize::BITS,
                reversed@.len() == size,
                forall|p: int|
                    0 <= p < size ==> match last_source(source@.len(), n as nat, p as nat, k as nat) {
                        Some(j) => cloned(source@[j as int], #[trigger] reversed@[p]),
                        None => call_ensures(T::default, (), reversed@[p]),
                    },
            decreases source@.len() - k,
        {
            let p = self.reverse(k);
            proof {
                lemma_reversed_bits_bound(k as nat, n as nat);
            }
            let v = source[k].clone();
            reversed.set(p, v);
            k += 1;
        }
        reversed
    }

    /// `reversed_bits(i, size)`.
    fn reverse(&self, i: usize) -> (r: usize)
        requires
            self.bits() < usize::BITS,
        ensures
            r == reversed_bits(i as nat, self.bits()),
    {
        let n = self.size as usize;
        let mut x: usize = i;
        let mut r: usize = 0;
        let mut j: usize = 0;
        proof {
            lemma2_to64();
        }
        while j < n
            invariant
                0 <= j <= n,
                n == self.bits(),
                n < usize::BITS,
                x == (i as nat) / pow2(j as nat),
                r == reversed_bits(i as nat, j as nat),
            decreases n - j,
        {
            proof {
                lemma_reversed_bits_bound(i as nat, j as nat);
                lemma_pow2_fits(j as nat);
                lemma_pow2_pos(j as nat);
                lemma_div_denominator(i as int, pow2(j as nat) as int, 2);
                lemma_pow2_unfold((j + 1) as nat);
                assert(pow2(j as nat) * 2 == pow2((j + 1) as nat));
            }
            r = 2 * r + x % 2;
            x = x / 2;
            j += 1;
        }
        r
    }
}

/// `2^n`.
fn power_of_two(n: usize) -> (p: usize)
    requires
        n < usize::BITS,
    ensures
        p == pow2(n as nat),
{
    let mut p: usize = 1;
    let mut j: usize = 0;
    proof {
        lemma2_to64();
    }
    while j < n
        invariant
            0 <= j <= n,
            n < usize::BITS,
            p == pow2(j as nat),
        decreases n - j,
    {
        proof {
            lemma_pow2_fits((j + 1) as nat);
            lemma_pow2_unfold((j + 1) as nat);
        }
        p = p * 2;
        j += 1;
    }
    p
}

/// Bit `t` of `k`.
pub open spec fn bit(k: nat, t: nat) -> nat {
    (k / pow2(t)) % 2
}

/// Bits of `2 * x + c`: bit 0 is `c`, bit `t + 1` is bit `t` of `x`.
proof fn lemma_bit_of_double(x: nat, c: nat, t: nat)
    requires
        c < 2,
    ensures
        bit(2 * x + c, 0) == c,
        bit(2 * x + c, t + 1) == bit(x, t),
{
    lemma2_to64();
    lemma_pow2_pos(t);
    lemma_pow2_unfold(t + 1);
    assert((2 * x + c) / 2 == x) by (nonlinear_arith)
        requires
            c < 2,
    ;
    lemma_div_denominator((2 * x + c) as int, 2, pow2(t) as int);
    assert(2 * pow2(t) == pow2(t + 1));
}

/// Bit `t` of the reversal is bit `n - 1 - t` of `k`.
proof fn lemma_reversed_bit(k: nat, n: nat, t: nat)
    requires
        t < n,
    ensures
        bit(reversed_bits(k, n), t) == bit(k, (n - 1 - t) as nat),
    decreases n,
{
    let x = reversed_bits(k, (n - 1) as nat);
    let c = (k / pow2((n - 1) as nat)) % 2;
    lemma_bit_of_double(x, c, (t - 1) as nat);
    if t > 0 {
        lemma_bit_of_double(x, c, (t - 1) as nat);
        lemma_reversed_bit(k, (n - 1) as nat, (t - 1) as nat);
    }
}

/// Numbers below `2^n` with the same `n` lowest bits are equal.
proof fn lemma_bits_determine(x: nat, y: nat, n: nat)
    requires
        x < pow2(n),
        y < pow2(n),
        forall|t: nat| t < n ==> bit(x, t) == bit(y, t),
    ensures
        x == y,
    decreases n,
{
    lemma2_to64();
    if n > 0 {
        let hx = x / 2;
        let hy = y / 2;
        lemma_pow2_unfold(n);
        assert(x == 2 * hx + x % 2 && y == 2 * hy + y % 2) by (nonlinear_arith)
            requires
                hx == x / 2,
                hy == y / 2,
        ;
        assert(hx < pow2((n - 1) as nat) && hy < pow2((n - 1) as nat)) by (nonlinear_arith)
            requires
                x < 2 * pow2((n - 1) as nat),
                y < 2 * pow2((n - 1) as nat),
                hx == x / 2,
                hy == y / 2,
        ;
        assert forall|t: nat| t < n - 1 implies bit(hx, t) == bit(hy, t) by {
            lemma_bit_of_double(hx, x % 2, t);
            lemma_bit_of_double(hy, y % 2, t);
            assert(bit(x, t + 1) == bit(y, t + 1));
        }
        lemma_bits_determine(hx, hy, (n - 1) as nat);
        lemma_bit_of_double(hx, x % 2, 0);
        lemma_bit_of_double(hy, y % 2, 0);
        assert(bit(x, 0) == bit(y, 0));
    }
}

/// Reversing the bits twice gives back any `k < 2^n`.
proof fn lemma_reversal_involution(k: nat, n: nat)
    requires
        k < pow2(n),
    ensures
        reversed_bits(reversed_bits(k, n), n) == k,
{
    let r1 = reversed_bits(k, n);
    lemma_reversed_bits_bound(k, n);
    lemma_reversed_bits_bound(r1, n);
    assert forall|t: nat| t < n implies bit(reversed_bits(r1, n), t) == bit(k, t) by {
        lemma_reversed_bit(r1, n, t);
        lemma_reversed_bit(k, n, (n - 1 - t) as nat);
    }
    lemma_bits_determine(reversed_bits(r1, n), k, n);
}

/// The search for the last element that lands at `reversed_bits(k, n)`
/// finds `k`, when all indices are below `2^n`.
proof fn lemma_last_source_finds(len: nat, n: nat, k: nat, upto: nat)
    requires
        k < upto <= pow2(n),
    ensures
        last_source(len, n, reversed_bits(k, n), upto) == Some(k),
    decreases upto,
{
    let j = (upto - 1) as nat;
    if j != k {
        lemma_reversal_involution(j, n);
        lemma_reversal_involution(k, n);
        lemma_last_source_finds(len, n, k, j);
    }
}

/// No element before `upto <= k` lands at `reversed_bits(k, n)`.
proof fn lemma_last_source_misses(len: nat, n: nat, k: nat, upto: nat)
    requires
        upto <= k < pow2(n),
    ensures
        last_source(len, n, reversed_bits(k, n), upto) == None::<nat>,
    decreases upto,
{
    if upto > 0 {
        let j = (upto - 1) as nat;
        lemma_reversal_involution(j, n);
        lemma_reversal_involution(k, n);
        lemma_last_source_misses(len, n, k, j);
    }
}

/// With at most `2^n` elements, `get_reverse` is a permutation: element `k`
/// lands at `reversed_bits(k, n)` and is not overwritten, and every position
/// `reversed_bits(k, n)` with `k` past the last element keeps its default.
pub proof fn law_reversal_is_permutation(len: nat, n: nat)
    requires
        len <= pow2(n),
    ensures
        forall|k: nat| k < len ==> #[trigger] last_source(len, n, reversed_bits(k, n), len) == Some(k),
        forall|k: nat|
            len <= k < pow2(n) ==> #[trigger] last_source(len, n, reversed_bits(k, n), len)
                == None::<nat>,
{
    assert forall|k: nat| k < len implies #[trigger] last_source(len, n, reversed_bits(k, n), len)
        == Some(k) by {
        lemma_last_source_finds(len, n, k, len);
    }
    assert forall|k: nat| len <= k < pow2(n) implies #[trigger] last_source(
        len,
        n,
        reversed_bits(k, n),
        len,
    ) == None::<nat> by {
        lemma_last_source_misses(len, n, k, len);
    }
}

/// With exactly `2^n` elements, `get_reverse` applied twice gives the
/// input back: position `p` of the first result holds (a clone of) element
/// `reversed_bits(p, n)`, and position `p` of the second result holds (a
/// clone of) position `reversed_bits(p, n)` of the first, which is element `p`.
pub proof fn law_reverse_twice(n: nat)
    ensures
        forall|p: nat|
            p < pow2(n) ==> {
                &&& #[trigger] last_source(pow2(n), n, p, pow2(n)) == Some(reversed_bits(p, n))
                &&& reversed_bits(p, n) < pow2(n)
                &&& last_source(pow2(n), n, reversed_bits(p, n), pow2(n)) == Some(p)
            },
{
    assert forall|p: nat| p < pow2(n) implies {
        &&& #[trigger] last_source(pow2(n), n, p, pow2(n)) == Some(reversed_bits(p, n))
        &&& reversed_bits(p, n) < pow2(n)
        &&& last_source(pow2(n), n, reversed_bits(p, n), pow2(n)) == Some(p)
    } by {
        let k = reversed_bits(p, n);
        lemma_reversed_bits_bound(p, n);
        lemma_reversal_involution(p, n);
        lemma_last_source_finds(pow2(n), n, k, pow2(n));
        lemma_last_source_finds(pow2(n), n, p, pow2(n));
    }
}

} // verus!
