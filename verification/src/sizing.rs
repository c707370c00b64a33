//! Derivation of the filter parameters from a capacity and a target
//! false-positive rate.
//!
//! The standard sizing equations are `m = ceil(-(n * ln p) / (ln 2)^2)` and
//! `k = round(ln 2 * m / n)`, with the rate `p` given as a fraction
//! `num / den` strictly between zero and one. Since `-ln(p) / (ln 2)^2 ==
//! log2(den/num) / ln 2`, both are computed here in integer fixed point: the
//! base-two logarithm of the ratio to thirty fractional bits (integer part by
//! doubling, fractional digits by repeated squaring of the mantissa), then a
//! multiplication by a 32-bit fixed-point constant for `1 / ln 2`. The
//! derived bit count is clamped to at least one bit, and the hash count to at
//! least one hash, so a valid rate never yields a degenerate filter.

use vstd::arithmetic::div_mod::{
    lemma_div_is_ordered, lemma_div_multiples_vanish, lemma_fundamental_div_mod,
    lemma_multiply_divide_lt,
};
use vstd::arithmetic::power2::{
    lemma2_to64, lemma_pow2_pos, lemma_pow2_strictly_increases, lemma_pow2_unfold, pow2,
};
use vstd::prelude::*;

verus! {

/// 1 / ln(2) in 32 fractional bits, rounded up.
pub const INV_LN2_Q32: u64 = 6196328019;

/// ln(2) in 32 fractional bits, rounded to nearest.
pub const LN2_Q32: u64 = 2977044472;

/// floor(log2(den / num)): how many times `num` doubles before one more
/// doubling would exceed `den`.
pub open spec fn floor_log2_ratio(num: int, den: int) -> int
    recommends
        0 < num <= den,
    decreases den - num,
{
    if num <= 0 || den < 2 * num {
        0
    } else {
        1 + floor_log2_ratio(2 * num, den)
    }
}

/// The ratio den / num scaled by its floored base-two logarithm into
/// [1, 2), as a mantissa with 31 fractional bits, rounded down.
pub open spec fn initial_mantissa(num: int, den: int) -> int
    recommends
        0 < num < den,
{
    (den * 0x8000_0000) / (num * pow2(floor_log2_ratio(num, den) as nat) as int)
}

/// Whether the next binary digit of the logarithm is one: the square of
/// the mantissa reaches two.
pub open spec fn mantissa_bit(a: int) -> bool {
    a * a >= 0x8000_0000_0000_0000
}

/// The mantissa after one squaring step: square it, and halve the result
/// when it reached two, keeping it in [1, 2).
pub open spec fn mantissa_step(a: int) -> int {
    if mantissa_bit(a) {
        (a * a) / 0x1_0000_0000
    } else {
        (a * a) / 0x8000_0000
    }
}

/// The first `steps` binary digits of log2 of the mantissa `a`, most
/// significant digit first.
pub open spec fn frac_digits(a: int, steps: nat) -> int
    decreases steps,
{
    if steps == 0 {
        0
    } else {
        (if mantissa_bit(a) {
            pow2((steps - 1) as nat) as int
        } else {
            0
        }) + frac_digits(mantissa_step(a), (steps - 1) as nat)
    }
}

/// log2(den / num) in 30 fractional bits: the integer part shifted up,
/// plus thirty binary digits of the fraction.
pub open spec fn log2_fixed(num: int, den: int) -> int {
    floor_log2_ratio(num, den) * 0x4000_0000 + frac_digits(initial_mantissa(num, den), 30)
}

/// The derived bit count m: the ceiling of n * log2(den/num) / ln(2),
/// computed in fixed point, and at least one.
pub open spec fn spec_bit_count(n: int, num: int, den: int) -> int {
    let c = (n * log2_fixed(num, den) * (INV_LN2_Q32 as int) + 0x3FFF_FFFF_FFFF_FFFF)
        / 0x4000_0000_0000_0000;
    if c < 1 {
        1
    } else {
        c
    }
}

/// The derived hash count k: ln(2) * m / n rounded to nearest, and at
/// least one.
pub open spec fn spec_hash_count(n: int, m: int) -> int {
    let k = (2 * m * (LN2_Q32 as int) + n * 0x1_0000_0000) / (n * 0x2_0000_0000);
    if k < 1 {
        1
    } else {
        k
    }
}

/// The inputs on which parameter derivation succeeds: a positive expected
/// item count, a rate strictly between zero and one, and a derived bit
/// count small enough to address.
pub open spec fn params_ok(n: u64, num: u64, den: u64) -> bool {
    &&& n > 0
    &&& 0 < num < den
    &&& spec_bit_count(n as int, num as int, den as int) <= usize::MAX
}

/// A quotient lies between `lo` and `hi` when the dividend lies between
/// the matching multiples of the divisor.
proof fn lemma_div_bounds(x: int, d: int, lo: int, hi: int)
    requires
        0 < d,
        lo * d <= x,
        x < hi * d,
    ensures
        lo <= x / d,
        x / d < hi,
{
    assert(lo * d == d * lo) by (nonlinear_arith);
    assert(hi * d == d * hi) by (nonlinear_arith);
    lemma_div_multiples_vanish(lo, d);
    lemma_div_is_ordered(lo * d, x, d);
    lemma_multiply_divide_lt(x, d, hi);
}

/// A quotient reaches `c` exactly when the dividend reaches `c` times the
/// divisor.
proof fn lemma_div_reaches(z: int, d: int, c: int)
    requires
        0 < d,
    ensures
        z / d >= c <==> z >= c * d,
{
    if z >= c * d {
        assert(c * d == d * c) by (nonlinear_arith);
        lemma_div_multiples_vanish(c, d);
        lemma_div_is_ordered(c * d, z, d);
    }
    if z / d >= c {
        lemma_fundamental_div_mod(z, d);
        assert(d * (z / d) >= d * c) by (nonlinear_arith)
            requires
                d > 0,
                z / d >= c,
        ;
        assert(c * d == d * c) by (nonlinear_arith);
    }
}

/// Powers of two are monotone.
proof fn lemma_pow2_le(e1: nat, e2: nat)
    requires
        e1 <= e2,
    ensures
        pow2(e1) <= pow2(e2),
{
    if e1 < e2 {
        lemma_pow2_strictly_increases(e1, e2);
    }
}

/// log2(den / num) in 30 fractional bits, as the fixed-point algorithm
/// defines it.
fn log2_ratio_fixed(num: u64, den: u64) -> (r: u64)
    requires
        0 < num < den,
    ensures
        r == log2_fixed(num as int, den as int),
        r < 0x10_0000_0000,
{
    let mut e: u64 = 0;
    let mut scaled: u128 = num as u128;
    proof {
        lemma2_to64();
        assert(scaled as int == (num as int) * pow2(0)) by (nonlinear_arith)
            requires
                pow2(0) == 1,
                scaled == num,
        ;
    }
    while scaled * 2 <= den as u128
        invariant
            0 < num < den,
            scaled as int == (num as int) * pow2(e as nat),
            num as int <= scaled as int,
            scaled as int <= den as int,
            e <= 63,
            floor_log2_ratio(num as int, den as int) == e + floor_log2_ratio(
                scaled as int,
                den as int,
            ),
        decreases den as int - scaled as int,
    {
        proof {
            lemma2_to64();
            lemma_pow2_unfold((e + 1) as nat);
            assert(2 * (scaled as int) == (num as int) * pow2((e + 1) as nat)) by (nonlinear_arith)
                requires
                    scaled as int == (num as int) * pow2(e as nat),
                    pow2((e + 1) as nat) == 2 * pow2(e as nat),
            ;
            assert(floor_log2_ratio(scaled as int, den as int) == 1 + floor_log2_ratio(
                2 * (scaled as int),
                den as int,
            ));
            lemma_pow2_pos((e + 1) as nat);
            assert(pow2((e + 1) as nat) <= (num as int) * pow2((e + 1) as nat))
                by (nonlinear_arith)
                requires
                    num >= 1,
                    pow2((e + 1) as nat) > 0,
            ;
            if e + 1 > 63 {
                if e + 1 > 64 {
                    lemma_pow2_strictly_increases(64, (e + 1) as nat);
                }
                assert(pow2((e + 1) as nat) >= pow2(64));
                assert(false);
            }
        }
        scaled = scaled * 2;
        e = e + 1;
    }
    proof {
        assert(floor_log2_ratio(scaled as int, den as int) == 0);
        assert(e == floor_log2_ratio(num as int, den as int));
    }
    let q: u128 = (den as u128) * 0x8000_0000;
    let a128: u128 = q / scaled;
    proof {
        assert(0x8000_0000 * (scaled as int) <= q as int) by (nonlinear_arith)
            requires
                scaled as int <= den as int,
                q as int == (den as int) * 0x8000_0000,
        ;
        assert((q as int) < 0x1_0000_0000 * (scaled as int)) by (nonlinear_arith)
            requires
                (den as int) < 2 * (scaled as int),
                q as int == (den as int) * 0x8000_0000,
        ;
        lemma_div_bounds(q as int, scaled as int, 0x8000_0000, 0x1_0000_0000);
        assert(a128 as int == initial_mantissa(num as int, den as int));
    }
    let mut a: u64 = a128 as u64;
    let ghost a0 = a as int;
    let mut frac: u64 = 0;
    let mut t: u64 = 0;
    while t < 30
        invariant
            0x8000_0000 <= a < 0x1_0000_0000,
            t <= 30,
            frac < pow2(t as nat),
            frac * (pow2((30 - t) as nat) as int) + frac_digits(a as int, (30 - t) as nat)
                == frac_digits(a0, 30),
        decreases 30 - t,
    {
        proof {
            assert((a as int) * (a as int) < 0x1_0000_0000_0000_0000) by (nonlinear_arith)
                requires
                    a < 0x1_0000_0000,
            ;
            assert((a as int) * (a as int) >= 0x4000_0000_0000_0000) by (nonlinear_arith)
                requires
                    a >= 0x8000_0000,
            ;
        }
        let sq: u128 = (a as u128) * (a as u128);
        let bit: u64 = if sq >= 0x8000_0000_0000_0000 {
            1
        } else {
            0
        };
        let a_next: u64 = if bit == 1 {
            proof {
                lemma_div_bounds(sq as int, 0x1_0000_0000, 0x8000_0000, 0x1_0000_0000);
            }
            (sq / 0x1_0000_0000) as u64
        } else {
            proof {
                lemma_div_bounds(sq as int, 0x8000_0000, 0x8000_0000, 0x1_0000_0000);
            }
            (sq / 0x8000_0000) as u64
        };
        proof {
            lemma2_to64();
            let rem = (30 - t) as nat;
            lemma_pow2_unfold(rem);
            lemma_pow2_le(t as nat, 29);
            assert(a_next as int == mantissa_step(a as int));
            assert(frac_digits(a as int, rem) == (if mantissa_bit(a as int) {
                pow2((rem - 1) as nat) as int
            } else {
                0
            }) + frac_digits(mantissa_step(a as int), (rem - 1) as nat));
            assert((frac * 2 + bit) * (pow2((rem - 1) as nat) as int) == frac * (pow2(
                rem,
            ) as int) + bit * (pow2((rem - 1) as nat) as int)) by (nonlinear_arith)
                requires
                    pow2(rem) == 2 * pow2((rem - 1) as nat),
            ;
            lemma_pow2_unfold((t + 1) as nat);
        }
        frac = frac * 2 + bit;
        a = a_next;
        t = t + 1;
    }
    proof {
        lemma2_to64();
        assert(frac_digits(a as int, 0) == 0);
        assert(frac * (pow2(0) as int) == frac) by (nonlinear_arith)
            requires
                pow2(0) == 1,
        ;
        assert(frac == frac_digits(a0, 30));
        assert(frac < pow2(30));
    }
    e * 0x4000_0000 + frac
}

/// Derives the filter parameters from the expected item count `n` and the
/// target false-positive rate `num / den`: the bit count m, never smaller
/// than the fixed-point sizing formula asks for, and the hash count k,
/// rounded to nearest; both at least one. Returns nothing exactly when the
/// inputs are degenerate (`n` zero, or the rate not strictly between zero
/// and one) or the derived bit count cannot be addressed.
pub fn derive_params(n: u64, num: u64, den: u64) -> (r: Option<(u64, u64)>)
    ensures
        r is Some <==> params_ok(n, num, den),
        r matches Some(mk) ==> ({
            &&& mk.0 == spec_bit_count(n as int, num as int, den as int)
            &&& mk.1 == spec_hash_count(n as int, mk.0 as int)
            &&& 1 <= mk.0 <= usize::MAX
            &&& mk.1 >= 1
        }),
{
    if n == 0 || num == 0 || num >= den {
        return None;
    }
    let l2: u64 = log2_ratio_fixed(num, den);
    proof {
        assert((n as int) * (l2 as int) < 0x1_0000_0000_0000_0000_0000_0000_0000_0000)
            by (nonlinear_arith)
            requires
                n <= 0xFFFF_FFFF_FFFF_FFFF,
                l2 < 0x10_0000_0000,
        ;
    }
    let t1: u128 = (n as u128) * (l2 as u128);
    let cap: u128 = ((usize::MAX as u128) * 0x4000_0000_0000_0000) / (INV_LN2_Q32 as u128);
    let ghost c = (n as int * (l2 as int) * (INV_LN2_Q32 as int) + 0x3FFF_FFFF_FFFF_FFFF)
        / 0x4000_0000_0000_0000;
    proof {
        lemma_cap_boundary(n as int, l2 as int, t1 as int, cap as int);
    }
    if t1 > cap {
        return None;
    }
    let prod: u128 = t1 * INV_LN2_Q32 as u128 + 0x3FFF_FFFF_FFFF_FFFF;
    let m128: u128 = prod / 0x4000_0000_0000_0000;
    proof {
        assert(m128 as int == c);
        assert(c >= 0) by {
            vstd::arithmetic::div_mod::lemma_div_pos_is_pos(
                prod as int,
                0x4000_0000_0000_0000,
            );
        }
    }
    let m: u64 = if m128 == 0 {
        1
    } else {
        m128 as u64
    };
    let s: u128 = 2 * (m as u128) * (LN2_Q32 as u128) + (n as u128) * 0x1_0000_0000;
    let d: u128 = (n as u128) * 0x2_0000_0000;
    proof {
        lemma_hash_count_fits(n as int, m as int, s as int, d as int);
    }
    let k128: u128 = s / d;
    let k: u64 = if k128 == 0 {
        1
    } else {
        k128 as u64
    };
    Some((m, k))
}

/// The overflow guard is exact: the product of the item count and the
/// fixed-point logarithm exceeds `cap` exactly when the derived bit count
/// exceeds what can be addressed.
proof fn lemma_cap_boundary(n: int, l2: int, t1: int, cap: int)
    requires
        n >= 1,
        0 <= l2 < 0x10_0000_0000,
        t1 == n * l2,
        cap == (usize::MAX as int * 0x4000_0000_0000_0000) / (INV_LN2_Q32 as int),
    ensures
        t1 <= cap ==> t1 * (INV_LN2_Q32 as int) + 0x3FFF_FFFF_FFFF_FFFF < usize::MAX as int
            * 0x4000_0000_0000_0000 + 0x4000_0000_0000_0000,
        t1 <= cap ==> (t1 * (INV_LN2_Q32 as int) + 0x3FFF_FFFF_FFFF_FFFF)
            / 0x4000_0000_0000_0000 <= usize::MAX as int,
        t1 > cap ==> (t1 * (INV_LN2_Q32 as int) + 0x3FFF_FFFF_FFFF_FFFF)
            / 0x4000_0000_0000_0000 > usize::MAX as int,
        t1 >= 0,
{
    let umax = usize::MAX as int;
    let ic = INV_LN2_Q32 as int;
    let big = 0x4000_0000_0000_0000;
    assert(t1 >= 0) by (nonlinear_arith)
        requires
            n >= 1,
            l2 >= 0,
            t1 == n * l2,
    ;
    lemma_fundamental_div_mod(umax * big, ic);
    if t1 <= cap {
        assert(t1 * ic <= cap * ic) by (nonlinear_arith)
            requires
                t1 <= cap,
                ic > 0,
                t1 >= 0,
        ;
        assert(ic * cap <= umax * big);
        assert(cap * ic == ic * cap) by (nonlinear_arith);
        lemma_div_reaches(t1 * ic + 0x3FFF_FFFF_FFFF_FFFF, big, umax + 1);
        assert((umax + 1) * big == umax * big + big) by (nonlinear_arith);
    } else {
        assert(t1 * ic >= (cap + 1) * ic) by (nonlinear_arith)
            requires
                t1 >= cap + 1,
                ic > 0,
        ;
        assert((cap + 1) * ic == ic * cap + ic) by (nonlinear_arith);
        assert(umax * big % ic < ic);
        assert(t1 * ic > umax * big);
        lemma_div_reaches(t1 * ic + 0x3FFF_FFFF_FFFF_FFFF, big, umax + 1);
        assert((umax + 1) * big == umax * big + big) by (nonlinear_arith);
    }
}

/// The rounded hash count never exceeds the bit count, so it fits the
/// same machine word.
proof fn lemma_hash_count_fits(n: int, m: int, s: int, d: int)
    requires
        n >= 1,
        m >= 1,
        s == 2 * m * (LN2_Q32 as int) + n * 0x1_0000_0000,
        d == n * 0x2_0000_0000,
    ensures
        d > 0,
        s / d <= m,
{
    assert(d > 0) by (nonlinear_arith)
        requires
            n >= 1,
            d == n * 0x2_0000_0000,
    ;
    assert(s < d * (m + 1)) by (nonlinear_arith)
        requires
            n >= 1,
            m >= 1,
            s == 2 * m * (LN2_Q32 as int) + n * 0x1_0000_0000,
            d == n * 0x2_0000_0000,
            LN2_Q32 < 0x1_0000_0000,
    ;
    lemma_multiply_divide_lt(s, d, m + 1);
}

} // verus!
