//! Single-precision numbers, read from their bit patterns.
use crate::rounding;
use vstd::arithmetic::div_mod::{lemma_fundamental_div_mod, lemma_mod_bound};
use vstd::arithmetic::power2::{
    lemma2_to64, lemma2_to64_rest, lemma_pow2_pos, lemma_pow2_strictly_increases, pow2,
};
use vstd::prelude::*;

verus! {

/// The bit pattern of 1.0.
pub const ONE: u32 = 0x3f80_0000;

/// The bit pattern of infinity.
pub const INFINITY: u32 = 0x7f80_0000;

pub open spec fn is_negative(bits: u32) -> bool {
    bits >= 0x8000_0000
}

/// The bit pattern without its sign.
pub open spec fn magnitude(bits: u32) -> u32 {
    if is_negative(bits) {
        (bits - 0x8000_0000) as u32
    } else {
        bits
    }
}

pub open spec fn is_nan(bits: u32) -> bool {
    magnitude(bits) > INFINITY
}

/// The biased exponent, one for a subnormal number.
pub open spec fn exponent(bits: u32) -> int {
    let e = magnitude(bits) as int / 0x80_0000;
    if e == 0 {
        1
    } else {
        e
    }
}

/// The significant bits, with the leading one that a normal number does not store.
pub open spec fn significand(bits: u32) -> int {
    let m = magnitude(bits) as int;
    if m < 0x80_0000 {
        m
    } else {
        0x80_0000 + m % 0x80_0000
    }
}

/// The numerator of a finite number's magnitude.
pub open spec fn num(bits: u32) -> nat {
    rounding::raised(significand(bits) as nat, exponent(bits) - 150)
}

/// The denominator of a finite number's magnitude.
pub open spec fn den(bits: u32) -> nat {
    rounding::raised(1, 150 - exponent(bits))
}

/// `n / d` as the nearest integer, upwards from the middle.
pub open spec fn half_up(n: nat, d: nat) -> nat {
    (2 * n + d) / (2 * d)
}

/// A component as a byte: 255 times the number clamped to 0..1, as the nearest
/// integer. What is no number counts as zero.
pub open spec fn byte_of(bits: u32) -> u8 {
    if is_nan(bits) || is_negative(bits) {
        0
    } else if bits >= ONE {
        255
    } else {
        half_up(num(bits) * 255, den(bits)) as u8
    }
}

fn exponent_of(magnitude: u32) -> (r: u32)
    requires
        magnitude < 0x8000_0000,
    ensures
        r == exponent(magnitude),
        1 <= r <= 255,
{
    let e: u32 = magnitude / 0x80_0000;
    if e == 0 {
        1
    } else {
        e
    }
}

fn significand_of(magnitude: u32) -> (r: u32)
    requires
        magnitude < 0x8000_0000,
    ensures
        r == significand(magnitude),
        r < 0x100_0000,
{
    if magnitude < 0x80_0000 {
        magnitude
    } else {
        0x80_0000 + magnitude % 0x80_0000
    }
}

/// Exact conversion of a component to a byte: `round(clamp(x, 0, 1) * 255)`.
pub fn to_u8(bits: u32) -> (r: u8)
    ensures
        r == byte_of(bits),
{
    if bits >= 0x8000_0000 || bits > INFINITY {
        return 0;
    }
    if bits >= ONE {
        return 255;
    }
    let e: u32 = exponent_of(bits);
    let m: u32 = significand_of(bits);
    let t: u32 = 150 - e;
    proof {
        lemma2_to64();
        lemma2_to64_rest();
        lemma_pow2_pos(t as nat);
        assert(den(bits) == pow2(t as nat)) by {
            assert(1 * pow2(t as nat) == pow2(t as nat));
        }
        assert(num(bits) == m);
    }
    if t > 33 {
        proof {
            lemma_pow2_strictly_increases(33, t as nat);
            let d = pow2(t as nat) as int;
            vstd::arithmetic::div_mod::lemma_basic_div(2 * (m * 255) + d, 2 * d);
        }
        return 0;
    }
    proof {
        if t < 33 {
            lemma_pow2_strictly_increases(t as nat, 33);
        }
        lemma_pow2_strictly_increases(23, t as nat);
        // A number under one has fewer significant units than one has.
        let d = pow2(t as nat) as int;
        let n = 2 * (m * 255) + d;
        lemma_fundamental_div_mod(n, 2 * d);
        lemma_mod_bound(n, 2 * d);
        assert(n / (2 * d) <= 255) by (nonlinear_arith)
            requires
                n == (2 * d) * (n / (2 * d)) + n % (2 * d),
                n % (2 * d) >= 0,
                n == 2 * (m * 255) + d,
                m <= d,
                d > 0;
    }
    let d: u64 = rounding::two_to(t) as u64;
    ((2 * (m as u64 * 255) + d) / (2 * d)) as u8
}

/// Units of a pixel's 256th part.
pub open spec fn subpixels(bits: u32) -> nat {
    half_up(num(bits) * 256, den(bits))
}

/// A screen coordinate on the subpixel grid, at the end of the range where it
/// leaves it.
pub open spec fn fixed_of(bits: u32) -> i32 {
    if is_nan(bits) {
        i32::MIN
    } else if is_negative(bits) {
        if magnitude(bits) == INFINITY || subpixels(bits) > 0x8000_0000 {
            i32::MIN
        } else {
            (-(subpixels(bits) as int)) as i32
        }
    } else {
        if magnitude(bits) == INFINITY || subpixels(bits) > i32::MAX {
            i32::MAX
        } else {
            subpixels(bits) as i32
        }
    }
}

/// The magnitude of a coordinate in subpixels, or `None` where it exceeds 32 bits.
fn subpixels_of(bits: u32) -> (r: Option<u64>)
    requires
        bits < INFINITY,
    ensures
        match r {
            Some(n) => n == subpixels(bits),
            None => subpixels(bits) > 0x8000_0000,
        },
{
    let e: u32 = exponent_of(bits);
    let m: u32 = significand_of(bits);
    proof {
        lemma2_to64();
        lemma2_to64_rest();
    }
    if e >= 150 {
        proof {
            assert(den(bits) == 1);
            let n = num(bits);
            assert(n >= 0x80_0000) by {
                if e > 150 {
                    lemma_pow2_pos((e - 150) as nat);
                    assert(m * pow2((e - 150) as nat) >= m) by (nonlinear_arith)
                        requires
                            pow2((e - 150) as nat) >= 1,
                            m >= 0;
                }
            }
            if e == 150 {
                assert((2 * (n * 256) + 1) / 2 == n * 256);
            } else {
                lemma_pow2_strictly_increases(0, (e - 150) as nat);
                assert(m * pow2((e - 150) as nat) >= 2 * m) by (nonlinear_arith)
                    requires
                        pow2((e - 150) as nat) >= 2,
                        m >= 0;
                assert((2 * (n * 256) + 1) / 2 == n * 256);
            }
        }
        if e == 150 {
            return Some(m as u64 * 256);
        }
        return None;
    }
    let t: u32 = 150 - e;
    proof {
        lemma_pow2_pos(t as nat);
        assert(den(bits) == pow2(t as nat)) by {
            assert(1 * pow2(t as nat) == pow2(t as nat));
        }
        assert(num(bits) == m);
    }
    if t > 40 {
        proof {
            lemma_pow2_strictly_increases(40, t as nat);
            let d = pow2(t as nat) as int;
            vstd::arithmetic::div_mod::lemma_basic_div(2 * (m * 256) + d, 2 * d);
        }
        return Some(0);
    }
    proof {
        if t < 40 {
            lemma_pow2_strictly_increases(t as nat, 40);
        }
    }
    let d: u64 = rounding::two_to(t) as u64;
    Some((2 * (m as u64 * 256) + d) / (2 * d))
}

/// Snaps a screen-space coordinate to the subpixel grid: the nearest 256th of a
/// pixel, away from zero from the middle, which is deterministic and symmetric
/// about the origin.
pub fn to_fixed(bits: u32) -> (r: i32)
    ensures
        r == fixed_of(bits),
{
    let negative = bits >= 0x8000_0000;
    let m: u32 = if negative {
        bits - 0x8000_0000
    } else {
        bits
    };
    if m > INFINITY {
        return i32::MIN;
    }
    if m == INFINITY {
        return if negative {
            i32::MIN
        } else {
            i32::MAX
        };
    }
    assert(subpixels(m) == subpixels(bits));
    match subpixels_of(m) {
        None => if negative {
            i32::MIN
        } else {
            i32::MAX
        },
        Some(n) => if negative {
            if n > 0x8000_0000 {
                i32::MIN
            } else {
                (-(n as i64)) as i32
            }
        } else if n > 0x7fff_ffff {
            i32::MAX
        } else {
            n as i32
        },
    }
}

/// The grid is symmetric: a coordinate and its negative snap to each other's
/// negatives, wherever both stay in the range.
pub proof fn law_the_subpixel_grid_is_symmetric(bits: u32)
    requires
        bits < INFINITY,
        subpixels(bits) <= i32::MAX,
    ensures
        fixed_of((bits + 0x8000_0000) as u32) == -fixed_of(bits),
{
    let other = (bits + 0x8000_0000) as u32;
    assert(magnitude(other) == bits);
    assert(subpixels(other) == subpixels(bits));
}

/// Where a number stands among the numbers: both zeros stand together.
pub open spec fn rank(bits: u32) -> int {
    if is_negative(bits) {
        -(magnitude(bits) as int)
    } else {
        magnitude(bits) as int
    }
}

/// Is one number less than another? What is no number is less than nothing.
pub open spec fn is_less(a: u32, b: u32) -> bool {
    !is_nan(a) && !is_nan(b) && rank(a) < rank(b)
}

/// Is one number at most another?
pub open spec fn is_at_most(a: u32, b: u32) -> bool {
    !is_nan(a) && !is_nan(b) && rank(a) <= rank(b)
}

fn rank_of(bits: u32) -> (r: Option<i64>)
    ensures
        match r {
            Some(k) => !is_nan(bits) && k == rank(bits),
            None => is_nan(bits),
        },
{
    if bits >= 0x8000_0000 {
        let m: u32 = bits - 0x8000_0000;
        if m > INFINITY {
            None
        } else {
            Some(-(m as i64))
        }
    } else if bits > INFINITY {
        None
    } else {
        Some(bits as i64)
    }
}

pub fn less(a: u32, b: u32) -> (r: bool)
    ensures
        r == is_less(a, b),
{
    match (rank_of(a), rank_of(b)) {
        (Some(x), Some(y)) => x < y,
        _ => false,
    }
}

pub fn at_most(a: u32, b: u32) -> (r: bool)
    ensures
        r == is_at_most(a, b),
{
    match (rank_of(a), rank_of(b)) {
        (Some(x), Some(y)) => x <= y,
        _ => false,
    }
}

/// The bit pattern of a positive number of 24 significant bits.
pub open spec fn pattern(b: rounding::Binary) -> u32 {
    ((b.exp + 149) * 0x80_0000 + b.mant) as u32
}

/// A byte over 255, as near as single precision has it.
pub open spec fn unit_of(v: u8) -> u32 {
    if v == 0 {
        0
    } else {
        pattern(rounding::round(24, v as nat, 255))
    }
}

/// The significant bits of a byte over 255, and their exponent.
proof fn lemma_unit(v: u8, mant: nat, exp: int)
    requires
        v > 0,
        rounding::round(24, v as nat, 255) == (rounding::Binary { mant, exp }),
    ensures
        -31 <= exp <= -23,
        0x80_0000 <= mant <= 0x100_0000,
        v < 255 ==> exp <= -24,
        v == 255 ==> exp == -23 && mant == 0x80_0000,
        -255 <= 2 * (255 * mant) - 2 * (v * pow2((-exp) as nat)) <= 255,
{
    lemma2_to64();
    rounding::lemma_rounded(24, v as nat, 255);
    // Between two to the power -8 and one.
    assert(rounding::raised(v as nat, 8) == v * pow2(8));
    rounding::lemma_binade_of(24, v as nat, 255, exp, -8);
    assert(rounding::raised(255, 0) == 255);
    rounding::lemma_binade_of(24, v as nat, 255, exp, 0);
    assert(rounding::raised(255, 1) == 255 * pow2(1));
    rounding::lemma_binade_of(24, v as nat, 255, exp, 1);
    let t = (-exp) as nat;
    let a = v as nat * pow2(t);
    assert(rounding::raised(v as nat, t as int) == a);
    lemma_fundamental_div_mod(a as int, 255);
    lemma_mod_bound(a as int, 255);
    if v == 255 {
        assert(t == 23);
        assert(a == 255 * 0x80_0000);
    }
}

/// A byte over 255.
pub fn unorm8_to_f32(v: u8) -> (r: u32)
    ensures
        r == unit_of(v),
{
    if v == 0 {
        return 0;
    }
    proof {
        lemma2_to64();
        lemma2_to64_rest();
    }
    let n: u128 = v as u128 * 0x100_0000_0000;
    let (mant, exp) = rounding::round_parts(
        n / 255,
        n % 255 != 0,
        40,
        0x100_0000,
        Ghost(24),
        Ghost(v as nat),
        Ghost(255),
    );
    proof {
        lemma_unit(v, mant as nat, exp as int);
    }
    (exp + 149) as u32 * 0x80_0000 + mant as u32
}

/// The byte nearest a number: see [`to_u8`].
pub fn f32_to_unorm8(bits: u32) -> (r: u8)
    ensures
        r == byte_of(bits),
{
    to_u8(bits)
}

/// No byte is lost on its way through single precision.
pub proof fn law_a_byte_round_trips(v: u8)
    ensures
        byte_of(unit_of(v)) == v,
{
    lemma2_to64();
    lemma2_to64_rest();
    if v > 0 {
        rounding::lemma_rounded(24, v as nat, 255);
        let b = rounding::round(24, v as nat, 255);
        lemma_unit(v, b.mant, b.exp);
        let bits = unit_of(v);
        if v < 255 {
            let t = (-b.exp) as nat;
            if t > 24 {
                lemma_pow2_strictly_increases(24, t);
            }
            let d = pow2(t) as int;
            let (w, m) = (v as int, b.mant as int);
            assert(m * 255 < 255 * d) by (nonlinear_arith)
                requires
                    2 * (255 * m) - 2 * (w * d) <= 255,
                    w <= 254,
                    d >= 0x100_0000;
            assert(bits < ONE);
            if m < 0x100_0000 {
                assert(exponent(bits) == 150 + b.exp);
                assert(significand(bits) == m);
                assert(den(bits) == d) by {
                    assert(1 * pow2(t) == pow2(t));
                }
                lemma_nearest_byte(w, m, d);
            } else {
                assert(exponent(bits) == 151 + b.exp);
                assert(significand(bits) == 0x80_0000);
                let half = pow2((t - 1) as nat) as int;
                vstd::arithmetic::power2::lemma_pow2_unfold(t);
                assert(den(bits) == half) by {
                    assert(1 * pow2((t - 1) as nat) == pow2((t - 1) as nat));
                }
                lemma_nearest_byte(w, m, d);
                let (x, y) = (2 * (0x80_0000 * 255) + half, 2 * half);
                assert((2 * (m * 255) + d) == 2 * x && 2 * d == 2 * y);
                vstd::arithmetic::div_mod::lemma_div_denominator(2 * x, 2, y);
                assert(2 * x / 2 == x);
            }
        }
    } else {
        let d = den(0);
        lemma_pow2_pos(149);
        assert(d == pow2(149)) by {
            assert(1 * pow2(149) == pow2(149));
        }
        vstd::arithmetic::div_mod::lemma_basic_div(d as int, 2 * d as int);
    }
}

/// A number within a 255th of a byte of its unit has that byte.
proof fn lemma_nearest_byte(v: int, m: int, d: int)
    requires
        0 <= v,
        0 <= m,
        d >= 0x80_0000,
        -255 <= 2 * (255 * m) - 2 * (v * d) <= 255,
    ensures
        (2 * (m * 255) + d) / (2 * d) == v,
{
    let n = 2 * (m * 255) + d;
    let r = n - v * (2 * d);
    assert(v * (2 * d) == 2 * (v * d)) by (nonlinear_arith);
    vstd::arithmetic::div_mod::lemma_fundamental_div_mod_converse(n, 2 * d, v, r);
}

/// The number a pattern below infinity stands for: its significant bits times a power
/// of two that the rest of it gives, with the fixed power of the smallest numbers below.
pub proof fn law_a_pattern_stands_for_its_number(bits: u32)
    requires
        bits < 0x7f80_0000,
    ensures
        ({
            let e: nat = if bits < 0x80_0000 { 1 } else { (bits / 0x80_0000) as nat };
            let m: nat = if bits < 0x80_0000 {
                bits as nat
            } else {
                (0x80_0000 + bits % 0x80_0000) as nat
            };
            &&& den(bits) > 0
            &&& num(bits) * pow2(149) == den(bits) * (m * pow2((e - 1) as nat))
        }),
{
    let e: nat = if bits < 0x80_0000 { 1 } else { (bits / 0x80_0000) as nat };
    let m: nat = if bits < 0x80_0000 {
        bits as nat
    } else {
        (0x80_0000 + bits % 0x80_0000) as nat
    };
    assert(exponent(bits) == e && significand(bits) == m);
    if e > 150 {
        let k = (e - 150) as nat;
        vstd::arithmetic::power2::lemma_pow2_adds(k, 149);
        let (p, q) = (pow2(k) as int, pow2(149) as int);
        assert((m * p) * q == m * (p * q)) by (nonlinear_arith);
        assert(num(bits) == m * p);
        assert(den(bits) == 1);
    } else {
        let k = (150 - e) as nat;
        lemma_pow2_pos(k);
        vstd::arithmetic::power2::lemma_pow2_adds(k, (e - 1) as nat);
        if k > 0 {
            assert(1 * pow2(k) == pow2(k));
        } else {
            lemma2_to64();
        }
        let (p, q) = (pow2(k) as int, pow2((e - 1) as nat) as int);
        assert(m * (p * q) == p * (m * q)) by (nonlinear_arith);
        assert(num(bits) == m);
        assert(den(bits) == p);
        assert(p * q == pow2(149));
    }
}

/// The byte of a number from nothing to one is the nearest of the 255 steps between, a
/// half rounded up. Below that it is none, above it all, and of what is not a number
/// none.
pub proof fn law_a_byte_is_the_nearest_step(bits: u32)
    ensures
        bits < 0x3f80_0000 ==> {
            let (b, n, d) = (byte_of(bits) as int, num(bits) as int, den(bits) as int);
            (2 * b - 1) * d <= 2 * (255 * n) < (2 * b + 1) * d
        },
        0x3f80_0000 <= bits <= 0x7f80_0000 ==> byte_of(bits) == 255,
        bits > 0x7f80_0000 ==> byte_of(bits) == 0,
{
    if bits < 0x3f80_0000 {
        law_a_pattern_stands_for_its_number(bits);
        let (n, d) = (num(bits) as int, den(bits) as int);
        lemma_below_one(bits);
        let a = 2 * (n * 255) + d;
        let q = a / (2 * d);
        lemma_fundamental_div_mod(a, 2 * d);
        lemma_mod_bound(a, 2 * d);
        assert(0 <= q <= 255 && (2 * q - 1) * d <= 2 * (255 * n) < (2 * q + 1) * d)
            by (nonlinear_arith)
            requires
                a == 2 * (n * 255) + d,
                a == (2 * d) * q + a % (2 * d),
                0 <= a % (2 * d) < 2 * d,
                0 <= n < d,
                d > 0;
    }
}

/// A pattern below that of one stands for less than one.
proof fn lemma_below_one(bits: u32)
    requires
        bits < 0x3f80_0000,
    ensures
        num(bits) < den(bits),
{
    let e = exponent(bits);
    let m = significand(bits);
    assert(e <= 126 && m < 0x100_0000);
    let k = (150 - e) as nat;
    lemma2_to64();
    if k > 24 {
        lemma_pow2_strictly_increases(24, k);
    }
    assert(1 * pow2(k) == pow2(k));
}

/// A coordinate in subpixels is the nearest to 256 times the number, a half rounded
/// away from nothing, as far as a 32-bit number goes.
pub proof fn law_a_coordinate_is_the_nearest_subpixel(bits: u32)
    requires
        bits < 0x7f80_0000,
        subpixels(bits) <= i32::MAX,
    ensures
        ({
            let (f, n, d) = (fixed_of(bits) as int, num(bits) as int, den(bits) as int);
            (2 * f - 1) * d <= 2 * (256 * n) < (2 * f + 1) * d
        }),
{
    law_a_pattern_stands_for_its_number(bits);
    let (n, d) = (num(bits) as int, den(bits) as int);
    let a = 2 * (n * 256) + d;
    let q = a / (2 * d);
    lemma_fundamental_div_mod(a, 2 * d);
    lemma_mod_bound(a, 2 * d);
    assert((2 * q - 1) * d <= 2 * (256 * n) < (2 * q + 1) * d) by (nonlinear_arith)
        requires
            a == 2 * (n * 256) + d,
            a == (2 * d) * q + a % (2 * d),
            0 <= a % (2 * d) < 2 * d,
            d > 0;
}

/// One number is at most another when neither is not a number and the other is not
/// less.
pub proof fn law_at_most_is_not_more(a: u32, b: u32)
    ensures
        is_at_most(a, b) <==> !is_less(b, a) && a & 0x7fff_ffff <= 0x7f80_0000 && b & 0x7fff_ffff
            <= 0x7f80_0000,
{
    assert(a >= 0x8000_0000 ==> a & 0x7fff_ffff == a - 0x8000_0000) by (bit_vector);
    assert(a < 0x8000_0000 ==> a & 0x7fff_ffff == a) by (bit_vector);
    assert(b >= 0x8000_0000 ==> b & 0x7fff_ffff == b - 0x8000_0000) by (bit_vector);
    assert(b < 0x8000_0000 ==> b & 0x7fff_ffff == b) by (bit_vector);
}

} // verus!
