//! Exact arithmetic on IEEE 754 bit patterns.
//!
//! A finite double-precision pattern decomposes into an integer mantissa `m`
//! and an exponent `e` with value `(-1)^sign * m * 2^e`; both are plain
//! integers, so products, quotients and remainders of such values can be
//! computed and specified exactly, without any floating-point hardware.
//!
//! The double-precision half provides the conversions the renderer needs —
//! seconds to a frame count, truncating or rounding to nearest (half away
//! from zero, saturating like an `as` cast: NaN and negative values give 0,
//! overflow gives the cap) — and the half-period test of the square wave.
//! The conversions multiply the exact value by the sample rate and then
//! convert, so they carry no intermediate rounding.
//!
//! The single-precision half implements the sample arithmetic of the mixer:
//! addition and multiplication rounded to nearest with ties to even, the
//! reciprocal of a small count (the amplitude divisor), and the narrowing
//! of a double-precision value (a velocity) — each an integer algorithm on
//! patterns, rounding through one shared `round_pack32`.  NaN results take
//! the canonical quiet pattern; the tests compare every operation against
//! the hardware's floating point.

use vstd::prelude::*;
use vstd::arithmetic::power2::pow2;
use vstd::arithmetic::div_mod::{lemma_basic_div, lemma_fundamental_div_mod, lemma_small_mod, lemma_mul_mod_noop_general};
use vstd::arithmetic::power2::lemma_pow2_unfold;
use vstd::arithmetic::power2::{lemma_pow2_adds, lemma_pow2_pos, lemma_pow2_strictly_increases};
use crate::fbits::{
    f64_is_nan, F64_EXP_MASK, F64_FRAC_MASK, F64_SIGN_MASK,
};

verus! {

broadcast use lemma_pow2_pos;

/// Concrete values of the powers of two that the proofs below lean on.
proof fn pow2_facts()
    ensures
        pow2(0) == 1,
        pow2(1) == 2,
        pow2(32) == 0x1_0000_0000,
        pow2(52) == 0x10_0000_0000_0000,
        pow2(53) == 0x20_0000_0000_0000,
        pow2(64) == 0x1_0000_0000_0000_0000,
        pow2(85) == 0x2000_0000_0000_0000_0000_00,
        pow2(95) == 0x8000_0000_0000_0000_0000_0000,
        pow2(96) == 0x1_0000_0000_0000_0000_0000_0000,
        pow2(127) == 0x8000_0000_0000_0000_0000_0000_0000_0000,
{
    vstd::arithmetic::power2::lemma2_to64();
    vstd::arithmetic::power2::lemma2_to64_rest();
    lemma_pow2_adds(53, 32);
    lemma_pow2_adds(63, 32);
    lemma_pow2_adds(64, 32);
    lemma_pow2_adds(63, 64);
    assert(pow2(85) == 0x2000_0000_0000_0000_0000_00) by (nonlinear_arith)
        requires
            pow2(85) == pow2(53) * pow2(32),
            pow2(53) == 0x20_0000_0000_0000,
            pow2(32) == 0x1_0000_0000,
    ;
    assert(pow2(95) == 0x8000_0000_0000_0000_0000_0000) by (nonlinear_arith)
        requires
            pow2(95) == pow2(63) * pow2(32),
            pow2(63) == 0x8000_0000_0000_0000,
            pow2(32) == 0x1_0000_0000,
    ;
    assert(pow2(96) == 0x1_0000_0000_0000_0000_0000_0000) by (nonlinear_arith)
        requires
            pow2(96) == pow2(64) * pow2(32),
            pow2(64) == 0x1_0000_0000_0000_0000,
            pow2(32) == 0x1_0000_0000,
    ;
    assert(pow2(127) == 0x8000_0000_0000_0000_0000_0000_0000_0000) by (nonlinear_arith)
        requires
            pow2(127) == pow2(63) * pow2(64),
            pow2(63) == 0x8000_0000_0000_0000,
            pow2(64) == 0x1_0000_0000_0000_0000,
    ;
}

/// The exponent field of a double-precision pattern.
pub open spec fn f64_exp_field(b: u64) -> u64 {
    (b >> 52) & 0x7FF
}

/// The integer mantissa of a finite pattern: the fraction field, with the
/// hidden bit added for normal values.
pub open spec fn f64_mant(b: u64) -> nat {
    if f64_exp_field(b) == 0 {
        (b & F64_FRAC_MASK) as nat
    } else {
        ((b & F64_FRAC_MASK) + 0x0010_0000_0000_0000) as nat
    }
}

/// The exponent of a finite pattern, such that its magnitude is
/// `f64_mant(b) * 2^f64_exp(b)`.
pub open spec fn f64_exp(b: u64) -> int {
    if f64_exp_field(b) == 0 {
        -1074
    } else {
        f64_exp_field(b) - 1075
    }
}

/// `floor(p * 2^e)` for a natural `p`.
pub open spec fn floor_shift(p: nat, e: int) -> nat {
    if e >= 0 {
        p * pow2(e as nat)
    } else {
        p / pow2((-e) as nat)
    }
}

/// `floor(p * 2^e + 1/2)` for a natural `p`: the nearest integer, halves up.
pub open spec fn round_shift(p: nat, e: int) -> nat {
    if e >= 0 {
        p * pow2(e as nat)
    } else {
        (p + pow2((-e - 1) as nat)) / pow2((-e) as nat)
    }
}

/// `n`, clamped to `cap`.
pub open spec fn clamp_nat(n: nat, cap: nat) -> nat {
    if n > cap {
        cap
    } else {
        n
    }
}

/// The number of whole frames in the time `b` (seconds, as a pattern) at
/// `rate` frames per second: `value * rate`, computed exactly, truncated
/// toward zero and clamped to `[0, cap]`.  NaN and negative times give 0;
/// infinity gives `cap`: the saturation of an `as` cast.
pub open spec fn spec_seconds_to_frames_trunc(b: u64, rate: u32, cap: nat) -> nat {
    if f64_is_nan(b) {
        0
    } else if b & F64_SIGN_MASK != 0 {
        0
    } else if b & F64_EXP_MASK == F64_EXP_MASK {
        cap
    } else {
        clamp_nat(floor_shift((f64_mant(b) * rate) as nat, f64_exp(b)), cap)
    }
}

/// As `spec_seconds_to_frames_trunc`, but rounding to the nearest frame,
/// halves away from zero, before clamping.
pub open spec fn spec_seconds_to_frames_round(b: u64, rate: u32, cap: nat) -> nat {
    if f64_is_nan(b) {
        0
    } else if b & F64_SIGN_MASK != 0 {
        0
    } else if b & F64_EXP_MASK == F64_EXP_MASK {
        cap
    } else {
        clamp_nat(round_shift((f64_mant(b) * rate) as nat, f64_exp(b)), cap)
    }
}

/// `2^s` as a `u128`.
pub(crate) fn pow2_u128(s: u64) -> (r: u128)
    requires
        s < 127,
    ensures
        r == pow2(s as nat),
{
    proof {
        pow2_facts();
    }
    let mut r: u128 = 1;
    let mut i: u64 = 0;
    while i < s
        invariant
            i <= s < 127,
            r == pow2(i as nat),
        decreases s - i,
    {
        proof {
            pow2_facts();
            lemma_pow2_adds(i as nat, 1);
            lemma_pow2_strictly_increases((i + 1) as nat, 127);
        }
        r = r * 2;
        i = i + 1;
    }
    r
}

/// Unpacks a finite pattern into its integer mantissa and exponent.
pub(crate) fn f64_unpack(b: u64) -> (r: (u64, i64))
    requires
        !(b & F64_EXP_MASK == F64_EXP_MASK),
    ensures
        r.0 == f64_mant(b),
        r.1 == f64_exp(b),
        r.0 < pow2(53),
        -1074 <= r.1 <= 971,
{
    proof {
        pow2_facts();
        assert((b >> 52) & 0x7FF < 0x800) by (bit_vector);
        assert(b & 0x000F_FFFF_FFFF_FFFF < 0x0010_0000_0000_0000) by (bit_vector);
        assert(((b >> 52) & 0x7FF == 0x7FF) == (b & 0x7FF0_0000_0000_0000 == 0x7FF0_0000_0000_0000))
            by (bit_vector);
    }
    let ef: u64 = (b >> 52) & 0x7FF;
    if ef == 0 {
        (b & F64_FRAC_MASK, -1074)
    } else {
        ((b & F64_FRAC_MASK) + 0x0010_0000_0000_0000, ef as i64 - 1075)
    }
}

/// Core of the conversions: `floor((p + h) / 2^s)` or `p * 2^s`, clamped.
/// `half` selects rounding: it adds `2^(s-1)` before the division.
fn scaled_to_int(p: u128, e: i64, half: bool, cap: u128) -> (r: u128)
    requires
        p < pow2(85),
        -1100 <= e <= 1100,
        1 <= cap < pow2(64),
    ensures
        r == clamp_nat(
            if half {
                round_shift(p as nat, e as int)
            } else {
                floor_shift(p as nat, e as int)
            },
            cap as nat,
        ),
{
    proof {
        pow2_facts();
    }
    if e >= 0 {
        // The value is the exact integer p * 2^e.
        if p == 0 {
            proof {
                assert(0 * pow2(e as nat) == 0) by (nonlinear_arith);
            }
            return 0;
        }
        if e >= 64 {
            proof {
                if e > 64 {
                    lemma_pow2_strictly_increases(64, e as nat);
                }
                assert(p * pow2(e as nat) >= 1 * pow2(64)) by (nonlinear_arith)
                    requires p >= 1 && pow2(e as nat) >= pow2(64) > 0;
            }
            return cap;
        }
        let d: u128 = pow2_u128(e as u64);
        proof {
            lemma_fundamental_div_mod(cap as int, d as int);
        }
        if p > cap / d {
            proof {
                assert(p * d > cap) by (nonlinear_arith)
                    requires p > cap / d && d > 0 && d * (cap / d) + cap % d == cap && cap % d < d;
            }
            return cap;
        }
        proof {
            assert(p * d <= cap) by (nonlinear_arith)
                requires p <= cap / d && d > 0 && d * (cap / d) + cap % d == cap && cap % d < d;
        }
        (p * d) as u128
    } else {
        let s: u64 = (-e) as u64;
        if s >= 96 {
            // p < 2^85 <= 2^(s-1), so even p + 2^(s-1) < 2^s: the result is 0.
            proof {
                lemma_pow2_strictly_increases(85, (s - 1) as nat);
                lemma_pow2_strictly_increases(85, s as nat);
                lemma_pow2_adds((s - 1) as nat, 1);
                lemma_basic_div((p + if half { pow2((s - 1) as nat) } else { 0 }) as int, pow2(s as nat) as int);
                lemma_basic_div(p as int, pow2(s as nat) as int);
            }
            return 0;
        }
        let d: u128 = pow2_u128(s);
        let num: u128 = if half {
            let h: u128 = pow2_u128(s - 1);
            proof {
                let sm: nat = (s - 1) as nat;
                if sm < 95 {
                    lemma_pow2_strictly_increases(sm, 95);
                }
                lemma_pow2_strictly_increases(85, 96);
            }
            p + h
        } else {
            p
        };
        let q: u128 = num / d;
        if q > cap {
            cap
        } else {
            q
        }
    }
}

/// Frames in the time `b` at `rate`, truncating, saturating to `usize`.
pub fn seconds_to_frames_trunc(b: u64, rate: u32) -> (r: usize)
    ensures
        r == spec_seconds_to_frames_trunc(b, rate, usize::MAX as nat),
{
    proof {
        pow2_facts();
    }
    seconds_to_frames_impl(b, rate, false, usize::MAX as u128) as usize
}

/// Frames in the time `b` at `rate`, rounding to nearest (halves away from
/// zero), saturating to `usize`.
pub fn seconds_to_frames_round(b: u64, rate: u32) -> (r: usize)
    ensures
        r == spec_seconds_to_frames_round(b, rate, usize::MAX as nat),
{
    proof {
        pow2_facts();
    }
    seconds_to_frames_impl(b, rate, true, usize::MAX as u128) as usize
}

/// Frames in the time `b` at `rate`, truncating, saturating to `u64`.
pub fn seconds_to_frames_trunc_u64(b: u64, rate: u32) -> (r: u64)
    ensures
        r == spec_seconds_to_frames_trunc(b, rate, u64::MAX as nat),
{
    proof {
        pow2_facts();
    }
    seconds_to_frames_impl(b, rate, false, u64::MAX as u128) as u64
}

fn seconds_to_frames_impl(b: u64, rate: u32, half: bool, cap: u128) -> (r: u128)
    requires
        1 <= cap < pow2(64),
    ensures
        r == if half {
            spec_seconds_to_frames_round(b, rate, cap as nat)
        } else {
            spec_seconds_to_frames_trunc(b, rate, cap as nat)
        },
        r <= cap,
{
    if crate::fbits::is_nan_bits(b) {
        return 0;
    }
    if b & F64_SIGN_MASK != 0 {
        return 0;
    }
    if b & F64_EXP_MASK == F64_EXP_MASK {
        return cap;
    }
    let (m, e) = f64_unpack(b);
    proof {
        pow2_facts();
        assert((m as u128) * (rate as u128) < 0x2000_0000_0000_0000_0000_00u128) by (nonlinear_arith)
            requires
                (m as u128) < 0x20_0000_0000_0000,
                (rate as u128) < 0x1_0000_0000,
        ;
    }
    let p: u128 = (m as u128) * (rate as u128);
    scaled_to_int(p, e, half, cap)
}


// ---------------------------------------------------------------------------
// Single-precision values: the samples of the output buffer.
// ---------------------------------------------------------------------------

/// Mask of the sign bit of a single-precision pattern.
pub const F32_SIGN_MASK: u32 = 0x8000_0000;
/// Mask of the exponent field of a single-precision pattern.
pub const F32_EXP_MASK: u32 = 0x7F80_0000;
/// Mask of the fraction field of a single-precision pattern.
pub const F32_FRAC_MASK: u32 = 0x007F_FFFF;
/// The canonical quiet NaN pattern that the operations below produce.
pub const F32_NAN_BITS: u32 = 0x7FC0_0000;
/// The pattern of positive infinity.
pub const F32_INF_BITS: u32 = 0x7F80_0000;
/// The pattern of the value one.
pub const F32_ONE_BITS: u32 = 0x3F80_0000;
/// The pattern of the value minus one.
pub const F32_NEG_ONE_BITS: u32 = 0xBF80_0000;

/// The single-precision pattern is a NaN.
pub open spec fn f32_is_nan(b: u32) -> bool {
    b & F32_EXP_MASK == F32_EXP_MASK && b & F32_FRAC_MASK != 0
}

/// The exponent field of a single-precision pattern.
pub open spec fn f32_exp_field(b: u32) -> u32 {
    (b >> 23) & 0xFF
}

/// The integer mantissa of a finite single-precision pattern.
pub open spec fn f32_mant(b: u32) -> nat {
    if f32_exp_field(b) == 0 {
        (b & F32_FRAC_MASK) as nat
    } else {
        ((b & F32_FRAC_MASK) + 0x80_0000) as nat
    }
}

/// The exponent of a finite single-precision pattern, such that its
/// magnitude is `f32_mant(b) * 2^f32_exp(b)`.
pub open spec fn f32_exp(b: u32) -> int {
    if f32_exp_field(b) == 0 {
        -149
    } else {
        f32_exp_field(b) - 150
    }
}

/// The sign-bit summand of an encoded pattern.
pub open spec fn pack_sign32(neg: bool) -> u32 {
    if neg {
        0x8000_0000u32
    } else {
        0u32
    }
}

/// The number of binary digits of `t`.
pub open spec fn bit_len(t: nat) -> nat
    decreases t,
{
    if t == 0 {
        0
    } else {
        bit_len(t / 2) + 1
    }
}

/// For `t >= 1`: `2^(bit_len(t) - 1) <= t < 2^bit_len(t)`.
pub proof fn lemma_bit_len_bounds(t: nat)
    requires
        t >= 1,
    ensures
        bit_len(t) >= 1,
        pow2((bit_len(t) - 1) as nat) <= t < pow2(bit_len(t)),
    decreases t,
{
    vstd::arithmetic::power2::lemma2_to64();
    if t == 1 {
        assert(bit_len(1nat) == bit_len(0nat) + 1);
        assert(bit_len(0nat) == 0);
    } else {
        lemma_bit_len_bounds(t / 2);
        let bh = bit_len(t / 2);
        assert(bit_len(t) == bh + 1);
        lemma_pow2_unfold(bh + 1);
        lemma_pow2_unfold(bh);
        assert(t >= 2 * (t / 2));
        assert(t <= 2 * (t / 2) + 1);
        assert(pow2(bh) <= t);
        assert(t < pow2(bh + 1));
    }
}

/// The larger of two integers.
pub open spec fn max_int(a: int, b: int) -> int {
    if a > b {
        a
    } else {
        b
    }
}

/// Encodes a rounded magnitude `q * 2^ee` (with `q < 2^24`) and a sign as a
/// single-precision pattern: zero, subnormal, normal, or infinity on
/// exponent overflow.
pub open spec fn pack32(neg: bool, q: nat, ee: int) -> u32 {
    if q == 0 {
        pack_sign32(neg)
    } else if ee > 104 {
        (pack_sign32(neg) + F32_INF_BITS) as u32
    } else if q < pow2(23) {
        (pack_sign32(neg) + q) as u32
    } else {
        (pack_sign32(neg) + (ee + 150) * 0x80_0000 + (q - pow2(23))) as u32
    }
}

/// Rounds the exact value `(-1)^neg * t * 2^e` (with `t >= 1`) to the
/// nearest single-precision pattern, ties to even, and encodes it.  The
/// significand is cut down to 24 bits — or further, so that the exponent
/// stays in range and a too-small value becomes subnormal or zero — and the
/// remainder decides the rounding; a carry out of the 24 bits moves the
/// exponent up.
pub open spec fn round_pack32(neg: bool, t: nat, e: int) -> u32 {
    let c = max_int(bit_len(t) - 24, -149 - e);
    let q1 = if c >= 1 {
        let q0 = t / pow2(c as nat);
        let r = t % pow2(c as nat);
        let h = pow2((c - 1) as nat);
        if r > h || (r == h && q0 % 2 == 1) {
            (q0 + 1) as nat
        } else {
            q0
        }
    } else {
        t * pow2((-c) as nat)
    };
    if q1 >= pow2(24) {
        pack32(neg, q1 / 2, e + c + 1)
    } else {
        pack32(neg, q1, e + c)
    }
}

/// `2^s` as a `u64`.
pub(crate) fn pow2_u64(s: u64) -> (r: u64)
    requires
        s < 63,
    ensures
        r == pow2(s as nat),
{
    proof {
        pow2_facts();
    }
    let mut r: u64 = 1;
    let mut i: u64 = 0;
    while i < s
        invariant
            i <= s < 63,
            r == pow2(i as nat),
        decreases s - i,
    {
        proof {
            pow2_facts();
            vstd::arithmetic::power2::lemma2_to64();
            vstd::arithmetic::power2::lemma2_to64_rest();
            lemma_pow2_adds(i as nat, 1);
            lemma_pow2_strictly_increases((i + 1) as nat, 63);
        }
        r = r * 2;
        i = i + 1;
    }
    r
}

/// The number of binary digits of `t`, as executable code.
fn bit_len_exec(t: u64) -> (r: u64)
    ensures
        r == bit_len(t as nat),
        r <= 64,
{
    proof {
        pow2_facts();
        lemma_bit_len_upper(t as nat, 64);
    }
    let mut x: u64 = t;
    let mut n: u64 = 0;
    while x > 0
        invariant
            bit_len(t as nat) == n + bit_len(x as nat),
            n + bit_len(x as nat) <= 64,
        decreases x,
    {
        x = x / 2;
        n = n + 1;
    }
    n
}

/// `x < 2^k` bounds the digit count by `k`.
proof fn lemma_bit_len_upper(x: nat, k: nat)
    requires
        x < pow2(k),
    ensures
        bit_len(x) <= k,
    decreases x,
{
    if x > 0 {
        lemma_pow2_pos(k);
        if k == 0 {
            assert(pow2(0) == 1) by {
                vstd::arithmetic::power2::lemma2_to64();
            }
        } else {
            lemma_pow2_unfold(k);
            lemma_bit_len_upper(x / 2, (k - 1) as nat);
        }
    }
}

/// Encodes a sign and a rounded magnitude, as executable code.
fn pack32_exec(neg: bool, q: u64, ee: i64) -> (r: u32)
    requires
        q < pow2(24),
        -1300 <= ee <= 2300,
        pow2(23) <= q ==> ee >= -149,
    ensures
        r == pack32(neg, q as nat, ee as int),
{
    proof {
        pow2_facts();
        vstd::arithmetic::power2::lemma2_to64();
    }
    let sign_val: u32 = if neg {
        0x8000_0000
    } else {
        0
    };
    if q == 0 {
        sign_val
    } else if ee > 104 {
        sign_val + F32_INF_BITS
    } else if q < 0x80_0000 {
        sign_val + (q as u32)
    } else {
        sign_val + ((ee + 150) as u32) * 0x80_0000 + ((q - 0x80_0000) as u32)
    }
}

/// Rounds and packs, as executable code.
fn round_pack32_exec(neg: bool, t: u64, e: i64) -> (r: u32)
    requires
        1 <= t < pow2(54),
        -1100 <= e <= 1100,
    ensures
        r == round_pack32(neg, t as nat, e as int),
{
    proof {
        pow2_facts();
        vstd::arithmetic::power2::lemma2_to64();
        lemma_bit_len_bounds(t as nat);
        if bit_len(t as nat) > 54 {
            lemma_pow2_strictly_increases(54, (bit_len(t as nat) - 1) as nat);
        }
    }
    let bl: u64 = bit_len_exec(t);
    let c1: i64 = bl as i64 - 24;
    let c2: i64 = -149 - e;
    let c: i64 = if c1 > c2 {
        c1
    } else {
        c2
    };
    if c >= 55 {
        // t < 2^54 <= 2^(c-1): the remainder stays below the halfway point,
        // so the value rounds to zero.
        proof {
            lemma_pow2_strictly_increases(54, c as nat);
            if 54 < c - 1 {
                lemma_pow2_strictly_increases(54, (c - 1) as nat);
            }
            lemma_basic_div(t as int, pow2(c as nat) as int);
            lemma_small_mod(t as nat, pow2(c as nat));
        }
        pack32_exec(neg, 0, e + c)
    } else if c >= 1 {
        let d: u64 = pow2_u64(c as u64);
        let q0: u64 = t / d;
        let r: u64 = t % d;
        let h: u64 = d / 2;
        proof {
            lemma_pow2_unfold(c as nat);
            assert(h == pow2((c - 1) as nat));
            // q0 < 2^24: t < 2^bl and c >= bl - 24.
            lemma_div_bound_helper(t as nat, bl as nat, c as nat);
        }
        let q1: u64 = if r > h || (r == h && q0 % 2 == 1) {
            q0 + 1
        } else {
            q0
        };
        if q1 >= 0x100_0000 {
            pack32_exec(neg, q1 / 2, e + c + 1)
        } else {
            pack32_exec(neg, q1, e + c)
        }
    } else {
        let l: u64 = (-c) as u64;
        proof {
            // l <= 24 - bl, so t * 2^l < 2^24.
            lemma_shift_up_bound(t as nat, bl as nat, l as nat);
        }
        let q: u64 = t * pow2_u64(l);
        pack32_exec(neg, q, e + c)
    }
}

proof fn lemma_div_bound_helper(t: nat, bl: nat, c: nat)
    requires
        t < pow2(bl),
        c >= 1,
        bl <= c + 24,
    ensures
        t / pow2(c) < pow2(24),
{
    if bl <= 24 {
        lemma_pow2_strictly_increases_or_eq(bl, 24);
        lemma_pow2_pos(c);
        vstd::arithmetic::div_mod::lemma_div_is_ordered(t as int, pow2(24) as int - 1, pow2(c) as int);
        vstd::arithmetic::div_mod::lemma_div_nonincreasing(pow2(24) as int - 1, pow2(c) as int);
    } else {
        lemma_pow2_adds(((bl - 24) as nat), 24);
        lemma_pow2_strictly_increases_or_eq((bl - 24) as nat, c);
        assert(t < pow2((bl - 24) as nat) * pow2(24));
        lemma_pow2_pos(c);
        lemma_pow2_pos((bl - 24) as nat);
        assert(t < pow2(c) * pow2(24)) by (nonlinear_arith)
            requires
                t < pow2((bl - 24) as nat) * pow2(24),
                pow2((bl - 24) as nat) <= pow2(c),
                pow2(24) > 0,
        ;
        vstd::arithmetic::div_mod::lemma_multiply_divide_lt(t as int, pow2(c) as int, pow2(24) as int);
    }
}

proof fn lemma_pow2_strictly_increases_or_eq(a: nat, b: nat)
    requires
        a <= b,
    ensures
        pow2(a) <= pow2(b),
{
    if a < b {
        lemma_pow2_strictly_increases(a, b);
    }
}

proof fn lemma_shift_up_bound(t: nat, bl: nat, l: nat)
    requires
        t >= 1,
        t < pow2(bl),
        bl >= 1,
        l + bl <= 24,
    ensures
        t * pow2(l) < pow2(24),
        l < 63,
{
    lemma_pow2_adds(bl, l);
    lemma_pow2_pos(l);
    assert(t * pow2(l) < pow2(bl) * pow2(l)) by (nonlinear_arith)
        requires
            t < pow2(bl),
            pow2(l) > 0,
    ;
    lemma_pow2_strictly_increases_or_eq(bl + l, 24);
}


/// Unpacks a finite single-precision pattern into mantissa and exponent.
fn f32_unpack(b: u32) -> (r: (u32, i64))
    requires
        !(b & F32_EXP_MASK == F32_EXP_MASK),
    ensures
        r.0 == f32_mant(b),
        r.1 == f32_exp(b),
        r.0 < pow2(24),
        -149 <= r.1 <= 104,
{
    proof {
        vstd::arithmetic::power2::lemma2_to64();
        assert((b >> 23) & 0xFF < 0x100) by (bit_vector);
        assert(b & 0x007F_FFFF < 0x0080_0000) by (bit_vector);
        assert(((b >> 23) & 0xFF == 0xFF) == (b & 0x7F80_0000 == 0x7F80_0000)) by (bit_vector);
    }
    let ef: u32 = (b >> 23) & 0xFF;
    if ef == 0 {
        (b & F32_FRAC_MASK, -149)
    } else {
        ((b & F32_FRAC_MASK) + 0x80_0000, ef as i64 - 150)
    }
}

/// The product of two single-precision patterns, rounded to nearest, ties
/// to even.  NaN operands, and an infinity times a zero, give the canonical
/// NaN; other infinite operands give a signed infinity; otherwise the exact
/// product of the two decomposed values is rounded and packed.
pub open spec fn spec_f32_mul(a: u32, b: u32) -> u32 {
    let neg = ((a & F32_SIGN_MASK) != 0) != ((b & F32_SIGN_MASK) != 0);
    if f32_is_nan(a) || f32_is_nan(b) {
        F32_NAN_BITS
    } else if a & F32_EXP_MASK == F32_EXP_MASK {
        if b & 0x7FFF_FFFF == 0 {
            F32_NAN_BITS
        } else {
            (pack_sign32(neg) + F32_INF_BITS) as u32
        }
    } else if b & F32_EXP_MASK == F32_EXP_MASK {
        if a & 0x7FFF_FFFF == 0 {
            F32_NAN_BITS
        } else {
            (pack_sign32(neg) + F32_INF_BITS) as u32
        }
    } else {
        let t = f32_mant(a) * f32_mant(b);
        if t == 0 {
            pack_sign32(neg)
        } else {
            round_pack32(neg, t, f32_exp(a) + f32_exp(b))
        }
    }
}

/// Multiplies two single-precision patterns exactly as `spec_f32_mul` says.
pub fn f32_mul(a: u32, b: u32) -> (r: u32)
    ensures
        r == spec_f32_mul(a, b),
{
    let neg: bool = ((a & F32_SIGN_MASK) != 0) != ((b & F32_SIGN_MASK) != 0);
    let sign_val: u32 = if neg {
        0x8000_0000
    } else {
        0
    };
    if (a & F32_EXP_MASK == F32_EXP_MASK && a & F32_FRAC_MASK != 0)
        || (b & F32_EXP_MASK == F32_EXP_MASK && b & F32_FRAC_MASK != 0) {
        return F32_NAN_BITS;
    }
    if a & F32_EXP_MASK == F32_EXP_MASK {
        if b & 0x7FFF_FFFF == 0 {
            return F32_NAN_BITS;
        }
        return sign_val + F32_INF_BITS;
    }
    if b & F32_EXP_MASK == F32_EXP_MASK {
        if a & 0x7FFF_FFFF == 0 {
            return F32_NAN_BITS;
        }
        return sign_val + F32_INF_BITS;
    }
    let (ma, ea) = f32_unpack(a);
    let (mb, eb) = f32_unpack(b);
    proof {
        pow2_facts();
        vstd::arithmetic::power2::lemma2_to64();
        vstd::arithmetic::power2::lemma2_to64_rest();
        lemma_pow2_adds(24, 24);
        assert((ma as u64) * (mb as u64) < 0x1_0000_0000_0000u64) by (nonlinear_arith)
            requires
                (ma as u64) < 0x100_0000,
                (mb as u64) < 0x100_0000,
        ;
        lemma_pow2_strictly_increases(48, 54);
    }
    let t: u64 = (ma as u64) * (mb as u64);
    if t == 0 {
        return sign_val;
    }
    round_pack32_exec(neg, t, ea + eb)
}

/// The sum of two single-precision patterns, rounded to nearest, ties to
/// even.  NaN operands, and infinities of opposite sign, give the canonical
/// NaN; a single infinity wins; two zeroes keep the sign only when both are
/// negative; a zero operand returns the other operand.  When one exponent
/// exceeds the other by more than 26, the smaller magnitude lies below a
/// quarter of the larger one's last place, so the rounded sum is the larger
/// operand itself; otherwise the exact aligned sum is rounded and packed,
/// and an exact cancellation gives positive zero.
pub open spec fn spec_f32_add(a: u32, b: u32) -> u32 {
    let na = (a & F32_SIGN_MASK) != 0;
    let nb = (b & F32_SIGN_MASK) != 0;
    if f32_is_nan(a) || f32_is_nan(b) {
        F32_NAN_BITS
    } else if a & F32_EXP_MASK == F32_EXP_MASK {
        if b & F32_EXP_MASK == F32_EXP_MASK && na != nb {
            F32_NAN_BITS
        } else {
            a
        }
    } else if b & F32_EXP_MASK == F32_EXP_MASK {
        b
    } else if f32_mant(a) == 0 && f32_mant(b) == 0 {
        pack_sign32(na && nb)
    } else if f32_mant(a) == 0 {
        b
    } else if f32_mant(b) == 0 {
        a
    } else if f32_exp(a) > f32_exp(b) + 26 {
        a
    } else if f32_exp(b) > f32_exp(a) + 26 {
        b
    } else {
        let emin = if f32_exp(a) < f32_exp(b) {
            f32_exp(a)
        } else {
            f32_exp(b)
        };
        let ta = f32_mant(a) * pow2((f32_exp(a) - emin) as nat);
        let tb = f32_mant(b) * pow2((f32_exp(b) - emin) as nat);
        let sum: int = (if na {
            -(ta as int)
        } else {
            ta as int
        }) + (if nb {
            -(tb as int)
        } else {
            tb as int
        });
        if sum == 0 {
            0u32
        } else if sum < 0 {
            round_pack32(true, (-sum) as nat, emin)
        } else {
            round_pack32(false, sum as nat, emin)
        }
    }
}

/// Adds two single-precision patterns exactly as `spec_f32_add` says.
pub fn f32_add(a: u32, b: u32) -> (r: u32)
    ensures
        r == spec_f32_add(a, b),
{
    let na: bool = (a & F32_SIGN_MASK) != 0;
    let nb: bool = (b & F32_SIGN_MASK) != 0;
    if (a & F32_EXP_MASK == F32_EXP_MASK && a & F32_FRAC_MASK != 0)
        || (b & F32_EXP_MASK == F32_EXP_MASK && b & F32_FRAC_MASK != 0) {
        return F32_NAN_BITS;
    }
    if a & F32_EXP_MASK == F32_EXP_MASK {
        if b & F32_EXP_MASK == F32_EXP_MASK && na != nb {
            return F32_NAN_BITS;
        }
        return a;
    }
    if b & F32_EXP_MASK == F32_EXP_MASK {
        return b;
    }
    let (ma, ea) = f32_unpack(a);
    let (mb, eb) = f32_unpack(b);
    if ma == 0 && mb == 0 {
        return if na && nb {
            0x8000_0000
        } else {
            0
        };
    }
    if ma == 0 {
        return b;
    }
    if mb == 0 {
        return a;
    }
    if ea > eb + 26 {
        return a;
    }
    if eb > ea + 26 {
        return b;
    }
    let emin: i64 = if ea < eb {
        ea
    } else {
        eb
    };
    proof {
        pow2_facts();
        vstd::arithmetic::power2::lemma2_to64();
        lemma_pow2_strictly_increases_or_eq(((ea - emin) as nat), 26);
        lemma_pow2_strictly_increases_or_eq(((eb - emin) as nat), 26);
        assert((ma as u64) * pow2((ea - emin) as nat) <= 0x100_0000u64 * 0x400_0000u64)
            by (nonlinear_arith)
            requires
                (ma as u64) <= 0x100_0000,
                pow2((ea - emin) as nat) <= 0x400_0000,
        ;
        assert((mb as u64) * pow2((eb - emin) as nat) <= 0x100_0000u64 * 0x400_0000u64)
            by (nonlinear_arith)
            requires
                (mb as u64) <= 0x100_0000,
                pow2((eb - emin) as nat) <= 0x400_0000,
        ;
    }
    let ta: u64 = (ma as u64) * pow2_u64((ea - emin) as u64);
    let tb: u64 = (mb as u64) * pow2_u64((eb - emin) as u64);
    let sa: i64 = if na {
        -(ta as i64)
    } else {
        ta as i64
    };
    let sb: i64 = if nb {
        -(tb as i64)
    } else {
        tb as i64
    };
    let sum: i64 = sa + sb;
    if sum == 0 {
        return 0;
    }
    proof {
        pow2_facts();
        lemma_pow2_strictly_increases(51, 54);
        assert(pow2(51) == 0x8_0000_0000_0000) by {
            vstd::arithmetic::power2::lemma2_to64_rest();
        }
    }
    if sum < 0 {
        round_pack32_exec(true, (-sum) as u64, emin)
    } else {
        round_pack32_exec(false, sum as u64, emin)
    }
}


/// The reciprocal of a small count, as a single-precision pattern, rounded
/// to nearest with ties to even: the per-note amplitude divisor `1 / n`.
/// A count of zero gives positive infinity, as dividing one by zero would.
pub open spec fn spec_amp_for_count(n: u64) -> u32 {
    if n == 0 {
        F32_INF_BITS
    } else {
        let l = (bit_len(n as nat) - 1) as nat;
        let num = pow2(l + 24);
        let q0 = num / (n as nat);
        let r = num % (n as nat);
        if r == 0 {
            round_pack32(false, q0, -(l as int) - 24)
        } else {
            let q1 = if 2 * r > n || (2 * r == n && q0 % 2 == 1) {
                (q0 + 1) as nat
            } else {
                q0
            };
            if q1 == pow2(24) {
                pack32(false, pow2(23), -(l as int) - 23)
            } else {
                pack32(false, q1, -(l as int) - 24)
            }
        }
    }
}

/// Computes `spec_amp_for_count` as executable code.
pub fn amp_for_count(n: u64) -> (r: u32)
    ensures
        r == spec_amp_for_count(n),
{
    if n == 0 {
        return F32_INF_BITS;
    }
    proof {
        pow2_facts();
        vstd::arithmetic::power2::lemma2_to64();
        vstd::arithmetic::power2::lemma2_to64_rest();
        lemma_bit_len_bounds(n as nat);
        lemma_bit_len_upper(n as nat, 64);
    }
    let bl: u64 = bit_len_exec(n);
    let l: u64 = bl - 1;
    let num: u128 = pow2_u128(l + 24);
    proof {
        lemma_pow2_adds(l as nat, 24);
        lemma_pow2_adds((l + 1) as nat, 23);
        lemma_pow2_unfold((l + 1) as nat);
        // q0 is at least 2^23: num == 2^23 * 2^(l+1) and n < 2^(l+1).
        assert(pow2((l + 24) as nat) >= 0x80_0000 * (n as nat + 1)) by (nonlinear_arith)
            requires
                pow2((l + 24) as nat) == 0x80_0000 * pow2((l + 1) as nat),
                (n as nat) < pow2((l + 1) as nat),
        ;
        lemma_div_ge_helper(num as nat, 0x80_0000, n as nat);
        // q0 is at most 2^24: num == 2^24 * 2^l and n >= 2^l.
        assert(pow2((l + 24) as nat) <= 0x100_0000 * (n as nat)) by (nonlinear_arith)
            requires
                pow2((l + 24) as nat) == 0x100_0000 * pow2(l as nat),
                (n as nat) >= pow2(l as nat),
        ;
        lemma_div_le_helper(num as nat, 0x100_0000, n as nat);
        // Unless n is exactly 2^l, in which case the quotient is exact, the
        // quotient stays below 2^24; rounding up can still reach 2^24, and
        // that carry is renormalized below.
        if (n as nat) != pow2(l as nat) {
            assert((num as nat) < 0x100_0000 * (n as nat)) by (nonlinear_arith)
                requires
                    num == pow2((l + 24) as nat),
                    pow2((l + 24) as nat) == 0x100_0000 * pow2(l as nat),
                    (n as nat) >= pow2(l as nat) + 1,
            ;
            lemma_div_lt_helper(num as nat, 0x100_0000, n as nat);
        } else {
            vstd::arithmetic::div_mod::lemma_mod_multiples_basic(0x100_0000, n as int);
            assert(num as int == 0x100_0000 * (n as int)) by (nonlinear_arith)
                requires
                    pow2((l + 24) as nat) == 0x100_0000 * pow2(l as nat),
                    (n as nat) == pow2(l as nat),
                    num == pow2((l + 24) as nat),
            ;
        }
    }
    let q0: u128 = num / (n as u128);
    let r: u128 = num % (n as u128);
    if r == 0 {
        proof {
            lemma_pow2_strictly_increases(24, 54);
        }
        round_pack32_exec(false, q0 as u64, -(l as i64) - 24)
    } else {
        let q1: u128 = if 2 * r > n as u128 || (2 * r == n as u128 && q0 % 2 == 1) {
            q0 + 1
        } else {
            q0
        };
        if q1 == 0x100_0000 {
            pack32_exec(false, 0x80_0000, -(l as i64) - 23)
        } else {
            pack32_exec(false, q1 as u64, -(l as i64) - 24)
        }
    }
}

proof fn lemma_div_ge_helper(num: nat, q: nat, n: nat)
    requires
        n >= 1,
        num >= q * n,
    ensures
        num / n >= q,
{
    if num / n < q {
        vstd::arithmetic::div_mod::lemma_fundamental_div_mod(num as int, n as int);
        assert(num <= (num / n) * n + n - 1 < q * n) by (nonlinear_arith)
            requires
                num == n * (num / n) + num % n,
                num % n < n,
                num / n < q,
                n >= 1,
        ;
    }
}

proof fn lemma_div_lt_helper(num: nat, q: nat, n: nat)
    requires
        n >= 1,
        num < q * n,
    ensures
        num / n < q,
{
    vstd::arithmetic::div_mod::lemma_fundamental_div_mod(num as int, n as int);
    if num / n >= q {
        assert(num >= q * n) by (nonlinear_arith)
            requires
                num == n * (num / n) + num % n,
                num % n >= 0,
                num / n >= q,
                n >= 1,
        ;
    }
}

proof fn lemma_div_le_helper(num: nat, q: nat, n: nat)
    requires
        n >= 1,
        num <= q * n,
    ensures
        num / n <= q,
{
    if num / n > q {
        vstd::arithmetic::div_mod::lemma_fundamental_div_mod(num as int, n as int);
        assert(num >= (num / n) * n >= (q + 1) * n > q * n) by (nonlinear_arith)
            requires
                num == n * (num / n) + num % n,
                num % n >= 0,
                num / n >= q + 1,
                n >= 1,
        ;
    }
}

/// The single-precision pattern nearest to the double-precision value `b`
/// (ties to even): the narrowing an `as` cast performs.  Every NaN maps to
/// the canonical quiet NaN.
pub open spec fn spec_f64_to_f32(b: u64) -> u32 {
    let neg = b & F64_SIGN_MASK != 0;
    if f64_is_nan(b) {
        F32_NAN_BITS
    } else if b & F64_EXP_MASK == F64_EXP_MASK {
        (pack_sign32(neg) + F32_INF_BITS) as u32
    } else if f64_mant(b) == 0 {
        pack_sign32(neg)
    } else {
        round_pack32(neg, f64_mant(b), f64_exp(b))
    }
}

/// Computes `spec_f64_to_f32` as executable code.
pub fn f64_to_f32(b: u64) -> (r: u32)
    ensures
        r == spec_f64_to_f32(b),
{
    let neg: bool = b & F64_SIGN_MASK != 0;
    let sign_val: u32 = if neg {
        0x8000_0000
    } else {
        0
    };
    if crate::fbits::is_nan_bits(b) {
        return F32_NAN_BITS;
    }
    if b & F64_EXP_MASK == F64_EXP_MASK {
        return sign_val + F32_INF_BITS;
    }
    let (m, e) = f64_unpack(b);
    if m == 0 {
        return sign_val;
    }
    proof {
        pow2_facts();
        lemma_pow2_strictly_increases(53, 54);
    }
    round_pack32_exec(neg, m, e)
}

/// Whether frame `k` of a square wave of the frequency `fb` (Hertz, as a
/// pattern) at `rate` frames per second lies in the first half of its
/// period.  The frame sounds at the time `k / rate`; with the period
/// `p = 1 / f` the test `(k/rate mod p) <= p/2` scales by `f * rate` to
/// `frac(k * f / rate) <= 1/2`, and with `f = m * 2^e` that is the exact
/// integer comparison below.
pub open spec fn spec_square_phase_hi(k: nat, fb: u64, rate: u32) -> bool {
    let m = f64_mant(fb);
    let e = f64_exp(fb);
    let num: nat = if e >= 0 {
        (k * m * pow2(e as nat)) as nat
    } else {
        (k * m) as nat
    };
    let den: nat = if e >= 0 {
        rate as nat
    } else {
        (rate * pow2((-e) as nat)) as nat
    };
    2 * (num % den) <= den
}

/// Decides `spec_square_phase_hi` as executable code.
pub fn square_phase_hi(k: usize, fb: u64, rate: u32) -> (r: bool)
    requires
        crate::fbits::f64_is_valid_time_frequency(fb),
        rate >= 1,
    ensures
        r == spec_square_phase_hi(k as nat, fb, rate),
{
    proof {
        pow2_facts();
        assert(fb & 0x7FF0_0000_0000_0000 != 0 ==> (fb >> 52) & 0x7FF != 0) by (bit_vector);
    }
    let (m, e) = f64_unpack(fb);
    proof {
        assert((k as u128) * (m as u128) < 0x20_0000_0000_0000_0000_0000_0000_0000u128)
            by (nonlinear_arith)
            requires
                (k as u128) < 0x1_0000_0000_0000_0000,
                (m as u128) < 0x20_0000_0000_0000,
        ;
        lemma_pow2_adds(64, 53);
        assert(pow2(117) == 0x20_0000_0000_0000_0000_0000_0000_0000) by (nonlinear_arith)
            requires
                pow2(117) == pow2(64) * pow2(53),
                pow2(64) == 0x1_0000_0000_0000_0000,
                pow2(53) == 0x20_0000_0000_0000,
        ;
    }
    let km: u128 = (k as u128) * (m as u128);
    if e >= 0 {
        let den: u128 = rate as u128;
        let mut r0: u128 = km % den;
        proof {
            assert((km as nat) * pow2(0) == km as nat);
        }
        let mut i: i64 = 0;
        while i < e
            invariant
                0 <= i <= e,
                den == rate as u128,
                rate >= 1,
                km == (k as nat) * f64_mant(fb),
                r0 < den,
                r0 == ((km as nat) * pow2(i as nat)) % (den as nat),
            decreases e - i,
        {
            proof {
                lemma_mod_mul_step(km as nat, pow2(i as nat), den as nat, r0 as nat);
                lemma_pow2_unfold((i + 1) as nat);
            }
            r0 = (r0 * 2) % den;
            i = i + 1;
        }
        2 * r0 <= den
    } else {
        let s: u64 = (-e) as u64;
        if s >= 118 {
            proof {
                lemma_pow2_unfold(118);
                lemma_pow2_strictly_increases_or_eq(118, s as nat);
                lemma_pow2_pos(s as nat);
                assert((rate as nat) * pow2(s as nat) >= 1 * pow2(s as nat)) by (nonlinear_arith)
                    requires
                        rate >= 1,
                        pow2(s as nat) > 0,
                ;
                assert(2 * (km as nat) < pow2(118));
                lemma_small_mod(km as nat, ((rate as nat) * pow2(s as nat)) as nat);
            }
            true
        } else {
            let d2: u128 = pow2_u128(s);
            let lo: u128 = km % d2;
            let hi: u128 = km / d2;
            let a: u128 = hi % (rate as u128);
            proof {
                lemma_pow2_pos(s as nat);
                lemma_mod_split(km as nat, rate as nat, pow2(s as nat));
            }
            if 2 * a + 1 < rate as u128 {
                proof {
                    lemma_phase_case_true(a as nat, lo as nat, rate as nat, pow2(s as nat));
                }
                true
            } else if 2 * a + 1 == rate as u128 {
                let half: u128 = pow2_u128(s - 1);
                proof {
                    lemma_pow2_unfold(s as nat);
                    lemma_phase_case_half(a as nat, lo as nat, rate as nat, pow2(s as nat));
                }
                lo <= half
            } else if 2 * a == rate as u128 {
                proof {
                    lemma_phase_case_zero(a as nat, lo as nat, rate as nat, pow2(s as nat));
                }
                lo == 0
            } else {
                proof {
                    lemma_phase_case_false(a as nat, lo as nat, rate as nat, pow2(s as nat));
                }
                false
            }
        }
    }
}

/// One doubling step under a modulus.
proof fn lemma_mod_mul_step(x: nat, p: nat, d: nat, r0: nat)
    requires
        d >= 1,
        r0 == (x * p) % d,
    ensures
        (r0 * 2) % d == (x * (p * 2)) % d,
{
    lemma_mul_mod_noop_general(((x * p)) as int, 2, d as int);
    assert(x * p * 2 == x * (p * 2)) by (nonlinear_arith);
}

/// Splitting a remainder by a power of two times another modulus:
/// `x mod (R * D) == (x/D mod R) * D + x mod D`.
proof fn lemma_mod_split(x: nat, r_m: nat, d: nat)
    requires
        r_m >= 1,
        d >= 1,
    ensures
        x % (r_m * d) == ((x / d) % r_m) * d + x % d,
{
    let hi = x / d;
    let lo = x % d;
    let q = hi / r_m;
    let a = hi % r_m;
    lemma_fundamental_div_mod(x as int, d as int);
    lemma_fundamental_div_mod(hi as int, r_m as int);
    assert(x == q * (r_m * d) + (a * d + lo)) by (nonlinear_arith)
        requires
            x == d * hi + lo,
            hi == r_m * q + a,
    ;
    assert(a * d + lo < r_m * d) by (nonlinear_arith)
        requires
            a < r_m,
            lo < d,
            d >= 1,
    ;
    vstd::arithmetic::div_mod::lemma_fundamental_div_mod_converse(
        x as int,
        (r_m * d) as int,
        q as int,
        (a * d + lo) as int,
    );
}

proof fn lemma_phase_case_true(a: nat, lo: nat, r_m: nat, d: nat)
    requires
        d >= 1,
        lo < d,
        2 * a + 1 < r_m,
    ensures
        2 * (a * d + lo) <= r_m * d,
{
    assert(2 * (a * d + lo) <= r_m * d) by (nonlinear_arith)
        requires
            d >= 1 && lo < d && 2 * a + 1 < r_m,
    ;
}

proof fn lemma_phase_case_half(a: nat, lo: nat, r_m: nat, d: nat)
    requires
        d >= 2,
        d % 2 == 0,
        lo < d,
        2 * a + 1 == r_m,
    ensures
        (2 * (a * d + lo) <= r_m * d) == (lo <= d / 2),
{
    assert((2 * (a * d + lo) <= r_m * d) == (2 * lo <= d)) by (nonlinear_arith)
        requires
            d >= 1 && 2 * a + 1 == r_m,
    ;
}

proof fn lemma_phase_case_zero(a: nat, lo: nat, r_m: nat, d: nat)
    requires
        d >= 1,
        lo < d,
        2 * a == r_m,
    ensures
        (2 * (a * d + lo) <= r_m * d) == (lo == 0),
{
    assert((2 * (a * d + lo) <= r_m * d) == (2 * lo <= 0)) by (nonlinear_arith)
        requires
            d >= 1 && 2 * a == r_m,
    ;
}

proof fn lemma_phase_case_false(a: nat, lo: nat, r_m: nat, d: nat)
    requires
        d >= 1,
        lo < d,
        2 * a > r_m,
    ensures
        !(2 * (a * d + lo) <= r_m * d),
{
    assert(2 * (a * d + lo) > r_m * d) by (nonlinear_arith)
        requires
            d >= 1 && 2 * a > r_m,
    ;
}

} // verus!
