//! Exact conversion from the bit pattern of a binary floating-point number of
//! seconds to a `Duration`, rounding to the nearest nanosecond, ties to even.
use vstd::arithmetic::div_mod::lemma_fundamental_div_mod_converse;
use vstd::arithmetic::power2::{
    lemma2_to64,
    lemma2_to64_rest,
    lemma_pow2_adds,
    lemma_pow2_pos,
    lemma_pow2_strictly_increases,
    lemma_pow2_unfold,
    pow2,
};
use vstd::bits::{lemma_u128_shr_is_div, lemma_u64_shl_is_mul};
use vstd::prelude::*;

use crate::duration::{lemma_from_total, Duration, NANOS_PER_SEC};

verus! {

/// Why a number of seconds could not become a `Duration`.
#[derive(Debug, Clone, Copy, PartialEq, Eq, Structural)]
pub enum FromFloatSecsErrorKind {
    /// The sign bit was set.
    Negative,
    /// The value was not a number, infinite, or `2^64` seconds or more.
    OverflowOrNan,
}

/// The error of a conversion from floating-point seconds.
#[derive(Debug, Clone, Copy, PartialEq, Eq, Structural)]
pub struct FromFloatSecsError {
    kind: FromFloatSecsErrorKind,
}

impl FromFloatSecsError {
    /// What went wrong.
    pub closed spec fn spec_kind(self) -> FromFloatSecsErrorKind {
        self.kind
    }

    /// A sentence that says what went wrong.
    pub fn description(&self) -> (r: &'static str)
        ensures
            r@ == (match self.spec_kind() {
                FromFloatSecsErrorKind::Negative =>
                    "can not convert float seconds to Duration: value is negative"@,
                FromFloatSecsErrorKind::OverflowOrNan =>
                    "can not convert float seconds to Duration: value is either too big or NaN"@,
            }),
    {
        match self.kind {
            FromFloatSecsErrorKind::Negative => {
                "can not convert float seconds to Duration: value is negative"
            },
            FromFloatSecsErrorKind::OverflowOrNan => {
                "can not convert float seconds to Duration: value is either too big or NaN"
            },
        }
    }
}

/// Fraction bits of a binary64 number.
const F64_MANT_MASK: u64 = 0xF_FFFF_FFFF_FFFF;

/// Exponent bits of a binary64 number, once shifted down.
const F64_EXP_MASK: u64 = 0x7FF;

/// Fraction bits of a binary32 number.
const F32_MANT_MASK: u32 = 0x7F_FFFF;

/// Exponent bits of a binary32 number, once shifted down.
const F32_EXP_MASK: u32 = 0xFF;

/// Whether the sign bit of a binary64 pattern is set.
pub open spec fn f64_sign_set(bits: u64) -> bool {
    bits >= 0x8000_0000_0000_0000
}

/// The biased exponent field of a binary64 pattern.
pub open spec fn f64_biased_exp(bits: u64) -> nat {
    (bits as nat / 0x10_0000_0000_0000) % 0x800
}

/// The fraction field of a binary64 pattern.
pub open spec fn f64_fraction(bits: u64) -> nat {
    bits as nat % 0x10_0000_0000_0000
}

/// Whether the sign bit of a binary32 pattern is set.
pub open spec fn f32_sign_set(bits: u32) -> bool {
    bits >= 0x8000_0000
}

/// The biased exponent field of a binary32 pattern.
pub open spec fn f32_biased_exp(bits: u32) -> nat {
    (bits as nat / 0x80_0000) % 0x100
}

/// The fraction field of a binary32 pattern.
pub open spec fn f32_fraction(bits: u32) -> nat {
    bits as nat % 0x80_0000
}

/// The significand of a number with the given biased exponent and a fraction
/// of `mant_bits` bits: the leading one is implied unless the number is
/// subnormal.
pub open spec fn significand(biased: nat, frac: nat, mant_bits: nat) -> nat {
    if biased == 0 {
        frac
    } else {
        frac + pow2(mant_bits)
    }
}

/// The power of two that scales the significand to the number's value.
pub open spec fn scale_exp(biased: nat, bias: nat, mant_bits: nat) -> int {
    (if biased == 0 {
        1
    } else {
        biased
    }) - bias - mant_bits
}

/// The span nearest to the seconds held in a binary64 pattern whose sign bit is
/// clear and whose value is below `2^64`.
pub open spec fn nearest_of_f64(bits: u64) -> Duration {
    Duration::from_total(
        nearest_nanos(
            significand(f64_biased_exp(bits), f64_fraction(bits), 52),
            scale_exp(f64_biased_exp(bits), 1023, 52),
        ),
    )
}

/// The span nearest to the seconds held in a binary32 pattern whose sign bit is
/// clear and whose value is below `2^64`.
pub open spec fn nearest_of_f32(bits: u32) -> Duration {
    Duration::from_total(
        nearest_nanos(
            significand(f32_biased_exp(bits), f32_fraction(bits), 23),
            scale_exp(f32_biased_exp(bits), 127, 23),
        ),
    )
}

/// `num / den` rounded to the nearest integer, ties to the even one.
pub open spec fn round_half_even(num: nat, den: nat) -> nat {
    let q = num / den;
    let r = num % den;
    if 2 * r > den || (2 * r == den && q % 2 == 1) {
        q + 1
    } else {
        q
    }
}

/// The nanoseconds nearest to `sig * 2^exp` seconds, ties to the even count.
pub open spec fn nearest_nanos(sig: nat, exp: int) -> nat {
    if exp >= 0 {
        sig * 1_000_000_000 * pow2(exp as nat)
    } else {
        round_half_even(sig * 1_000_000_000, pow2((-exp) as nat))
    }
}

/// A quotient below `n` rounds to at most `n`.
proof fn lemma_round_bound(num: nat, den: nat, n: nat)
    requires
        den > 0,
        num < n * den,
    ensures
        round_half_even(num, den) <= n,
{
    assert(num / den < n) by (nonlinear_arith)
        requires
            den > 0,
            num < n * den,
    ;
}

/// Powers of two grow with the exponent.
proof fn lemma_pow2_le(i: nat, j: nat)
    requires
        i <= j,
    ensures
        0 < pow2(i) <= pow2(j),
{
    lemma_pow2_pos(i);
    if i < j {
        lemma_pow2_strictly_increases(i, j);
    }
}

/// A product of a value below `2^i` and one at most `2^j` is below `2^(i+j)`.
proof fn lemma_mul_below_pow2(a: nat, i: nat, b: nat, j: nat)
    requires
        a < pow2(i),
        b <= pow2(j),
    ensures
        a * b < pow2(i + j),
{
    lemma_pow2_adds(i, j);
    lemma_pow2_pos(j);
    assert(a * b < pow2(i) * pow2(j)) by (nonlinear_arith)
        requires
            a < pow2(i),
            b <= pow2(j),
            pow2(j) > 0,
    ;
}

/// The powers of two that bound the intermediate products.
proof fn lemma_pow2_values()
    ensures
        pow2(30) == 0x4000_0000,
        pow2(64) == 0x1_0000_0000_0000_0000,
        pow2(96) == 0x1_0000_0000_0000_0000_0000_0000,
{
    lemma2_to64();
    lemma2_to64_rest();
    lemma_pow2_adds(64, 32);
}

/// Scaling numerator and denominator alike leaves the rounded quotient as it is.
proof fn lemma_round_scale(a: nat, b: nat, c: nat)
    requires
        b > 0,
        c > 0,
    ensures
        round_half_even(a * c, b * c) == round_half_even(a, b),
{
    let q = a / b;
    let r = a % b;
    assert(a == q * b + r && 0 <= r < b) by (nonlinear_arith)
        requires
            b > 0,
            q == a / b,
            r == a % b,
    ;
    assert(a * c == q * (b * c) + r * c && 0 <= r * c < b * c) by (nonlinear_arith)
        requires
            a == q * b + r,
            0 <= r < b,
            c > 0,
    ;
    lemma_fundamental_div_mod_converse((a * c) as int, (b * c) as int, q as int, (r * c) as int);
    assert(2 * (r * c) > b * c <==> 2 * r > b) by (nonlinear_arith)
        requires
            c > 0,
    ;
    assert(2 * (r * c) == b * c <==> 2 * r == b) by (nonlinear_arith)
        requires
            c > 0,
    ;
}

/// Adding an even multiple of the denominator adds that multiple to the
/// rounded quotient.
proof fn lemma_round_shift(a: nat, b: nat, m: nat)
    requires
        b > 0,
        m % 2 == 0,
    ensures
        round_half_even(a + m * b, b) == m + round_half_even(a, b),
{
    let q = a / b;
    let r = a % b;
    assert(a == q * b + r && 0 <= r < b) by (nonlinear_arith)
        requires
            b > 0,
            q == a / b,
            r == a % b,
    ;
    assert(a + m * b == (q + m) * b + r) by (nonlinear_arith)
        requires
            a == q * b + r,
    ;
    lemma_fundamental_div_mod_converse((a + m * b) as int, b as int, (q + m) as int, r as int);
}

/// A value below half the denominator rounds to zero.
proof fn lemma_round_small(a: nat, b: nat)
    requires
        2 * a < b,
    ensures
        round_half_even(a, b) == 0,
{
    lemma_fundamental_div_mod_converse(a as int, b as int, 0, a as int);
}

/// Shifting a 128-bit value left multiplies it by a power of two, wherever
/// the product fits.
proof fn lemma_u128_shl_is_mul(x: u128, s: u128)
    requires
        s < 128,
        x * pow2(s as nat) <= u128::MAX,
    ensures
        x << s == x * pow2(s as nat),
    decreases s,
{
    if s == 0 {
        assert(x << 0u128 == x) by (bit_vector);
        lemma2_to64();
    } else {
        let p = pow2((s - 1) as nat);
        lemma_pow2_unfold(s as nat);
        lemma_pow2_pos((s - 1) as nat);
        assert(x * pow2(s as nat) == 2 * (x * p)) by (nonlinear_arith)
            requires
                pow2(s as nat) == 2 * p,
        ;
        assert(x * p <= x * pow2(s as nat)) by (nonlinear_arith)
            requires
                pow2(s as nat) == 2 * p,
        ;
        lemma_u128_shl_is_mul(x, (s - 1) as u128);
        let y = x << ((s - 1) as u128);
        assert(x << s == y << 1u128) by (bit_vector)
            requires
                0 < s < 128,
                y == x << ((s - 1) as u128),
        ;
        assert(y << 1u128 == y * 2) by (bit_vector)
            requires
                y * 2 <= u128::MAX,
        ;
    }
}

/// A power of two with an exponent below 128 fits in 128 bits.
proof fn lemma_pow2_below_u128(k: nat)
    requires
        k < 128,
    ensures
        0 < pow2(k) <= 0x8000_0000_0000_0000_0000_0000_0000_0000,
{
    lemma2_to64();
    lemma2_to64_rest();
    lemma_pow2_adds(64, 63);
    lemma_pow2_pos(k);
    if k < 127 {
        lemma_pow2_strictly_increases(k, 127);
    }
}

/// The bits of `x` below position `k` are `x` modulo `2^k`; those above are
/// `x / 2^k`.
proof fn lemma_u128_low_bits(x: u128, k: u128)
    requires
        k < 128,
    ensures
        1u128 << k == pow2(k as nat),
        0 < pow2(k as nat) <= 0x8000_0000_0000_0000_0000_0000_0000_0000,
        x >> k == x as nat / pow2(k as nat),
        x & (((1u128 << k) - 1) as u128) == x as nat % pow2(k as nat),
{
    let den = pow2(k as nat);
    lemma_pow2_below_u128(k as nat);
    lemma_u128_shl_is_mul(1, k);
    lemma_u128_shr_is_div(x, k);
    let kept = x >> k;
    assert(kept * den <= x) by (nonlinear_arith)
        requires
            kept == x as nat / den,
            den > 0,
    ;
    lemma_u128_shl_is_mul(kept, k);
    let mask = ((1u128 << k) - 1) as u128;
    let rem = x & mask;
    let high = kept << k;
    assert(rem + high == x && rem <= mask) by (bit_vector)
        requires
            k < 128,
            kept == x >> k,
            high == kept << k,
            mask == ((1u128 << k) - 1) as u128,
            rem == x & mask,
    ;
    lemma_fundamental_div_mod_converse(x as int, den as int, kept as int, rem as int);
}

/// `tmp / 2^k` rounded to the nearest integer, ties to even, read off the
/// bits of `tmp`: the bits kept, the highest bit dropped, and whether the
/// dropped bits are exactly one half.
fn round_shr(tmp: u128, k: u128) -> (r: u128)
    requires
        1 <= k < 128,
    ensures
        r == round_half_even(tmp as nat, pow2(k as nat)),
{
    proof {
        lemma_u128_low_bits(tmp, k);
        lemma_u128_low_bits(tmp, (k - 1) as u128);
    }
    let kept = tmp >> k;
    let rem_mask: u128 = (1u128 << k) - 1;
    let rem_msb_mask: u128 = 1u128 << (k - 1);
    let rem = tmp & rem_mask;
    let is_tie = rem == rem_msb_mask;
    let is_even = (kept & 1) == 0;
    let rem_msb = tmp & rem_msb_mask == 0;
    proof {
        let den = pow2(k as nat);
        lemma_pow2_unfold(k as nat);
        assert(kept < u128::MAX) by (nonlinear_arith)
            requires
                kept == tmp as nat / den,
                den >= 2,
                tmp <= u128::MAX,
        ;
        assert(rem_msb <==> rem < rem_msb_mask) by (bit_vector)
            requires
                1 <= k < 128,
                rem_mask == (1u128 << k) - 1,
                rem_msb_mask == 1u128 << ((k - 1) as u128),
                rem == tmp & rem_mask,
                rem_msb == (tmp & rem_msb_mask == 0),
        ;
        assert(is_even <==> kept % 2 == 0) by (bit_vector)
            requires
                is_even == ((kept & 1) == 0),
        ;
    }
    let add_ns = !(rem_msb || (is_even && is_tie));
    if add_ns {
        kept + 1
    } else {
        kept
    }
}

/// The span nearest to `mant * 2^(exp - mant_bits)` seconds, or `None` where
/// that is `2^64` seconds or more. The mantissa has at most `mant_bits + 1`
/// bits; below `2^-31` seconds nothing rounds up to a nanosecond.
fn from_mantissa(mant: u64, exp: i16, mant_bits: u32) -> (r: Option<Duration>)
    requires
        1 <= mant_bits <= 52,
        mant < pow2(mant_bits as nat + 1),
    ensures
        exp >= 64 ==> r is None,
        exp < 64 ==> r == Some(Duration::from_total(nearest_nanos(mant as nat, exp - mant_bits))),
        exp < -31 ==> r == Some(Duration::from_total(0)),
{
    proof {
        lemma_pow2_values();
        lemma_from_total(0);
    }
    let ghost mb = mant_bits as nat;
    if exp < -31 {
        proof {
            let e = (mant_bits - exp) as nat;
            lemma_pow2_le(mb + 32, e);
            lemma2_to64();
            lemma_mul_below_pow2(mant as nat, mb + 1, 2 * 1_000_000_000, 31);
            lemma_round_small(mant as nat * 1_000_000_000, pow2(e));
        }
        Some(Duration::from_parts(0, 0))
    } else if exp < 0 {
        let shift: u128 = (96 - mant_bits as i16 + exp) as u128;
        let ghost e = (mant_bits - exp) as nat;
        proof {
            lemma_pow2_le(shift as nat, (95 - mb) as nat);
            lemma_mul_below_pow2(mant as nat, mb + 1, pow2(shift as nat), (95 - mb) as nat);
            lemma_u128_shl_is_mul(mant as u128, shift);
        }
        let t = (mant as u128) << shift;
        proof {
            assert(1_000_000_000 * t < 0x4000_0000 * 0x1_0000_0000_0000_0000_0000_0000) by (nonlinear_arith)
                requires
                    t < 0x1_0000_0000_0000_0000_0000_0000,
            ;
        }
        let nanos_tmp = (NANOS_PER_SEC as u128) * t;
        let nanos = round_shr(nanos_tmp, 96);
        proof {
            lemma_pow2_adds(e, shift as nat);
            lemma_pow2_pos(e);
            lemma_pow2_pos(shift as nat);
            assert(nanos_tmp == (mant as nat * 1_000_000_000) * pow2(shift as nat)) by (nonlinear_arith)
                requires
                    nanos_tmp == 1_000_000_000 * t,
                    t == mant * pow2(shift as nat),
            ;
            lemma_round_scale(mant as nat * 1_000_000_000, pow2(e), pow2(shift as nat));
            lemma_round_bound(nanos_tmp as nat, pow2(96), 1_000_000_000);
        }
        if nanos == NANOS_PER_SEC as u128 {
            Some(Duration::from_parts(1, 0))
        } else {
            Some(Duration::from_parts(0, nanos as u32))
        }
    } else if exp < mant_bits as i16 {
        let k: u128 = (mant_bits as i16 - exp) as u128;
        let m = mant as u128;
        proof {
            lemma_u128_low_bits(m, k);
        }
        let secs = (m >> k) as u64;
        let ghost low = m as nat % pow2(k as nat);
        proof {
            lemma_pow2_adds(k as nat, exp as nat);
            lemma_pow2_pos(k as nat);
            lemma_pow2_pos(exp as nat);
            lemma_pow2_le(exp as nat, 52);
            lemma_pow2_le(mb + 1, 53);
            lemma_pow2_le(mb, 52);
            lemma_pow2_le(52, 64);
            lemma_pow2_le(53, 64);
            lemma_mul_below_pow2(m as nat, 53, pow2(exp as nat), 52);
            lemma_pow2_below_u128(105);
            lemma_u128_shl_is_mul(m, exp as u128);
            lemma_u128_low_bits(m << (exp as u128), mant_bits as u128);
            assert(m == secs * pow2(k as nat) + low && low < pow2(k as nat)) by (nonlinear_arith)
                requires
                    pow2(k as nat) > 0,
                    secs == m as nat / pow2(k as nat),
                    low == m as nat % pow2(k as nat),
            ;
            assert(m * pow2(exp as nat) == secs * pow2(mb) + low * pow2(exp as nat) && low * pow2(
                exp as nat,
            ) < pow2(mb)) by (nonlinear_arith)
                requires
                    m == secs * pow2(k as nat) + low,
                    low < pow2(k as nat),
                    pow2(mb) == pow2(k as nat) * pow2(exp as nat),
                    pow2(exp as nat) > 0,
            ;
            lemma_fundamental_div_mod_converse(
                (m * pow2(exp as nat)) as int,
                pow2(mb) as int,
                secs as int,
                (low * pow2(exp as nat)) as int,
            );
        }
        let mask: u128 = (1u128 << mant_bits as u128) - 1;
        let t = (m << exp as u128) & mask;
        proof {
            assert(1_000_000_000 * t < 0x4000_0000 * 0x1_0000_0000_0000_0000) by (nonlinear_arith)
                requires
                    t < 0x1_0000_0000_0000_0000,
            ;
        }
        let nanos_tmp = (NANOS_PER_SEC as u128) * t;
        let nanos = round_shr(nanos_tmp, mant_bits as u128);
        proof {
            assert(nanos_tmp == (low * 1_000_000_000) * pow2(exp as nat)) by (nonlinear_arith)
                requires
                    nanos_tmp == 1_000_000_000 * t,
                    t == low * pow2(exp as nat),
            ;
            lemma_round_scale(low * 1_000_000_000, pow2(k as nat), pow2(exp as nat));
            assert(mant as nat * 1_000_000_000 == low * 1_000_000_000 + (secs * 1_000_000_000) * pow2(
                k as nat,
            ) && (secs * 1_000_000_000) % 2 == 0 && low * 1_000_000_000 < 1_000_000_000 * pow2(
                k as nat,
            )) by (nonlinear_arith)
                requires
                    mant == secs * pow2(k as nat) + low,
                    low < pow2(k as nat),
            ;
            lemma_round_shift(low * 1_000_000_000, pow2(k as nat), secs as nat * 1_000_000_000);
            lemma_round_bound(low * 1_000_000_000, pow2(k as nat), 1_000_000_000);
        }
        if nanos == NANOS_PER_SEC as u128 {
            Some(Duration::from_parts(secs + 1, 0))
        } else {
            Some(Duration::from_parts(secs, nanos as u32))
        }
    } else if exp < 64 {
        let shift: u64 = (exp - mant_bits as i16) as u64;
        proof {
            lemma_pow2_le(shift as nat, (63 - mb) as nat);
            lemma_mul_below_pow2(mant as nat, mb + 1, pow2(shift as nat), (63 - mb) as nat);
            lemma_u64_shl_is_mul(mant, shift);
        }
        let secs = mant << shift;
        proof {
            assert(mant as nat * 1_000_000_000 * pow2(shift as nat) == secs * 1_000_000_000) by (nonlinear_arith)
                requires
                    secs == mant * pow2(shift as nat),
            ;
        }
        Some(Duration::from_parts(secs, 0))
    } else {
        None
    }
}

/// A subnormal number of seconds is far below half a nanosecond.
proof fn lemma_subnormal_is_zero(frac: nat, mant_bits: nat, exp: int)
    requires
        frac < pow2(mant_bits),
        mant_bits <= 52,
        exp <= -83,
    ensures
        nearest_nanos(frac, exp) == 0,
{
    lemma2_to64();
    lemma_pow2_le(mant_bits, 52);
    lemma_mul_below_pow2(frac, 52, 2 * 1_000_000_000, 31);
    lemma_pow2_le(83, (-exp) as nat);
    lemma_round_small(frac * 1_000_000_000, pow2((-exp) as nat));
}

impl Duration {
    /// Converts the seconds held in the bit pattern of an `f64` into the
    /// nearest span, rounding ties to the even nanosecond count. A set sign bit
    /// (negative zero too) is `Negative`; not-a-number, infinity and values of
    /// `2^64` seconds or more are `OverflowOrNan`.
    pub fn try_from_secs_f64_bits(bits: u64) -> (r: Result<Duration, FromFloatSecsError>)
        ensures
            f64_sign_set(bits) ==> r is Err && r->Err_0.spec_kind()
                == FromFloatSecsErrorKind::Negative,
            !f64_sign_set(bits) && f64_biased_exp(bits) >= 1087 ==> r is Err && r->Err_0.spec_kind()
                == FromFloatSecsErrorKind::OverflowOrNan,
            !f64_sign_set(bits) && f64_biased_exp(bits) < 1087 ==> r == Ok::<
                Duration,
                FromFloatSecsError,
            >(nearest_of_f64(bits)),
    {
        if bits >> 63 != 0 {
            proof {
                assert(bits >> 63 != 0 ==> bits >= 0x8000_0000_0000_0000) by (bit_vector);
            }
            return Err(FromFloatSecsError { kind: FromFloatSecsErrorKind::Negative });
        }
        let frac = bits & F64_MANT_MASK;
        let biased = (bits >> 52) & F64_EXP_MASK;
        let mant = frac | (F64_MANT_MASK + 1);
        proof {
            assert(bits >> 63 == 0 ==> bits < 0x8000_0000_0000_0000) by (bit_vector);
            assert(frac == bits % 0x10_0000_0000_0000) by (bit_vector)
                requires
                    frac == bits & 0xF_FFFF_FFFF_FFFF,
            ;
            assert(biased == (bits / 0x10_0000_0000_0000) % 0x800) by (bit_vector)
                requires
                    biased == (bits >> 52) & 0x7FF,
            ;
            assert(mant == frac + 0x10_0000_0000_0000) by (bit_vector)
                requires
                    frac == bits & 0xF_FFFF_FFFF_FFFF,
                    mant == frac | 0x10_0000_0000_0000,
            ;
            lemma2_to64_rest();
            lemma2_to64();
            lemma_pow2_unfold(53);
        }
        let exp = biased as i16 - 1023;
        proof {
            if biased == 0 {
                lemma_subnormal_is_zero(frac as nat, 52, -1074);
            }
        }
        match from_mantissa(mant, exp, 52) {
            Some(d) => Ok(d),
            None => Err(FromFloatSecsError { kind: FromFloatSecsErrorKind::OverflowOrNan }),
        }
    }

    /// Converts the seconds held in the bit pattern of an `f32` into the
    /// nearest span, rounding ties to the even nanosecond count. A set sign bit
    /// (negative zero too) is `Negative`; not-a-number, infinity and values of
    /// `2^64` seconds or more are `OverflowOrNan`.
    pub fn try_from_secs_f32_bits(bits: u32) -> (r: Result<Duration, FromFloatSecsError>)
        ensures
            f32_sign_set(bits) ==> r is Err && r->Err_0.spec_kind()
                == FromFloatSecsErrorKind::Negative,
            !f32_sign_set(bits) && f32_biased_exp(bits) >= 191 ==> r is Err && r->Err_0.spec_kind()
                == FromFloatSecsErrorKind::OverflowOrNan,
            !f32_sign_set(bits) && f32_biased_exp(bits) < 191 ==> r == Ok::<
                Duration,
                FromFloatSecsError,
            >(nearest_of_f32(bits)),
    {
        if bits >> 31 != 0 {
            proof {
                assert(bits >> 31 != 0 ==> bits >= 0x8000_0000) by (bit_vector);
            }
            return Err(FromFloatSecsError { kind: FromFloatSecsErrorKind::Negative });
        }
        let frac = bits & F32_MANT_MASK;
        let biased = (bits >> 23) & F32_EXP_MASK;
        let mant = frac | (F32_MANT_MASK + 1);
        proof {
            assert(bits >> 31 == 0 ==> bits < 0x8000_0000) by (bit_vector);
            assert(frac == bits % 0x80_0000) by (bit_vector)
                requires
                    frac == bits & 0x7F_FFFF,
            ;
            assert(biased == (bits / 0x80_0000) % 0x100) by (bit_vector)
                requires
                    biased == (bits >> 23) & 0xFF,
            ;
            assert(mant == frac + 0x80_0000) by (bit_vector)
                requires
                    frac == bits & 0x7F_FFFF,
                    mant == frac | 0x80_0000,
            ;
            lemma2_to64();
        }
        let exp = biased as i16 - 127;
        proof {
            if biased == 0 {
                lemma_subnormal_is_zero(frac as nat, 23, -149);
            }
        }
        match from_mantissa(mant as u64, exp, 23) {
            Some(d) => Ok(d),
            None => Err(FromFloatSecsError { kind: FromFloatSecsErrorKind::OverflowOrNan }),
        }
    }

    /// The span nearest to the seconds held in the bit pattern of an `f64`
    /// whose sign bit is clear and whose value is a number below `2^64`.
    pub fn from_secs_f64_bits(bits: u64) -> (r: Duration)
        requires
            !f64_sign_set(bits),
            f64_biased_exp(bits) < 1087,
        ensures
            r == nearest_of_f64(bits),
    {
        match Duration::try_from_secs_f64_bits(bits) {
            Ok(v) => v,
            Err(_) => Duration::zero(),
        }
    }

    /// The span nearest to the seconds held in the bit pattern of an `f32`
    /// whose sign bit is clear and whose value is a number below `2^64`.
    pub fn from_secs_f32_bits(bits: u32) -> (r: Duration)
        requires
            !f32_sign_set(bits),
            f32_biased_exp(bits) < 191,
        ensures
            r == nearest_of_f32(bits),
    {
        match Duration::try_from_secs_f32_bits(bits) {
            Ok(v) => v,
            Err(_) => Duration::zero(),
        }
    }
}

} // verus!
