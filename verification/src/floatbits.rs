//! Double-precision values as IEEE 754 bit patterns, with verified
//! coercions into them.
//!
//! The crate carries every numeric element as the `u64` bit pattern of a
//! double-precision value.  `val_x1074` gives a finite pattern's exact
//! mathematical value scaled by 2^1074 (the scale at which every finite
//! double is an integer), and the encoders here coerce the supported
//! integer widths and single-precision patterns into double precision:
//! exactly wherever the value is representable, to nearest (ties to even)
//! beyond 53 bits.

use vstd::prelude::*;

use vstd::arithmetic::power2::{lemma2_to64, lemma2_to64_rest, lemma_pow2_adds, lemma_pow2_pos, pow2};
use vstd::bits::{lemma_u64_low_bits_mask_is_mod, lemma_u64_shl_is_mul, lemma_u64_shr_is_div, low_bits_mask};

verus! {

/// The bit pattern with the sign bit cleared.
pub open spec fn abs_bits(b: u64) -> u64 {
    b & 0x7fff_ffff_ffff_ffff
}

/// The pattern encodes the not-a-number value.
pub open spec fn is_nan64(b: u64) -> bool {
    abs_bits(b) > 0x7ff0_0000_0000_0000
}

/// The pattern encodes a finite value (zero, subnormal or normal).
pub open spec fn is_finite64(b: u64) -> bool {
    abs_bits(b) < 0x7ff0_0000_0000_0000
}

/// The exact value of a finite pattern, scaled by 2^1074.
pub open spec fn val_x1074(b: u64) -> int {
    let e = (b >> 52) & 0x7ff;
    let f = (b & 0xf_ffff_ffff_ffff) as int;
    let mag: int = if e == 0 {
        f
    } else {
        (f + 0x10_0000_0000_0000) * pow2((e - 1) as nat)
    };
    if b >= 0x8000_0000_0000_0000 {
        -mag
    } else {
        mag
    }
}

/// Whether the pattern is the not-a-number value.
pub fn is_nan_bits(b: u64) -> (r: bool)
    ensures
        r == is_nan64(b),
{
    (b & 0x7fff_ffff_ffff_ffff) > 0x7ff0_0000_0000_0000
}

/// A positive normal pattern assembled from exponent and fraction fields
/// decomposes back into them.
proof fn lemma_assemble(e: u64, f: u64)
    requires
        1 <= e < 0x7ff,
        f < 0x10_0000_0000_0000,
    ensures
        ({
            let b = (e << 52) | f;
            &&& b < 0x8000_0000_0000_0000
            &&& (b >> 52) & 0x7ff == e
            &&& b & 0xf_ffff_ffff_ffff == f
            &&& abs_bits(b) == b
            &&& is_finite64(b)
            &&& !is_nan64(b)
            &&& val_x1074(b) == (f + 0x10_0000_0000_0000) * pow2((e - 1) as nat)
        }),
{
    assert(((e << 52) | f) < 0x8000_0000_0000_0000 && (((e << 52) | f) >> 52) & 0x7ff == e && ((e
        << 52) | f) & 0xf_ffff_ffff_ffff == f && (((e << 52) | f) & 0x7fff_ffff_ffff_ffff) == ((e
        << 52) | f) && ((e << 52) | f) < 0x7ff0_0000_0000_0000) by (bit_vector)
        requires
            1 <= e < 0x7ff,
            f < 0x10_0000_0000_0000,
    ;
}

/// Setting the sign bit of a finite positive pattern negates its value.
proof fn lemma_negate(b: u64)
    requires
        b < 0x8000_0000_0000_0000,
    ensures
        ({
            let n = b | 0x8000_0000_0000_0000;
            &&& n >= 0x8000_0000_0000_0000
            &&& abs_bits(n) == b
            &&& is_nan64(n) == is_nan64(b)
            &&& is_finite64(n) == is_finite64(b)
            &&& is_finite64(b) ==> val_x1074(n) == -val_x1074(b)
        }),
{
    assert(((b | 0x8000_0000_0000_0000) & 0x7fff_ffff_ffff_ffff) == b && (b
        & 0x7fff_ffff_ffff_ffff) == b && (b | 0x8000_0000_0000_0000) >= 0x8000_0000_0000_0000 && ((b
        | 0x8000_0000_0000_0000) >> 52) & 0x7ff == (b >> 52) & 0x7ff && ((b | 0x8000_0000_0000_0000)
        & 0xf_ffff_ffff_ffff) == (b & 0xf_ffff_ffff_ffff)) by (bit_vector)
        requires
            b < 0x8000_0000_0000_0000,
    ;
}

/// Number of low bits a magnitude loses when coerced to double precision:
/// zero below 2^53, one more for each further doubling.
pub open spec fn ulp_shift(m: nat) -> nat
    decreases m,
{
    if m < 0x20_0000_0000_0000 {
        0
    } else {
        ulp_shift(m / 2) + 1
    }
}

/// The magnitude rounded to the nearest multiple of its unit in the last
/// place, ties to the even multiple: what coercion to double precision
/// yields, as a mathematical value.
pub open spec fn rne_val(m: nat) -> int {
    let p = pow2(ulp_shift(m)) as int;
    let q = m as int / p;
    let r = m as int % p;
    if 2 * r < p {
        q * p
    } else if 2 * r > p {
        (q + 1) * p
    } else if q % 2 == 0 {
        q * p
    } else {
        (q + 1) * p
    }
}

/// Round to nearest, ties to even, of a signed integer.
pub open spec fn rne_int(v: int) -> int {
    if v < 0 {
        -rne_val((-v) as nat)
    } else {
        rne_val(v as nat)
    }
}

/// The shift the normalization loop finds is `ulp_shift`.
proof fn lemma_ulp_shift_of(m: u64, s: u64)
    requires
        1 <= s <= 12,
        m >> ((s - 1) as u64) >= 0x20_0000_0000_0000,
        m >> s < 0x20_0000_0000_0000,
    ensures
        ulp_shift(m as nat) == s,
    decreases s,
{
    assert(m >> 0u64 == m && m >> 1u64 == m / 2) by (bit_vector);
    if s == 1 {
        assert(m >= 0x20_0000_0000_0000);
        assert(m / 2 < 0x20_0000_0000_0000);
        assert(ulp_shift((m / 2) as nat) == 0);
    } else {
        let m2 = m >> 1u64;
        assert((m >> 1u64) >> ((s - 2) as u64) == m >> ((s - 1) as u64) && (m >> 1u64) >> ((s
            - 1) as u64) == m >> s && m >= m >> ((s - 1) as u64)) by (bit_vector)
            requires
                2 <= s <= 12,
        ;
        assert(m >= 0x20_0000_0000_0000);
        lemma_ulp_shift_of(m2, (s - 1) as u64);
        assert(m2 as nat == (m as nat) / 2);
    }
}

/// Encodes a non-negative integer magnitude as a positive double-precision
/// pattern: exact up to 2^53, rounded to nearest (ties to even) above, with
/// relative error at most one part in 2^53.
#[verifier::rlimit(50)]
pub fn encode_mag(m: u64) -> (b: u64)
    ensures
        b < 0x8000_0000_0000_0000,
        is_finite64(b),
        !is_nan64(b),
        m == 0 ==> b == 0,
        m <= 0x20_0000_0000_0000 ==> val_x1074(b) == m * pow2(1074),
        val_x1074(b) == rne_val(m as nat) * pow2(1074),
        val_x1074(b) >= 0,
        (val_x1074(b) - m * pow2(1074)) * pow2(53) <= m * pow2(1074),
        (m * pow2(1074) - val_x1074(b)) * pow2(53) <= m * pow2(1074),
{
    proof {
        lemma2_to64();
        lemma2_to64_rest();
    }
    if m == 0 {
        proof {
            lemma_pow2_pos(1074);
            lemma_pow2_pos(53);
            assert(0u64 & 0x7fff_ffff_ffff_ffff == 0 && (0u64 >> 52) & 0x7ff == 0 && 0u64
                & 0xf_ffff_ffff_ffff == 0) by (bit_vector);
            assert(rne_val(0) == 0);
            assert(rne_val(0) * pow2(1074) == 0) by (nonlinear_arith)
                requires
                    rne_val(0) == 0,
            ;
        }
        return 0;
    }
    if m < 0x20_0000_0000_0000 {
        // Shift the magnitude up into [2^52, 2^53) and encode it exactly.
        let mut mm: u64 = m;
        let mut u: u64 = 0;
        while mm < 0x10_0000_0000_0000
            invariant
                1 <= mm,
                mm == m * pow2(u as nat),
                mm < 0x20_0000_0000_0000,
                u <= 52,
                m >= 1,
            decreases 0x20_0000_0000_0000 - mm,
        {
            proof {
                lemma_pow2_adds(u as nat, 1);
                lemma2_to64();
                lemma2_to64_rest();
                if u >= 52 {
                    lemma_pow2_adds(52, (u - 52) as nat);
                    lemma_pow2_pos((u - 52) as nat);
                    lemma_pow2_pos(u as nat);
                    let pu = pow2(u as nat) as int;
                    let p52 = pow2(52) as int;
                    assert(p52 == 0x10_0000_0000_0000);
                    assert(pu >= p52) by (nonlinear_arith)
                        requires
                            pu == p52 * pow2((u - 52) as nat),
                            pow2((u - 52) as nat) >= 1,
                            p52 >= 0,
                    ;
                    assert(mm >= p52) by (nonlinear_arith)
                        requires
                            mm == m * pu,
                            m >= 1,
                            pu >= p52,
                            pu > 0,
                    ;
                    assert(false);
                }
            }
            mm = mm * 2;
            u = u + 1;
            proof {
                assert(mm == m * pow2(u as nat)) by (nonlinear_arith)
                    requires
                        mm == (m * pow2((u - 1) as nat)) * 2,
                        pow2(u as nat) == pow2((u - 1) as nat) * 2,
                ;
            }
        }
        let e: u64 = 1075 - u;
        let b = (e << 52) | (mm - 0x10_0000_0000_0000);
        proof {
            lemma_assemble(e, (mm - 0x10_0000_0000_0000) as u64);
            lemma_pow2_adds((e - 1) as nat, u as nat);
            assert(val_x1074(b) == mm * pow2((e - 1) as nat));
            assert(mm * pow2((e - 1) as nat) == m * pow2(1074)) by (nonlinear_arith)
                requires
                    mm == m * pow2(u as nat),
                    pow2(1074) == pow2((e - 1) as nat) * pow2(u as nat),
            ;
            lemma_pow2_pos(53);
            lemma_pow2_pos(1074);
            assert(m * pow2(1074) >= 0) by (nonlinear_arith)
                requires
                    m >= 0,
                    pow2(1074) > 0,
            ;
            assert(ulp_shift(m as nat) == 0);
            assert(rne_val(m as nat) == m);
        }
        b
    } else {
        // Find the shift that brings the magnitude into [2^52, 2^53), then
        // round the shifted-out bits to nearest, ties to even.
        proof {
            assert(m >> 0u64 == m) by (bit_vector);
        }
        let mut sh: u64 = 1;
        while (m >> sh) >= 0x20_0000_0000_0000
            invariant
                1 <= sh <= 12,
                m >> ((sh - 1) as u64) >= 0x20_0000_0000_0000,
            decreases 12 - sh,
        {
            proof {
                let s = sh;
                assert((m >> 11u64) < 0x20_0000_0000_0000 && (m >> 12u64) <= (m >> 11u64))
                    by (bit_vector);
                assert((m >> 12u64) < 0x20_0000_0000_0000);
                assert(s <= 11);
            }
            sh = sh + 1;
        }
        proof {
            let s = sh;
            assert((m >> s) >= 0x10_0000_0000_0000 && ((1u64 << s) >= 2) && ((1u64 << ((s
                - 1) as u64)) >= 1) && ((m >> s) & 1 == (m >> s) % 2)) by (bit_vector)
                requires
                    1 <= s <= 12,
                    m >> ((s - 1) as u64) >= 0x20_0000_0000_0000,
            ;
        }
        let hi: u64 = m >> sh;
        let low: u64 = m & ((1u64 << sh) - 1);
        let half: u64 = 1u64 << (sh - 1);
        let round_up: bool = low > half || (low == half && (hi & 1) == 1);
        let mr: u64 = if round_up {
            hi + 1
        } else {
            hi
        };
        let (mant, e): (u64, u64) = if mr == 0x20_0000_0000_0000 {
            (0x10_0000_0000_0000, 1076 + sh)
        } else {
            (mr, 1075 + sh)
        };
        let b = (e << 52) | (mant - 0x10_0000_0000_0000);
        proof {
            vstd::bits::lemma_u64_pow2_no_overflow(sh as nat);
            lemma_u64_shr_is_div(m, sh);
            lemma_u64_shl_is_mul(1u64, sh);
            lemma_u64_shl_is_mul(1u64, (sh - 1) as u64);
            lemma_u64_low_bits_mask_is_mod(m, sh as nat);
            let p = pow2(sh as nat) as int;
            let h = pow2((sh - 1) as nat) as int;
            lemma_pow2_adds((sh - 1) as nat, 1);
            lemma_pow2_pos((sh - 1) as nat);
            assert(p == 2 * h);
            assert((1u64 << sh) - 1 == low_bits_mask(sh as nat));
            assert(hi == m as int / p);
            assert(low == m as int % p);
            assert(m == hi * p + low && 0 <= low < p) by (nonlinear_arith)
                requires
                    hi == m as int / p,
                    low == m as int % p,
                    p > 0,
            ;
            assert(half == h);
            // The rounded mantissa is within half an ulp of the true one.
            let err: int = mr * p - m;
            assert(-h <= err <= h) by (nonlinear_arith)
                requires
                    m == hi * p + low,
                    0 <= low < p,
                    p == 2 * h,
                    h >= 1,
                    err == mr * p - m,
                    mr == if low > h || (low == h && hi % 2 == 1) {
                        hi + 1
                    } else {
                        hi as int
                    },
            ;
            lemma_assemble(e, (mant - 0x10_0000_0000_0000) as u64);
            assert(val_x1074(b) == mant * pow2((e - 1) as nat));
            lemma_pow2_adds((1074 + sh) as nat, 1);
            assert(mant * pow2((e - 1) as nat) == mr * pow2((1074 + sh) as nat)) by {
                if mr == 0x20_0000_0000_0000 {
                    assert(mant * (pow2((1074 + sh) as nat) * 2) == (mant * 2) * pow2(
                        (1074 + sh) as nat,
                    )) by (nonlinear_arith);
                }
            }
            lemma_pow2_adds(1074, sh as nat);
            let big = pow2(1074) as int;
            // The rounded mantissa is exactly the nearest-ties-even choice.
            lemma_ulp_shift_of(m, sh);
            assert(ulp_shift(m as nat) == sh);
            assert(rne_val(m as nat) == mr * p) by {
                let q = m as int / p;
                let r = m as int % p;
                assert(q == hi && r == low);
                if 2 * r < p {
                    assert(low < h);
                    assert(mr == hi);
                } else if 2 * r > p {
                    assert(low > h);
                    assert(mr == hi + 1);
                    assert(rne_val(m as nat) == (q + 1) * p);
                } else {
                    assert(low == h);
                    if q % 2 == 0 {
                        assert((hi & 1) != 1);
                        assert(mr == hi);
                    } else {
                        assert((hi & 1) == 1);
                        assert(mr == hi + 1);
                        assert(rne_val(m as nat) == (q + 1) * p);
                    }
                }
            }
            assert(val_x1074(b) == rne_val(m as nat) * big) by (nonlinear_arith)
                requires
                    val_x1074(b) == mr * ((big * p) as int),
                    rne_val(m as nat) == mr * p,
                    big >= 0,
            ;
            assert(val_x1074(b) - m * big == err * big) by (nonlinear_arith)
                requires
                    val_x1074(b) == mr * ((big * p) as int),
                    err == mr * p - m,
                    big >= 0,
            ;
            lemma_pow2_pos(1074);
            lemma_pow2_pos(53);
            if low == 0 {
                assert(mr == hi);
                assert(err == 0) by (nonlinear_arith)
                    requires
                        err == mr * p - m,
                        m == hi * p + low,
                        low == 0,
                        mr == hi,
                ;
                assert(err * big == 0) by (nonlinear_arith)
                    requires
                        err == 0,
                ;
            }
            // Relative bound: half an ulp is at most m / 2^53.
            assert(h * pow2(53) <= m) by {
                lemma_pow2_adds((sh - 1) as nat, 53);
                lemma_pow2_adds(52, sh as nat);
                assert(m >= 0x10_0000_0000_0000 * p) by (nonlinear_arith)
                    requires
                        m as int / p >= 0x10_0000_0000_0000,
                        m == hi * p + low,
                        hi == m as int / p,
                        0 <= low,
                        p > 0,
                ;
                assert(h * pow2(53) == 0x10_0000_0000_0000 * p) by (nonlinear_arith)
                    requires
                        pow2((sh - 1) as nat + 53) == h * pow2(53),
                        pow2(52 + sh as nat) == 0x10_0000_0000_0000 * p,
                        pow2((sh - 1) as nat + 53) == pow2(52 + sh as nat),
                ;
            }
            assert((val_x1074(b) - m * big) * pow2(53) <= m * big && (m * big - val_x1074(b))
                * pow2(53) <= m * big) by (nonlinear_arith)
                requires
                    val_x1074(b) - m * big == err * big,
                    -h <= err <= h,
                    h * pow2(53) <= m,
                    big > 0,
                    pow2(53) > 0,
            ;
            lemma_pow2_pos((e - 1) as nat);
            assert(val_x1074(b) >= 0) by (nonlinear_arith)
                requires
                    val_x1074(b) == mant * pow2((e - 1) as nat),
                    mant >= 0,
                    pow2((e - 1) as nat) > 0,
            ;
        }
        b
    }
}

/// Encodes a signed integer as a double-precision pattern: exact up to
/// magnitude 2^53, rounded to nearest above.
pub fn encode_i64(v: i64) -> (b: u64)
    ensures
        is_finite64(b),
        !is_nan64(b),
        v >= 0 ==> b < 0x8000_0000_0000_0000,
        v < 0 ==> b >= 0x8000_0000_0000_0000,
        -0x20_0000_0000_0000 <= v <= 0x20_0000_0000_0000 ==> val_x1074(b) == v * pow2(1074),
        val_x1074(b) == rne_int(v as int) * pow2(1074),
        (val_x1074(b) - v * pow2(1074)) * pow2(53) <= abs_int(v as int) * pow2(1074),
        (v * pow2(1074) - val_x1074(b)) * pow2(53) <= abs_int(v as int) * pow2(1074),
{
    if v >= 0 {
        let b = encode_mag(v as u64);
        proof {
            lemma_pow2_pos(1074);
            lemma_pow2_pos(53);
            assert(rne_int(v as int) == rne_val(v as nat));
        }
        b
    } else {
        let mag: u64 = if v == i64::MIN {
            0x8000_0000_0000_0000u64
        } else {
            (-v) as u64
        };
        let pos = encode_mag(mag);
        let b = pos | 0x8000_0000_0000_0000;
        proof {
            lemma_negate(pos);
            lemma_pow2_pos(1074);
            lemma_pow2_pos(53);
            let big = pow2(1074) as int;
            assert(-(mag * big) == v * big) by (nonlinear_arith)
                requires
                    mag == -(v as int),
                    big >= 0,
            ;
            assert((val_x1074(b) - v * big) * pow2(53) <= mag * big && (v * big - val_x1074(b))
                * pow2(53) <= mag * big) by (nonlinear_arith)
                requires
                    val_x1074(b) == -val_x1074(pos),
                    v * big == -(mag * big),
                    (val_x1074(pos) - mag * big) * pow2(53) <= mag * big,
                    (mag * big - val_x1074(pos)) * pow2(53) <= mag * big,
                    pow2(53) > 0,
            ;
            assert(rne_int(v as int) == -rne_val(mag as nat));
            assert(val_x1074(b) == rne_int(v as int) * big) by (nonlinear_arith)
                requires
                    val_x1074(b) == -val_x1074(pos),
                    val_x1074(pos) == rne_val(mag as nat) * big,
                    rne_int(v as int) == -rne_val(mag as nat),
            ;
        }
        b
    }
}

/// The absolute value.
pub open spec fn abs_int(v: int) -> int {
    if v < 0 {
        -v
    } else {
        v
    }
}

/// The pattern encodes exactly the integer `v`.
pub open spec fn is_exact_int(b: u64, v: int) -> bool {
    &&& is_finite64(b)
    &&& !is_nan64(b)
    &&& val_x1074(b) == v * pow2(1074)
    &&& v >= 0 ==> b < 0x8000_0000_0000_0000
    &&& v < 0 ==> b >= 0x8000_0000_0000_0000
}

/// The pattern encodes the integer `v` rounded to nearest, ties to even:
/// exactly `rne_int(v)`, hence exact for magnitudes up to 2^53 and within
/// one part in 2^53 beyond.
pub open spec fn is_rounded_int(b: u64, v: int) -> bool {
    &&& is_finite64(b)
    &&& !is_nan64(b)
    &&& v >= 0 ==> b < 0x8000_0000_0000_0000
    &&& v < 0 ==> b >= 0x8000_0000_0000_0000
    &&& -0x20_0000_0000_0000 <= v <= 0x20_0000_0000_0000 ==> val_x1074(b) == v * pow2(1074)
    &&& val_x1074(b) == rne_int(v) * pow2(1074)
    &&& (val_x1074(b) - v * pow2(1074)) * pow2(53) <= abs_int(v) * pow2(1074)
    &&& (v * pow2(1074) - val_x1074(b)) * pow2(53) <= abs_int(v) * pow2(1074)
}

/// The single-precision bit pattern with the sign bit cleared.
pub open spec fn abs_bits32(b: u32) -> u32 {
    b & 0x7fff_ffff
}

/// The single-precision pattern encodes the not-a-number value.
pub open spec fn is_nan32(b: u32) -> bool {
    abs_bits32(b) > 0x7f80_0000
}

/// The single-precision pattern encodes a finite value.
pub open spec fn is_finite32(b: u32) -> bool {
    abs_bits32(b) < 0x7f80_0000
}

/// The exact value of a finite single-precision pattern, scaled by 2^149.
pub open spec fn val32_x149(b: u32) -> int {
    let e = (b >> 23) & 0xff;
    let f = (b & 0x7f_ffff) as int;
    let mag: int = if e == 0 {
        f
    } else {
        (f + 0x80_0000) * pow2((e - 1) as nat)
    };
    if b >= 0x8000_0000 {
        -mag
    } else {
        mag
    }
}

/// The double-precision pattern is the widening of the single-precision
/// one: same class (finite, infinite or not-a-number), same sign, and the
/// same value when finite.
pub open spec fn is_widened(b: u64, s: u32) -> bool {
    &&& is_nan64(b) == is_nan32(s)
    &&& is_finite64(b) == is_finite32(s)
    &&& is_finite32(s) ==> val_x1074(b) == val32_x149(s) * pow2(925)
    &&& (s >= 0x8000_0000) == (b >= 0x8000_0000_0000_0000)
}

/// Widens a single-precision pattern to double precision: the widening is
/// exact on finite values, preserves the sign, and maps not-a-number and
/// infinite patterns to patterns of the same class.
#[verifier::rlimit(50)]
pub fn widen_f32(b32: u32) -> (r: u64)
    ensures
        is_nan64(r) == is_nan32(b32),
        is_finite64(r) == is_finite32(b32),
        is_finite32(b32) ==> val_x1074(r) == val32_x149(b32) * pow2(925),
        (b32 >= 0x8000_0000) == (r >= 0x8000_0000_0000_0000),
{
    proof {
        lemma2_to64();
        lemma2_to64_rest();
    }
    let neg: bool = b32 >= 0x8000_0000;
    let e: u32 = (b32 >> 23) & 0xff;
    let f: u32 = b32 & 0x7f_ffff;
    proof {
        let bb = b32;
        assert(((bb >> 23) & 0xff) <= 0xff && ((bb & 0x7f_ffff) < 0x80_0000)) by (bit_vector);
    }
    let mag64: u64 = if e == 0xff {
        // Infinity or not-a-number: keep the class (and payload bits).
        let m = 0x7ff0_0000_0000_0000u64 | ((f as u64) << 29);
        proof {
            let ff = f as u64;
            assert((0x7ff0_0000_0000_0000u64 | (ff << 29)) < 0x8000_0000_0000_0000 && ((
            0x7ff0_0000_0000_0000u64 | (ff << 29)) & 0x7fff_ffff_ffff_ffff) == (
            0x7ff0_0000_0000_0000u64 | (ff << 29)) && ((ff == 0) ==> (0x7ff0_0000_0000_0000u64 | (ff
                << 29)) == 0x7ff0_0000_0000_0000) && ((ff != 0) ==> (0x7ff0_0000_0000_0000u64 | (ff
                << 29)) > 0x7ff0_0000_0000_0000)) by (bit_vector)
                requires
                    ff < 0x80_0000,
            ;
        }
        m
    } else if e == 0 {
        if f == 0 {
            proof {
                assert(0u64 & 0x7fff_ffff_ffff_ffff == 0 && (0u64 >> 52) & 0x7ff == 0 && 0u64
                    & 0xf_ffff_ffff_ffff == 0) by (bit_vector);
            }
            0u64
        } else {
            // A single-precision subnormal is a normal double: normalize the
            // fraction into [2^52, 2^53).
            let mut mm: u64 = f as u64;
            let mut u: u64 = 0;
            while mm < 0x10_0000_0000_0000
                invariant
                    1 <= mm,
                    mm == (f as u64) * pow2(u as nat),
                    mm < 0x20_0000_0000_0000,
                    u <= 52,
                    f >= 1,
                decreases 0x20_0000_0000_0000 - mm,
            {
                proof {
                    lemma_pow2_adds(u as nat, 1);
                    lemma2_to64();
                    lemma2_to64_rest();
                    if u >= 52 {
                        lemma_pow2_adds(52, (u - 52) as nat);
                        lemma_pow2_pos((u - 52) as nat);
                        lemma_pow2_pos(u as nat);
                        let pu = pow2(u as nat) as int;
                        let p52 = pow2(52) as int;
                        assert(p52 == 0x10_0000_0000_0000);
                        assert(pu >= p52) by (nonlinear_arith)
                            requires
                                pu == p52 * pow2((u - 52) as nat),
                                pow2((u - 52) as nat) >= 1,
                                p52 >= 0,
                        ;
                        assert(mm >= p52) by (nonlinear_arith)
                            requires
                                mm == (f as u64) * pu,
                                f >= 1,
                                pu >= p52,
                                pu > 0,
                        ;
                        assert(false);
                    }
                }
                mm = mm * 2;
                u = u + 1;
                proof {
                    assert(mm == (f as u64) * pow2(u as nat)) by (nonlinear_arith)
                        requires
                            mm == ((f as u64) * pow2((u - 1) as nat)) * 2,
                            pow2(u as nat) == pow2((u - 1) as nat) * 2,
                    ;
                }
            }
            proof {
                // f < 2^23 forces at least 30 doublings, so the exponent
                // field stays in the normal range.
                if u < 30 {
                    lemma_pow2_adds(u as nat, (29 - u) as nat);
                    lemma_pow2_pos((29 - u) as nat);
                    lemma_pow2_pos(u as nat);
                    let pu = pow2(u as nat) as int;
                    assert(pu <= pow2(29)) by (nonlinear_arith)
                        requires
                            pow2(29) == pu * pow2((29 - u) as nat),
                            pow2((29 - u) as nat) >= 1,
                            pu > 0,
                    ;
                    assert(mm < 0x10_0000_0000_0000) by (nonlinear_arith)
                        requires
                            mm == (f as u64) * pu,
                            f < 0x80_0000,
                            0 < pu <= pow2(29),
                            pow2(29) == 0x2000_0000,
                    ;
                    assert(false);
                }
            }
            let ee: u64 = 926 - u;
            let m = (ee << 52) | (mm - 0x10_0000_0000_0000);
            proof {
                lemma_assemble(ee, (mm - 0x10_0000_0000_0000) as u64);
                lemma_pow2_adds((ee - 1) as nat, u as nat);
                assert(val_x1074(m) == mm * pow2((ee - 1) as nat));
                assert(mm * pow2((ee - 1) as nat) == f * pow2(925)) by (nonlinear_arith)
                    requires
                        mm == (f as u64) * pow2(u as nat),
                        pow2(925) == pow2((ee - 1) as nat) * pow2(u as nat),
                ;
            }
            m
        }
    } else {
        // A normal single: rebias the exponent and shift the fraction.
        let m = (((e as u64) + 896) << 52) | ((f as u64) << 29);
        proof {
            let ff = f as u64;
            assert((ff << 29) < 0x10_0000_0000_0000 && (ff << 29) == ff * 0x2000_0000)
                by (bit_vector)
                requires
                    ff < 0x80_0000,
            ;
            lemma_assemble(((e as u64) + 896) as u64, (f as u64) << 29);
            lemma_pow2_adds((e - 1) as nat, 925);
            lemma_pow2_adds((e - 1) as nat, 29);
            assert(val_x1074(m) == ((f as u64) * 0x2000_0000 + 0x10_0000_0000_0000) * pow2(
                (e + 895) as nat,
            ));
            lemma_pow2_adds((e + 895) as nat, 0);
            lemma_pow2_adds(29, (e + 895) as nat);
            assert(pow2(29) == 0x2000_0000 && pow2(52) == 0x10_0000_0000_0000 && pow2(23)
                == 0x80_0000);
            lemma_pow2_adds(23, 29);
            assert(val_x1074(m) == (f + 0x80_0000) * pow2((e - 1) as nat) * pow2(925))
                by (nonlinear_arith)
                requires
                    val_x1074(m) == (f * 0x2000_0000 + 0x10_0000_0000_0000) * pow2(
                        (e + 895) as nat,
                    ),
                    pow2((e + 895) as nat) * 0x2000_0000 == pow2((e + 924) as nat),
                    pow2((e - 1) as nat) * pow2(925) == pow2((e + 924) as nat),
                    0x10_0000_0000_0000 == 0x80_0000 * 0x2000_0000,
                    pow2((e + 895) as nat) >= 0,
            ;
            assert((f + 0x80_0000) * pow2((e - 1) as nat) * pow2(925) == ((f + 0x80_0000) * pow2(
                (e - 1) as nat,
            )) * pow2(925)) by (nonlinear_arith);
        }
        m
    };
    let r: u64 = if neg {
        mag64 | 0x8000_0000_0000_0000
    } else {
        mag64
    };
    proof {
        if neg {
            lemma_negate(mag64);
        }
        let bb = b32;
        assert(((bb >> 23) & 0xff == 0xff) == ((bb & 0x7fff_ffff) >= 0x7f80_0000)) by (bit_vector);
        assert(((bb >> 23) & 0xff == 0xff && (bb & 0x7f_ffff) == 0) == ((bb & 0x7fff_ffff)
            == 0x7f80_0000)) by (bit_vector);
        if is_finite32(b32) {
            lemma_pow2_pos(925);
            let vm: int = if (b32 >> 23) & 0xff == 0 {
                (b32 & 0x7f_ffff) as int
            } else {
                (((b32 & 0x7f_ffff) as int) + 0x80_0000) * pow2(((((b32 >> 23) & 0xff) as int)
                    - 1) as nat)
            };
            assert(val_x1074(mag64) == vm * pow2(925)) by {
                if (b32 >> 23) & 0xff == 0 {
                    if b32 & 0x7f_ffff == 0 {
                        assert(vm == 0);
                        assert(val_x1074(mag64) == 0);
                    } else {
                        assert(vm == (b32 & 0x7f_ffff) as int);
                    }
                } else {
                    assert(vm == (((b32 & 0x7f_ffff) as int) + 0x80_0000) * pow2(((((b32 >> 23)
                        & 0xff) as int) - 1) as nat));
                }
            }
            if neg {
                assert(val_x1074(r) == -(vm * pow2(925)));
                assert(val32_x149(b32) == -vm);
                assert((-vm) * pow2(925) == -(vm * pow2(925))) by (nonlinear_arith);
            }
        }
    }
    r
}

} // verus!
