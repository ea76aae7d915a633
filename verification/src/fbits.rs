//! Bit-level model of IEEE 754 binary64 values.
//!
//! The library manipulates parameter and objective values as the 64-bit
//! patterns of IEEE 754 doubles.  This module defines the meaning of such a
//! pattern: its fields, the NaN/finiteness predicates, a signed ordering key
//! that agrees with the IEEE comparison of non-NaN values, and the exact
//! integer value of a finite pattern scaled by 2^1074.  Executable
//! classification and comparison functions are verified against those
//! definitions.
use vstd::prelude::*;
use vstd::arithmetic::power2::*;
use vstd::arithmetic::mul::*;

verus! {

/// Magnitude field: the bit pattern with the sign bit cleared.
pub open spec fn mag_of(bits: u64) -> u64 {
    bits & 0x7fff_ffff_ffff_ffff
}

/// Sign bit (0 for non-negative values, 1 for negative values).
pub open spec fn sign_of(bits: u64) -> u64 {
    bits >> 63
}

/// Biased exponent field (11 bits).
pub open spec fn exp_of(bits: u64) -> u64 {
    (bits >> 52) & 0x7ff
}

/// Fraction field (52 bits).
pub open spec fn frac_of(bits: u64) -> u64 {
    bits & 0xf_ffff_ffff_ffff
}

/// Whether the pattern encodes a NaN.
pub open spec fn is_nan(bits: u64) -> bool {
    exp_of(bits) == 0x7ff && frac_of(bits) != 0
}

/// Whether the pattern encodes a finite value (neither NaN nor an infinity).
pub open spec fn is_finite(bits: u64) -> bool {
    exp_of(bits) != 0x7ff
}

/// Signed ordering key.  For non-NaN patterns, `key(a) < key(b)` holds exactly
/// when the IEEE comparison `a < b` does, and `key(a) == key(b)` exactly when
/// `a == b` (so both zeros share the key 0).
pub open spec fn key(bits: u64) -> int {
    if sign_of(bits) == 1 {
        -(mag_of(bits) as int)
    } else {
        mag_of(bits) as int
    }
}

/// Total ordering key: as `key`, with every NaN placed above all other values
/// (the order a sort on wrapped doubles uses).
pub open spec fn okey(bits: u64) -> int {
    if is_nan(bits) {
        0x8000_0000_0000_0000
    } else {
        key(bits)
    }
}

/// IEEE `<` on two patterns: false whenever either is NaN.
pub open spec fn flt(a: u64, b: u64) -> bool {
    !is_nan(a) && !is_nan(b) && key(a) < key(b)
}

/// IEEE `<=` on two patterns: false whenever either is NaN.
pub open spec fn fle(a: u64, b: u64) -> bool {
    !is_nan(a) && !is_nan(b) && key(a) <= key(b)
}

/// Significand of a finite pattern, with the implicit leading bit of normal
/// values made explicit.
pub open spec fn mant_of(bits: u64) -> u64 {
    if exp_of(bits) == 0 {
        frac_of(bits)
    } else {
        (frac_of(bits) + 0x10_0000_0000_0000) as u64
    }
}

/// Power-of-two scale of a finite pattern, shifted so that it is never
/// negative: the encoded value is `mant * 2^(scale - 1) * 2^-1074`.
pub open spec fn scale_of(bits: u64) -> nat {
    if exp_of(bits) == 0 {
        1nat
    } else {
        exp_of(bits) as nat
    }
}

/// Magnitude of a finite pattern's value, in units of 2^-1074 (exact).
pub open spec fn aval(bits: u64) -> int {
    mant_of(bits) * pow2((scale_of(bits) - 1) as nat)
}

/// Value of a finite pattern, in units of 2^-1074 (exact).
pub open spec fn val(bits: u64) -> int {
    if sign_of(bits) == 1 {
        -aval(bits)
    } else {
        aval(bits)
    }
}

/// The fields of a pattern decompose its magnitude, and are bounded.
pub proof fn lemma_decompose(bits: u64)
    ensures
        mag_of(bits) == exp_of(bits) * 0x10_0000_0000_0000 + frac_of(bits),
        frac_of(bits) < 0x10_0000_0000_0000,
        exp_of(bits) < 0x800,
        sign_of(bits) == 0 || sign_of(bits) == 1,
        sign_of(bits) == 0 ==> mag_of(bits) == bits,
        mag_of(bits) < 0x8000_0000_0000_0000,
{
    assert((bits & 0x7fff_ffff_ffff_ffff) == ((bits >> 52) & 0x7ff) * 0x10_0000_0000_0000 + (bits
        & 0xf_ffff_ffff_ffff) && (bits & 0xf_ffff_ffff_ffff) < 0x10_0000_0000_0000 && ((bits >> 52)
        & 0x7ff) < 0x800 && ((bits >> 63) == 0 || (bits >> 63) == 1) && ((bits >> 63) == 0 ==> (
    bits & 0x7fff_ffff_ffff_ffff) == bits) && (bits & 0x7fff_ffff_ffff_ffff)
        < 0x8000_0000_0000_0000) by (bit_vector);
}

/// A pattern's magnitude is zero exactly when its value is.
pub proof fn lemma_aval_zero(bits: u64)
    requires
        is_finite(bits),
    ensures
        aval(bits) >= 0,
        (aval(bits) == 0) == (mag_of(bits) == 0),
{
    lemma_decompose(bits);
    lemma_pow2_pos((scale_of(bits) - 1) as nat);
    if mag_of(bits) == 0 {
        assert(exp_of(bits) == 0 && frac_of(bits) == 0);
    } else {
        assert(mant_of(bits) >= 1);
        lemma_mul_inequality(1, mant_of(bits) as int, pow2((scale_of(bits) - 1) as nat) as int);
    }
    assert(aval(bits) >= 0) by {
        lemma_mul_nonnegative(mant_of(bits) as int, pow2((scale_of(bits) - 1) as nat) as int);
    }
}

/// A strictly larger magnitude field encodes a strictly larger value
/// magnitude.
proof fn lemma_mag_aval_strict(a: u64, b: u64)
    requires
        is_finite(a),
        is_finite(b),
        mag_of(a) < mag_of(b),
    ensures
        aval(a) < aval(b),
{
    lemma_decompose(a);
    lemma_decompose(b);
    let e1 = exp_of(a);
    let e2 = exp_of(b);
    let m1 = mant_of(a);
    let m2 = mant_of(b);
    let s1 = (scale_of(a) - 1) as nat;
    let s2 = (scale_of(b) - 1) as nat;
    lemma_pow2_pos(s1);
    lemma_pow2_pos(s2);
    if e1 > e2 {
        assert(e1 * 0x10_0000_0000_0000 >= (e2 + 1) * 0x10_0000_0000_0000) by {
            lemma_mul_inequality((e2 + 1) as int, e1 as int, 0x10_0000_0000_0000);
        }
        assert(false);
    } else if e1 == e2 {
        assert(m1 < m2);
        lemma_mul_strict_inequality(m1 as int, m2 as int, pow2(s1) as int);
    } else if e1 == 0 {
        // a is subnormal: its value is below 2^52, which every normal b reaches.
        assert(aval(a) == frac_of(a) * pow2(0));
        assert(aval(a) < 0x10_0000_0000_0000) by {
            lemma_pow2_unfold(1);
            assert(pow2(0) == 1) by {
                lemma2_to64();
            }
        }
        assert(m2 >= 0x10_0000_0000_0000);
        assert(aval(b) >= m2 * 1) by {
            lemma_pow2_pos(s2);
            lemma_mul_inequality(1, pow2(s2) as int, m2 as int);
            lemma_mul_is_commutative(m2 as int, pow2(s2) as int);
        }
    } else {
        // both normal with e1 < e2
        assert(m1 < 0x20_0000_0000_0000);
        assert(pow2(53) == 0x20_0000_0000_0000) by {
            lemma2_to64_rest();
        }
        assert(aval(a) < pow2(53) * pow2(s1)) by {
            lemma_mul_strict_inequality(m1 as int, pow2(53) as int, pow2(s1) as int);
        }
        lemma_pow2_adds(53, s1);
        assert(pow2(52) == 0x10_0000_0000_0000) by {
            lemma2_to64_rest();
        }
        assert(aval(b) >= pow2(52) * pow2(s2)) by {
            lemma_mul_inequality(pow2(52) as int, m2 as int, pow2(s2) as int);
        }
        lemma_pow2_adds(52, s2);
        assert(53 + s1 <= 52 + s2);
        if 53 + s1 < 52 + s2 {
            lemma_pow2_strictly_increases((53 + s1) as nat, (52 + s2) as nat);
        }
    }
}

/// The magnitude field order is exactly the value-magnitude order.
pub proof fn lemma_mag_aval_mono(a: u64, b: u64)
    requires
        is_finite(a),
        is_finite(b),
    ensures
        (mag_of(a) <= mag_of(b)) == (aval(a) <= aval(b)),
        (mag_of(a) == mag_of(b)) == (aval(a) == aval(b)),
{
    if mag_of(a) < mag_of(b) {
        lemma_mag_aval_strict(a, b);
    } else if mag_of(b) < mag_of(a) {
        lemma_mag_aval_strict(b, a);
    } else {
        lemma_decompose(a);
        lemma_decompose(b);
        assert(exp_of(a) == exp_of(b) && frac_of(a) == frac_of(b)) by {
            let e1 = exp_of(a);
            let e2 = exp_of(b);
            if e1 < e2 {
                lemma_mul_strict_inequality(e1 as int, e2 as int, 0x10_0000_0000_0000);
                assert(false);
            }
            if e2 < e1 {
                lemma_mul_strict_inequality(e2 as int, e1 as int, 0x10_0000_0000_0000);
                assert(false);
            }
        }
    }
}

/// Whether the given bit pattern encodes a NaN.
pub fn bits_is_nan(bits: u64) -> (r: bool)
    ensures
        r == is_nan(bits),
{
    (bits >> 52) & 0x7ff == 0x7ff && bits & 0xf_ffff_ffff_ffff != 0
}

/// Whether the given bit pattern encodes a finite value.
pub fn bits_is_finite(bits: u64) -> (r: bool)
    ensures
        r == is_finite(bits),
{
    (bits >> 52) & 0x7ff != 0x7ff
}

/// IEEE `<` on two patterns, computed from the bits.
pub fn bits_lt(a: u64, b: u64) -> (r: bool)
    ensures
        r == flt(a, b),
{
    proof {
        lemma_decompose(a);
        lemma_decompose(b);
    }
    if bits_is_nan(a) || bits_is_nan(b) {
        return false;
    }
    let ma = a & 0x7fff_ffff_ffff_ffff;
    let mb = b & 0x7fff_ffff_ffff_ffff;
    let sa = a >> 63;
    let sb = b >> 63;
    if ma == 0 && mb == 0 {
        false
    } else if sa != sb {
        sa == 1
    } else if sa == 0 {
        ma < mb
    } else {
        mb < ma
    }
}

/// IEEE `<=` on two patterns, computed from the bits.
pub fn bits_le(a: u64, b: u64) -> (r: bool)
    ensures
        r == fle(a, b),
{
    proof {
        lemma_decompose(a);
        lemma_decompose(b);
    }
    if bits_is_nan(a) || bits_is_nan(b) {
        return false;
    }
    let ma = a & 0x7fff_ffff_ffff_ffff;
    let mb = b & 0x7fff_ffff_ffff_ffff;
    let sa = a >> 63;
    let sb = b >> 63;
    if ma == 0 && mb == 0 {
        true
    } else if sa != sb {
        sa == 1
    } else if sa == 0 {
        ma <= mb
    } else {
        mb <= ma
    }
}

/// Total-order `<=` on two patterns, NaN above everything.
pub fn bits_okey_le(a: u64, b: u64) -> (r: bool)
    ensures
        r == (okey(a) <= okey(b)),
{
    proof {
        lemma_decompose(a);
        lemma_decompose(b);
    }
    if bits_is_nan(b) {
        true
    } else if bits_is_nan(a) {
        false
    } else {
        let ma = a & 0x7fff_ffff_ffff_ffff;
        let mb = b & 0x7fff_ffff_ffff_ffff;
        let sa = a >> 63;
        let sb = b >> 63;
        if ma == 0 && mb == 0 {
            true
        } else if sa != sb {
            sa == 1
        } else if sa == 0 {
            ma <= mb
        } else {
            mb <= ma
        }
    }
}

} // verus!
