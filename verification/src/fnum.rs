//! Exact integer arithmetic on double bit patterns.
//!
//! Every function here computes an exact mathematical quantity of the encoded
//! values — a ceiling, a floor, the pattern of a small integer, the split
//! point `ceil(gamma * n)`, or whether a sum of magnitudes reaches the
//! smallest magnitude that rounds to infinity — using only integer
//! arithmetic, and is verified against the value semantics of `fbits`.
use vstd::prelude::*;
use vstd::arithmetic::power2::*;
use vstd::arithmetic::mul::*;
use vstd::arithmetic::div_mod::*;
use vstd::bits::*;
use crate::fbits::{key, mag_of, sign_of, exp_of, frac_of, is_finite, mant_of, aval, val, lemma_decompose, lemma_aval_zero, lemma_mag_aval_mono};

verus! {

/// Bit pattern of the double 1.0.
pub const ONE_BITS: u64 = 0x3ff0_0000_0000_0000;

/// Bit pattern of the double 2^30; magnitudes up to this bound convert
/// exactly to the machine integers used for counts and bins.
pub const LIM_BITS: u64 = 0x41d0_0000_0000_0000;

/// Largest count the library works with: 2^30.
pub const LIM: usize = 0x4000_0000;

/// Ceiling of the encoded magnitude: the least integer at or above
/// `aval(bits) / 2^1074`.
pub open spec fn fceil(bits: u64) -> int {
    (aval(bits) + pow2(1074) - 1) / (pow2(1074) as int)
}

/// Floor of the encoded magnitude: `aval(bits) / 2^1074` rounded down.
pub open spec fn ffloor(bits: u64) -> int {
    aval(bits) / (pow2(1074) as int)
}

/// Floor of the encoded value, saturated to zero for negative values (the
/// result of casting the floored double to an unsigned machine integer).
pub open spec fn fsat(bits: u64) -> int {
    if sign_of(bits) == 1 {
        0
    } else {
        ffloor(bits)
    }
}

/// Whether `bits` encodes exactly the integer `n` (non-negative).
pub open spec fn is_uint_bits(bits: u64, n: int) -> bool {
    is_finite(bits) && sign_of(bits) == 0 && val(bits) == n * pow2(1074)
}

/// Scaling a ceiling division by a power of two does not change it.
proof fn lemma_ceil_div_scale(m: int, d: nat, k: nat)
    requires
        m >= 0,
    ensures
        (m * pow2(k) + pow2((d + k) as nat) - 1) / (pow2((d + k) as nat) as int) == (m + pow2(d)
            - 1) / (pow2(d) as int),
{
    let kk = pow2(k) as int;
    let dd = pow2(d) as int;
    let dk = pow2((d + k) as nat) as int;
    lemma_pow2_pos(k);
    lemma_pow2_pos(d);
    lemma_pow2_pos((d + k) as nat);
    lemma_pow2_adds(d, k);
    assert(dk == dd * kk);
    lemma_fundamental_div_mod(m, dd);
    let q = m / dd;
    let r = m % dd;
    assert(m == q * dd + r);
    lemma_div_pos_is_pos(m, dd);
    assert(q >= 0);
    if r == 0 {
        // m + dd - 1 = q * dd + (dd - 1)
        lemma_fundamental_div_mod_converse(m + dd - 1, dd, q, dd - 1);
        // m * kk + dk - 1 = q * dk + (dk - 1)
        assert(m * kk == q * dd * kk + 0 * kk) by {
            lemma_mul_is_distributive_add_other_way(kk, q * dd, r);
        }
        assert(q * dd * kk == q * dk) by {
            lemma_mul_is_associative(q, dd, kk);
        }
        lemma_fundamental_div_mod_converse(m * kk + dk - 1, dk, q, dk - 1);
    } else {
        // m + dd - 1 = (q + 1) * dd + (r - 1)
        assert((q + 1) * dd == q * dd + dd) by {
            lemma_mul_is_distributive_add_other_way(dd, q, 1);
        }
        lemma_fundamental_div_mod_converse(m + dd - 1, dd, q + 1, r - 1);
        // m * kk + dk - 1 = (q + 1) * dk + (r * kk - 1)
        assert(m * kk == q * dd * kk + r * kk) by {
            lemma_mul_is_distributive_add_other_way(kk, q * dd, r);
        }
        assert(q * dd * kk == q * dk) by {
            lemma_mul_is_associative(q, dd, kk);
        }
        assert(r * kk >= 1 * kk) by {
            lemma_mul_inequality(1, r, kk);
        }
        assert(r * kk <= (dd - 1) * kk) by {
            lemma_mul_inequality(r, dd - 1, kk);
        }
        assert((dd - 1) * kk == dk - kk) by {
            lemma_mul_is_distributive_sub_other_way(kk, dd, 1);
        }
        assert((q + 1) * dk == q * dk + dk) by {
            lemma_mul_is_distributive_add_other_way(dk, q, 1);
        }
        lemma_fundamental_div_mod_converse(m * kk + dk - 1, dk, q + 1, r * kk - 1);
    }
}

/// Scaling a flooring division by a power of two does not change it.
proof fn lemma_floor_div_scale(m: int, d: nat, k: nat)
    requires
        m >= 0,
    ensures
        (m * pow2(k)) / (pow2((d + k) as nat) as int) == m / (pow2(d) as int),
{
    let kk = pow2(k) as int;
    let dd = pow2(d) as int;
    let dk = pow2((d + k) as nat) as int;
    lemma_pow2_pos(k);
    lemma_pow2_pos(d);
    lemma_pow2_pos((d + k) as nat);
    lemma_pow2_adds(d, k);
    lemma_fundamental_div_mod(m, dd);
    let q = m / dd;
    let r = m % dd;
    lemma_div_pos_is_pos(m, dd);
    assert(m * kk == q * dd * kk + r * kk) by {
        lemma_mul_is_distributive_add_other_way(kk, q * dd, r);
    }
    assert(q * dd * kk == q * dk) by {
        lemma_mul_is_associative(q, dd, kk);
    }
    assert(r * kk >= 0) by {
        lemma_mul_nonnegative(r, kk);
    }
    assert(r * kk <= (dd - 1) * kk) by {
        lemma_mul_inequality(r, dd - 1, kk);
    }
    assert((dd - 1) * kk == dk - kk) by {
        lemma_mul_is_distributive_sub_other_way(kk, dd, 1);
    }
    lemma_fundamental_div_mod_converse(m * kk, dk, q, r * kk);
}

/// `aval` of a pattern in terms of its fields, with the scale split off.
proof fn lemma_aval_unfold(bits: u64)
    requires
        is_finite(bits),
    ensures
        exp_of(bits) >= 1075 ==> aval(bits) == mant_of(bits) * pow2((exp_of(bits) - 1075) as nat)
            * pow2(1074),
        1 <= exp_of(bits) < 1075 ==> aval(bits) * pow2((1075 - exp_of(bits)) as nat) == mant_of(
            bits,
        ) * pow2(1074),
        exp_of(bits) == 0 ==> aval(bits) == frac_of(bits),
{
    let e = exp_of(bits);
    let m = mant_of(bits);
    if e == 0 {
        assert(pow2(0) == 1) by {
            lemma2_to64();
        }
        assert(aval(bits) == frac_of(bits) * pow2(0));
        assert(frac_of(bits) * 1 == frac_of(bits)) by {
            lemma_mul_basics(frac_of(bits) as int);
        }
    } else if e >= 1075 {
        assert(aval(bits) == m * pow2((e - 1) as nat));
        lemma_pow2_adds((e - 1075) as nat, 1074);
        lemma_mul_is_associative(m as int, pow2((e - 1075) as nat) as int, pow2(1074) as int);
    } else {
        assert(aval(bits) == m * pow2((e - 1) as nat));
        lemma_pow2_adds((e - 1) as nat, (1075 - e) as nat);
        lemma_mul_is_associative(m as int, pow2((e - 1) as nat) as int, pow2((1075 - e) as nat) as int);
    }
}

/// From a magnitude bound on the pattern, a bound on its exponent field.
proof fn lemma_exp_from_mag(bits: u64, e: u64)
    requires
        mag_of(bits) <= e * 0x10_0000_0000_0000,
        e < 0x800,
    ensures
        exp_of(bits) <= e,
        exp_of(bits) == e ==> frac_of(bits) == 0,
{
    lemma_decompose(bits);
    if exp_of(bits) > e {
        assert((e + 1) * 0x10_0000_0000_0000 <= exp_of(bits) * 0x10_0000_0000_0000) by {
            lemma_mul_inequality((e + 1) as int, exp_of(bits) as int, 0x10_0000_0000_0000);
        }
        assert(false);
    }
}

/// Bounded magnitudes have bounded values: the bound pattern encodes exactly
/// 2^30.
pub proof fn lemma_aval_lim(bits: u64)
    requires
        is_finite(bits),
        mag_of(bits) <= LIM_BITS,
    ensures
        aval(bits) <= 0x4000_0000 * pow2(1074),
{
    assert(is_finite(LIM_BITS) && exp_of(LIM_BITS) == 0x41d && frac_of(LIM_BITS) == 0 && sign_of(
        LIM_BITS,
    ) == 0 && mag_of(LIM_BITS) == LIM_BITS) by (bit_vector);
    assert(aval(LIM_BITS) == 0x10_0000_0000_0000 * pow2(1052));
    assert(pow2(52) == 0x10_0000_0000_0000) by {
        lemma2_to64_rest();
    }
    lemma_pow2_adds(52, 1052);
    assert(aval(LIM_BITS) == pow2(1104));
    lemma_mag_aval_mono(bits, LIM_BITS);
    lemma_pow2_adds(30, 1074);
    assert(pow2(30) == 0x4000_0000) by {
        lemma2_to64();
    }
}

/// The magnitude of the bound pattern is exactly 2^30, so bounded patterns
/// have bounded ceilings.
pub proof fn lemma_fceil_lim(bits: u64)
    requires
        is_finite(bits),
        mag_of(bits) <= LIM_BITS,
    ensures
        fceil(bits) <= LIM,
        ffloor(bits) <= LIM,
{
    lemma_aval_lim(bits);
    lemma_pow2_pos(1074);
    assert((0x4000_0000 * pow2(1074) + pow2(1074) - 1) / (pow2(1074) as int) == 0x4000_0000) by {
        lemma_fundamental_div_mod_converse(
            0x4000_0000 * pow2(1074) + pow2(1074) - 1,
            pow2(1074) as int,
            0x4000_0000,
            pow2(1074) - 1,
        );
    }
    lemma_aval_zero(bits);
    assert(fceil(bits) <= 0x4000_0000) by {
        lemma_div_is_ordered(
            aval(bits) + pow2(1074) - 1,
            0x4000_0000 * pow2(1074) + pow2(1074) - 1,
            pow2(1074) as int,
        );
    }
    assert(ffloor(bits) <= 0x4000_0000) by {
        lemma_div_is_ordered(
            aval(bits),
            0x4000_0000 * pow2(1074) + pow2(1074) - 1,
            pow2(1074) as int,
        );
    }
}

/// Floor of a finite double, saturated to zero below zero, as a machine
/// integer.
pub fn floor_sat_usize(bits: u64) -> (r: usize)
    requires
        is_finite(bits),
        sign_of(bits) == 0 ==> mag_of(bits) <= LIM_BITS,
    ensures
        r as int == fsat(bits),
        r <= LIM,
{
    proof {
        lemma_decompose(bits);
        lemma_pow2_pos(1074);
        lemma_aval_unfold(bits);
    }
    if bits >> 63 == 1 {
        return 0;
    }
    proof {
        lemma_exp_from_mag(bits, 0x41d);
        lemma_fceil_lim(bits);
    }
    let e = (bits >> 52) & 0x7ff;
    let f = bits & 0xf_ffff_ffff_ffff;
    if e == 0 {
        // subnormal: the value is in [0, 1), so the floor is 0
        proof {
            assert(pow2(52) < pow2(1074)) by {
                lemma_pow2_strictly_increases(52, 1074);
            }
            assert(pow2(52) == 0x10_0000_0000_0000) by {
                lemma2_to64_rest();
            }
            lemma_basic_div(f as int, pow2(1074) as int);
        }
        0
    } else {
        let m = f + 0x10_0000_0000_0000;
        let d = 1075 - e;  // e <= 0x41d = 1053, so d >= 22
        proof {
            assert(pow2(53) == 0x20_0000_0000_0000) by {
                lemma2_to64_rest();
            }
            lemma_pow2_pos(d as nat);
            lemma_floor_div_scale(m as int, d as nat, (e - 1) as nat);
        }
        if d >= 53 {
            // the value is below 1
            proof {
                assert(m < pow2(d as nat)) by {
                    if d > 53 {
                        lemma_pow2_strictly_increases(53, d as nat);
                    }
                }
                lemma_basic_div(m as int, pow2(d as nat) as int);
            }
            0
        } else {
            let q = m >> d;
            proof {
                lemma_u64_shr_is_div(m, d);
            }
            q as usize
        }
    }
}

/// The bit pattern encoding a machine integer of at most 2^30, exactly.
pub fn uint_to_bits(n: usize) -> (r: u64)
    requires
        n <= LIM,
    ensures
        is_uint_bits(r, n as int),
        mag_of(r) == r,
        mag_of(r) <= LIM_BITS,
{
    if n == 0 {
        proof {
            assert(exp_of(0u64) == 0 && frac_of(0u64) == 0 && sign_of(0u64) == 0 && mag_of(0u64)
                == 0) by (bit_vector);
            assert(aval(0u64) == 0 && 0 * pow2(1074) == 0) by {
                lemma_mul_basics(pow2(0) as int);
                lemma_mul_basics(pow2(1074) as int);
            }
        }
        return 0;
    }
    let v = n as u64;
    let mut h: u64 = 0;
    proof {
        assert(v >> 0u64 == v) by (bit_vector);
        assert(pow2(0) == 1) by {
            lemma2_to64();
        }
    }
    while (v >> h) >= 2
        invariant
            1 <= v <= 0x4000_0000,
            h <= 30,
            (v >> h) >= 1,
            v >= pow2(h as nat),
        decreases 30 - h,
    {
        proof {
            lemma_u64_shr_is_div(v, h);
            lemma_u64_shr_is_div(v, (h + 1) as u64);
            lemma_pow2_pos(h as nat);
            lemma_pow2_pos((h + 1) as nat);
            lemma_pow2_unfold((h + 1) as nat);
            // v >> h >= 2 means v >= 2^(h+1)
            lemma_fundamental_div_mod(v as int, pow2(h as nat) as int);
            lemma_mod_bound(v as int, pow2(h as nat) as int);
            assert(pow2(h as nat) * (v as int / (pow2(h as nat) as int)) >= pow2(h as nat) * 2) by {
                lemma_mul_left_inequality(
                    pow2(h as nat) as int,
                    2,
                    v as int / (pow2(h as nat) as int),
                );
            }
            assert(v >= pow2((h + 1) as nat));
            // hence h + 1 stays at most 30
            if h + 1 > 30 {
                assert(pow2(31) <= pow2((h + 1) as nat)) by {
                    if h + 1 > 31 {
                        lemma_pow2_strictly_increases(31, (h + 1) as nat);
                    }
                }
                assert(pow2(31) == 0x8000_0000) by {
                    lemma2_to64();
                }
                assert(false);
            }
            // and the shifted value stays at least 1
            assert(v as int / (pow2((h + 1) as nat) as int) >= 1) by {
                lemma_div_is_ordered(
                    pow2((h + 1) as nat) as int,
                    v as int,
                    pow2((h + 1) as nat) as int,
                );
                lemma_div_by_multiple(1, pow2((h + 1) as nat) as int);
            }
        }
        h = h + 1;
    }
    proof {
        lemma_u64_shr_is_div(v, h);
        lemma_pow2_pos(h as nat);
        lemma_fundamental_div_mod(v as int, pow2(h as nat) as int);
        lemma_mod_bound(v as int, pow2(h as nat) as int);
        // v >> h == 1, so 2^h <= v < 2^(h+1)
        assert(v < 2 * pow2(h as nat));
        lemma_pow2_unfold((h + 1) as nat);
        assert(v < pow2((h + 1) as nat));
        // the mantissa shift keeps the product inside [2^52, 2^53)
        lemma_pow2_adds(h as nat, (52 - h) as nat);
        assert(v * pow2((52 - h) as nat) >= pow2(h as nat) * pow2((52 - h) as nat)) by {
            lemma_mul_inequality(pow2(h as nat) as int, v as int, pow2((52 - h) as nat) as int);
        }
        assert(pow2(52) == 0x10_0000_0000_0000 && pow2(53) == 0x20_0000_0000_0000) by {
            lemma2_to64_rest();
        }
        assert(v * pow2((52 - h) as nat) < pow2((h + 1) as nat) * pow2((52 - h) as nat)) by {
            lemma_mul_strict_inequality(
                v as int,
                pow2((h + 1) as nat) as int,
                pow2((52 - h) as nat) as int,
            );
        }
        lemma_pow2_adds((h + 1) as nat, (52 - h) as nat);
        lemma_u64_shl_is_mul(v, (52 - h) as u64);
    }
    let mant_sh: u64 = v << (52 - h);
    let f: u64 = mant_sh - 0x10_0000_0000_0000;
    let e: u64 = h + 1023;
    let r: u64 = (e << 52) | f;
    proof {
        let ee = e;
        let ff = f;
        let rr = r;
        assert((((ee << 52) | ff) >> 52) & 0x7ff == ee && ((ee << 52) | ff) & 0xf_ffff_ffff_ffff
            == ff && ((ee << 52) | ff) >> 63 == 0 && ((ee << 52) | ff) & 0x7fff_ffff_ffff_ffff == (
        (ee << 52) | ff)) by (bit_vector)
            requires
                ee < 0x7ff,
                ff < 0x10_0000_0000_0000,
        ;
        assert(exp_of(rr) == ee && frac_of(rr) == ff && sign_of(rr) == 0 && mag_of(rr) == rr);
        // the encoded value is exactly v * 2^1074
        assert(mant_of(r) == mant_sh);
        assert(aval(r) == mant_sh * pow2((h + 1022) as nat));
        assert(aval(r) == v * pow2((52 - h) as nat) * pow2((h + 1022) as nat));
        lemma_mul_is_associative(v as int, pow2((52 - h) as nat) as int, pow2(
            (h + 1022) as nat,
        ) as int);
        lemma_pow2_adds((52 - h) as nat, (h + 1022) as nat);
        assert(aval(r) == v * pow2(1074));
        // and the magnitude stays within the bound pattern
        lemma_decompose(r);
        if e < 1053 {
            assert(mag_of(r) < (e + 1) * 0x10_0000_0000_0000);
            assert((e + 1) * 0x10_0000_0000_0000 <= 1053 * 0x10_0000_0000_0000) by {
                lemma_mul_inequality((e + 1) as int, 1053, 0x10_0000_0000_0000);
            }
        } else {
            // h == 30 forces v == 2^30 and a zero fraction field
            assert(pow2(30) == 0x4000_0000) by {
                lemma2_to64();
            }
            assert(v == 0x4000_0000);
            assert(pow2(22) == 0x400000) by {
                lemma2_to64();
            }
            assert(mant_sh == 0x4000_0000 * 0x400000);
        }
    }
    r
}

/// Any value strictly between zero and a bound has its floor strictly below
/// the bound's ceiling, and the bound's ceiling is at least one.
pub proof fn lemma_floor_lt_ceil(s: u64, e: u64)
    requires
        is_finite(s),
        is_finite(e),
        sign_of(e) == 0,
        key(s) >= 0,
        key(s) < key(e),
    ensures
        fsat(s) < fceil(e),
        fceil(e) >= 1,
{
    lemma_decompose(s);
    lemma_decompose(e);
    lemma_aval_zero(s);
    lemma_aval_zero(e);
    lemma_pow2_pos(1074);
    let u = pow2(1074) as int;
    // the bound is strictly positive, so its ceiling is at least one
    assert(mag_of(e) > 0);
    assert(aval(e) >= 1);
    assert(fceil(e) >= 1) by {
        lemma_div_is_ordered(u, aval(e) + u - 1, u);
        lemma_div_by_multiple(1, u);
    }
    if sign_of(s) == 1 {
        // saturated to zero
    } else {
        assert(mag_of(s) < mag_of(e));
        lemma_mag_aval_mono(s, e);
        assert(aval(s) < aval(e));
        // floor(x) < ceil(y) whenever x < y
        lemma_fundamental_div_mod(aval(e) - 1, u);
        let q = (aval(e) - 1) / u;
        let r = (aval(e) - 1) % u;
        lemma_mod_bound(aval(e) - 1, u);
        lemma_div_pos_is_pos(aval(e) - 1, u);
        assert((q + 1) * u == q * u + u) by {
            lemma_mul_is_distributive_add_other_way(u, q, 1);
        }
        assert(u * q == q * u) by {
            lemma_mul_is_commutative(u, q);
        }
        lemma_fundamental_div_mod_converse(aval(e) + u - 1, u, q + 1, r);
        assert(fceil(e) == q + 1);
        lemma_div_is_ordered(aval(s), aval(e) - 1, u);
        assert(ffloor(s) <= q);
    }
}

/// Ceiling of a non-negative finite double, as a machine integer.
#[verifier::rlimit(50)]
#[verifier::spinoff_prover]
pub fn ceil_pos_usize(bits: u64) -> (r: usize)
    requires
        is_finite(bits),
        sign_of(bits) == 0 || mag_of(bits) == 0,
        mag_of(bits) <= LIM_BITS,
    ensures
        r as int == fceil(bits),
        r <= LIM,
{
    proof {
        lemma_decompose(bits);
        lemma_pow2_pos(1074);
        lemma_aval_unfold(bits);
        lemma_exp_from_mag(bits, 0x41d);
        lemma_fceil_lim(bits);
    }
    let e = (bits >> 52) & 0x7ff;
    let f = bits & 0xf_ffff_ffff_ffff;
    if e == 0 {
        // subnormal: the value is in [0, 1), so the ceiling is 0 or 1
        proof {
            assert(aval(bits) == f);
            if f == 0 {
                assert((pow2(1074) - 1) as int / (pow2(1074) as int) == 0) by {
                    lemma_basic_div(pow2(1074) - 1, pow2(1074) as int);
                }
            } else {
                assert(pow2(52) < pow2(1074)) by {
                    lemma_pow2_strictly_increases(52, 1074);
                }
                assert(pow2(52) == 0x10_0000_0000_0000) by {
                    lemma2_to64_rest();
                }
                assert(fceil(bits) == 1) by {
                    lemma_fundamental_div_mod_converse(
                        f + pow2(1074) - 1,
                        pow2(1074) as int,
                        1,
                        f - 1,
                    );
                }
            }
        }
        if f == 0 {
            0
        } else {
            1
        }
    } else {
        let m = f + 0x10_0000_0000_0000;
        let d = 1075 - e;  // e <= 0x41d = 1053, so d >= 22
        proof {
            assert(pow2(53) == 0x20_0000_0000_0000) by {
                lemma2_to64_rest();
            }
            lemma_ceil_div_scale(m as int, d as nat, (e - 1) as nat);
            assert(aval(bits) + pow2(1074) - 1 == m * pow2((e - 1) as nat) + pow2(
                (d + (e - 1)) as nat,
            ) - 1);
        }
        if d >= 53 {
            // the value is below 1, and above 0 since m > 0
            proof {
                assert(m < pow2(d as nat)) by {
                    if d > 53 {
                        lemma_pow2_strictly_increases(53, d as nat);
                    }
                }
                assert(fceil(bits) == 1) by {
                    lemma_fundamental_div_mod_converse(
                        m + pow2(d as nat) - 1,
                        pow2(d as nat) as int,
                        1,
                        m - 1,
                    );
                }
            }
            1
        } else {
            let q = m >> d;
            let rem_zero = (q << d) == m;
            proof {
                lemma_pow2_pos(d as nat);
                lemma_u64_shr_is_div(m, d);
                lemma_fundamental_div_mod(m as int, pow2(d as nat) as int);
                assert(q as int == m as int / (pow2(d as nat) as int));
                assert(q * pow2(d as nat) <= m) by {
                    lemma_fundamental_div_mod(m as int, pow2(d as nat) as int);
                    lemma_mod_bound(m as int, pow2(d as nat) as int);
                    lemma_mul_is_commutative(q as int, pow2(d as nat) as int);
                }
                assert(q * pow2(d as nat) <= u64::MAX) by {
                    assert(m <= u64::MAX);
                }
                lemma_u64_shl_is_mul(q, d);
                let rr = m as int % (pow2(d as nat) as int);
                lemma_mod_bound(m as int, pow2(d as nat) as int);
                if rr == 0 {
                    assert(fceil(bits) == q) by {
                        lemma_mul_is_commutative(q as int, pow2(d as nat) as int);
                        assert(m == q * pow2(d as nat) + rr);
                        lemma_fundamental_div_mod_converse(
                            m + pow2(d as nat) - 1,
                            pow2(d as nat) as int,
                            q as int,
                            pow2(d as nat) - 1,
                        );
                    }
                } else {
                    assert(fceil(bits) == q + 1) by {
                        assert((q + 1) * pow2(d as nat) == q * pow2(d as nat) + pow2(d as nat)) by {
                            lemma_mul_is_distributive_add_other_way(
                                pow2(d as nat) as int,
                                q as int,
                                1,
                            );
                        }
                        lemma_mul_is_commutative(q as int, pow2(d as nat) as int);
                        assert(m == q * pow2(d as nat) + rr);
                        lemma_fundamental_div_mod_converse(
                            m + pow2(d as nat) - 1,
                            pow2(d as nat) as int,
                            q as int + 1,
                            rr - 1,
                        );
                    }
                }
                // bound the result: d >= 22 keeps the quotient within 2^31
                assert(q < 0x8000_0000) by {
                    assert(pow2(22) <= pow2(d as nat)) by {
                        if d > 22 {
                            lemma_pow2_strictly_increases(22, d as nat);
                        }
                    }
                    assert(pow2(22) == 0x400000) by {
                        lemma2_to64();
                    }
                    lemma_div_is_ordered_by_denominator(m as int, pow2(22) as int, pow2(
                        d as nat,
                    ) as int);
                    assert(m as int / 0x400000 < 0x8000_0000);
                }
            }
            if rem_zero {
                q as usize
            } else {
                (q + 1) as usize
            }
        }
    }
}


/// 2^k as a 128-bit machine integer.
fn pow2_u128(k: u64) -> (r: u128)
    requires
        k <= 100,
    ensures
        r as nat == pow2(k as nat),
        r >= 1,
{
    proof {
        assert(pow2(0) == 1) by {
            lemma2_to64();
        }
        assert(pow2(64) == 0x1_0000_0000_0000_0000 && pow2(36) == 0x10_0000_0000) by {
            lemma2_to64();
            lemma2_to64_rest();
        }
        lemma_pow2_adds(64, 36);
    }
    let mut i: u64 = 0;
    let mut r: u128 = 1;
    while i < k
        invariant
            i <= k <= 100,
            r as nat == pow2(i as nat),
            pow2(100) == 0x10_0000_0000_0000_0000_0000_0000,
        decreases k - i,
    {
        proof {
            lemma_pow2_unfold((i + 1) as nat);
            assert(pow2((i + 1) as nat) <= pow2(100)) by {
                if i + 1 < 100 {
                    lemma_pow2_strictly_increases((i + 1) as nat, 100);
                }
            }
        }
        r = r * 2;
        i = i + 1;
    }
    proof {
        lemma_pow2_pos(k as nat);
    }
    r
}

/// The split point `ceil(gamma * n)` of `n` observations at fraction `gamma`:
/// the exact ceiling of the product of `n` and the value `gamma` encodes.
pub open spec fn split_spec(n: int, gamma: u64) -> int {
    (n * aval(gamma) + pow2(1074) - 1) / (pow2(1074) as int)
}

/// A magnitude no greater than the pattern of 1.0 encodes a value of at most
/// one.
proof fn lemma_aval_le_one(bits: u64)
    requires
        is_finite(bits),
        mag_of(bits) <= ONE_BITS,
    ensures
        aval(bits) <= pow2(1074),
        mag_of(bits) == ONE_BITS ==> aval(bits) == pow2(1074),
{
    assert(is_finite(ONE_BITS) && exp_of(ONE_BITS) == 0x3ff && frac_of(ONE_BITS) == 0 && sign_of(
        ONE_BITS,
    ) == 0 && mag_of(ONE_BITS) == ONE_BITS) by (bit_vector);
    assert(aval(ONE_BITS) == 0x10_0000_0000_0000 * pow2(1022));
    assert(pow2(52) == 0x10_0000_0000_0000) by {
        lemma2_to64_rest();
    }
    lemma_pow2_adds(52, 1022);
    lemma_mag_aval_mono(bits, ONE_BITS);
}

/// Exact split point: the least count at or above `gamma * n`, for a
/// fraction `gamma` between zero and one.
pub fn split_point(n: usize, gamma: u64) -> (r: usize)
    requires
        is_finite(gamma),
        key(gamma) >= 0,
        mag_of(gamma) <= ONE_BITS,
        n <= LIM,
    ensures
        r as int == split_spec(n as int, gamma),
        r <= n,
        mag_of(gamma) == 0 ==> r == 0,
        mag_of(gamma) > 0 && n >= 1 ==> r >= 1,
        mag_of(gamma) == ONE_BITS ==> r == n,
{
    proof {
        lemma_decompose(gamma);
        lemma_exp_from_mag(gamma, 0x3ff);
        lemma_pow2_pos(1074);
        lemma_aval_le_one(gamma);
        lemma_aval_zero(gamma);
        let u = pow2(1074) as int;
        // upper bound: gamma at most one keeps the split at or below n
        assert(n * aval(gamma) <= n * u) by {
            lemma_mul_inequality(aval(gamma), u, n as int);
            lemma_mul_is_commutative(aval(gamma), n as int);
            lemma_mul_is_commutative(u, n as int);
        }
        assert((n * u + u - 1) / u == n) by {
            lemma_fundamental_div_mod_converse(n * u + u - 1, u, n as int, u - 1);
        }
        assert(split_spec(n as int, gamma) <= n) by {
            lemma_mul_nonnegative(n as int, aval(gamma));
            lemma_div_is_ordered(n * aval(gamma) + u - 1, n * u + u - 1, u);
        }
        assert(split_spec(n as int, gamma) >= 0) by {
            lemma_mul_nonnegative(n as int, aval(gamma));
            lemma_div_pos_is_pos(n * aval(gamma) + u - 1, u);
        }
        // lower bound: a positive fraction of at least one observation splits
        // at least one off
        if mag_of(gamma) > 0 && n >= 1 {
            lemma_aval_zero(gamma);
            assert(n * aval(gamma) >= 1 * 1) by {
                lemma_mul_inequality(1, n as int, aval(gamma));
                lemma_mul_inequality(1, aval(gamma), 1);
            }
            assert(split_spec(n as int, gamma) >= 1) by {
                lemma_div_is_ordered(u, n * aval(gamma) + u - 1, u);
                lemma_div_by_multiple(1, u);
            }
        }
    }
    if (gamma & 0x7fff_ffff_ffff_ffff) == 0 {
        proof {
            assert(n as int * 0 == 0) by {
                lemma_mul_basics(n as int);
            }
            assert((pow2(1074) - 1) as int / (pow2(1074) as int) == 0) by {
                lemma_basic_div(pow2(1074) - 1, pow2(1074) as int);
            }
        }
        return 0;
    }
    if n == 0 {
        proof {
            assert(0 * aval(gamma) == 0) by {
                lemma_mul_basics(aval(gamma));
            }
            assert((pow2(1074) - 1) as int / (pow2(1074) as int) == 0) by {
                lemma_basic_div(pow2(1074) - 1, pow2(1074) as int);
            }
        }
        return 0;
    }
    let e = (gamma >> 52) & 0x7ff;
    let f = gamma & 0xf_ffff_ffff_ffff;
    let m: u64 = if e == 0 {
        f
    } else {
        f + 0x10_0000_0000_0000
    };
    let s: u64 = if e == 0 {
        1
    } else {
        e
    };
    let d: u64 = 1075 - s;  // s <= 1023, so d >= 52
    proof {
        // bound the product: below 2^83
        assert(pow2(30) == 0x4000_0000 && pow2(53) == 0x20_0000_0000_0000) by {
            lemma2_to64();
            lemma2_to64_rest();
        }
        assert((n as int * m as int) < 0x4000_0000 * 0x20_0000_0000_0000) by {
            lemma_mul_inequality(n as int, 0x4000_0000, m as int);
            lemma_mul_strict_inequality(m as int, 0x20_0000_0000_0000, 0x4000_0000);
            lemma_mul_is_commutative(m as int, 0x4000_0000);
        }
        lemma_pow2_adds(30, 53);
    }
    let p: u128 = (n as u128) * (m as u128);
    proof {
        let u = pow2(1074) as int;
        assert(m >= 1);
        assert(aval(gamma) == m * pow2((s - 1) as nat));
        // the spec ceiling rescales to the mantissa grid
        assert(n as int * (m as int * pow2((s - 1) as nat)) == (n as int * m as int) * pow2(
            (s - 1) as nat,
        )) by {
            lemma_mul_is_associative(n as int, m as int, pow2((s - 1) as nat) as int);
        }
        lemma_ceil_div_scale(n as int * m as int, d as nat, (s - 1) as nat);
        assert(split_spec(n as int, gamma) == (n as int * m as int + pow2(d as nat) - 1) / (pow2(
            d as nat,
        ) as int));
        assert(p < pow2(83));
        assert(p >= 1) by {
            lemma_mul_inequality(1, n as int, m as int);
            lemma_mul_basics(m as int);
        }
    }
    if d >= 83 {
        proof {
            assert(pow2(83) <= pow2(d as nat)) by {
                if d > 83 {
                    lemma_pow2_strictly_increases(83, d as nat);
                }
            }
            assert((p as int + pow2(d as nat) - 1) / (pow2(d as nat) as int) == 1) by {
                lemma_pow2_pos(d as nat);
                lemma_fundamental_div_mod_converse(
                    p as int + pow2(d as nat) - 1,
                    pow2(d as nat) as int,
                    1,
                    p as int - 1,
                );
            }
        }
        1
    } else {
        let dd: u128 = pow2_u128(d);
        proof {
            assert(dd as nat <= pow2(82)) by {
                if d < 82 {
                    lemma_pow2_strictly_increases(d as nat, 82);
                }
            }
            assert(pow2(82) < pow2(83) && pow2(83) < pow2(84)) by {
                lemma_pow2_strictly_increases(82, 83);
                lemma_pow2_strictly_increases(83, 84);
            }
            assert(pow2(84) == 0x1000000000000000000000) by {
                lemma2_to64();
                lemma2_to64_rest();
                lemma_pow2_adds(64, 20);
            }
        }
        let q: u128 = (p + dd - 1) / dd;
        proof {
            assert(pow2(83) < pow2(100)) by {
                lemma_pow2_strictly_increases(83, 100);
            }
            assert(q as int == split_spec(n as int, gamma));
        }
        q as usize
    }
}


/// The smallest sum of two value magnitudes (in units of 2^-1074) whose
/// difference of patterns rounds to infinity: the rounding threshold
/// `2^1024 - 2^970` (the midpoint between the largest finite double and
/// 2^1024, which ties to the even 2^1024) scaled by 2^1074.
pub open spec fn huge_sum(a: u64, b: u64) -> bool {
    aval(a) + aval(b) >= (pow2(54) - 1) * pow2(2044)
}

/// Whether `m1 * 2^p1 + m2 * 2^p2` reaches `(2^54 - 1) * 2^2044`, for
/// 53-bit significands; exact, by integer case analysis.
fn mag_sum_reaches(m1: u64, p1: u64, m2: u64, p2: u64) -> (r: bool)
    requires
        m1 < 0x20_0000_0000_0000,
        m2 < 0x20_0000_0000_0000,
        p2 <= p1,
        p1 <= 2045,
    ensures
        r == ((m1 * pow2(p1 as nat) + m2 * pow2(p2 as nat)) >= (pow2(54) - 1) * pow2(2044)),
{
    proof {
        assert(pow2(53) == 0x20_0000_0000_0000 && pow2(55) == 0x80_0000_0000_0000 && pow2(54)
            == 0x40_0000_0000_0000) by {
            lemma2_to64_rest();
        }
        lemma_pow2_pos(p1 as nat);
        lemma_pow2_pos(p2 as nat);
        lemma_pow2_pos(2044);
        lemma_mul_nonnegative(m1 as int, pow2(p1 as nat) as int);
        lemma_mul_nonnegative(m2 as int, pow2(p2 as nat) as int);
        // each term is below 2^(53 + p)
        assert(m1 * pow2(p1 as nat) < pow2((53 + p1) as nat)) by {
            lemma_mul_strict_inequality(m1 as int, pow2(53) as int, pow2(p1 as nat) as int);
            lemma_pow2_adds(53, p1 as nat);
        }
        assert(m2 * pow2(p2 as nat) < pow2((53 + p2) as nat)) by {
            lemma_mul_strict_inequality(m2 as int, pow2(53) as int, pow2(p2 as nat) as int);
            lemma_pow2_adds(53, p2 as nat);
        }
        // and the threshold is between 2^2097 and 2^2098
        assert((pow2(54) - 1) * pow2(2044) == pow2(2098) - pow2(2044)) by {
            lemma_mul_is_distributive_sub_other_way(pow2(2044) as int, pow2(54) as int, 1);
            lemma_pow2_adds(54, 2044);
        }
        assert(pow2(2044) < pow2(2097) && pow2(2097) < pow2(2098)) by {
            lemma_pow2_strictly_increases(2044, 2097);
            lemma_pow2_strictly_increases(2097, 2098);
        }
        assert(pow2(2097) + pow2(2097) == pow2(2098)) by {
            lemma_pow2_unfold(2098);
        }
    }
    if p1 <= 1988 {
        // the sum stays below 2^2042
        proof {
            assert(pow2((53 + p1) as nat) <= pow2(2041)) by {
                if 53 + p1 < 2041 {
                    lemma_pow2_strictly_increases((53 + p1) as nat, 2041);
                }
            }
            assert(pow2((53 + p2) as nat) <= pow2(2041)) by {
                if 53 + p2 < 2041 {
                    lemma_pow2_strictly_increases((53 + p2) as nat, 2041);
                }
            }
            assert(pow2(2041) + pow2(2041) == pow2(2042)) by {
                lemma_pow2_unfold(2042);
            }
            assert(pow2(2042) < pow2(2097)) by {
                lemma_pow2_strictly_increases(2042, 2097);
            }
        }
        false
    } else if p1 - p2 >= 57 {
        // the smaller term cannot bridge a gap of the larger term's grid
        let sh = pow2_u128(p1 - 1989);
        proof {
            assert(sh as nat <= pow2(56)) by {
                if p1 - 1989 < 56 {
                    lemma_pow2_strictly_increases((p1 - 1989) as nat, 56);
                }
            }
            assert((m1 as int) * (sh as int) < pow2(53) * pow2(56)) by {
                lemma_mul_strict_inequality(m1 as int, pow2(53) as int, sh as int);
                lemma_mul_inequality(sh as int, pow2(56) as int, pow2(53) as int);
                lemma_mul_is_commutative(pow2(53) as int, sh as int);
                lemma_mul_is_commutative(pow2(53) as int, pow2(56) as int);
            }
            lemma_pow2_adds(53, 56);
            assert(pow2(109) == 0x2000_0000_0000_0000_0000_0000_0000) by {
                lemma2_to64();
                lemma2_to64_rest();
                lemma_pow2_adds(64, 45);
            }
        }
        let c1: u128 = (m1 as u128) * sh;
        let thr: u128 = 0x1fff_ffff_ffff_ff80_0000_0000_0000;
        proof {
            assert(thr as int == (pow2(54) - 1) * pow2(55)) by {
                lemma_mul_is_distributive_sub_other_way(pow2(55) as int, pow2(54) as int, 1);
                lemma_pow2_adds(54, 55);
                assert(pow2(109) == 0x2000_0000_0000_0000_0000_0000_0000) by {
                    lemma2_to64();
                    lemma2_to64_rest();
                    lemma_pow2_adds(64, 45);
                }
            }
            // scaling both sides by 2^1989 recovers the original comparison
            assert((c1 as int) * pow2(1989) == m1 * pow2(p1 as nat)) by {
                lemma_mul_is_associative(m1 as int, pow2((p1 - 1989) as nat) as int, pow2(
                    1989,
                ) as int);
                lemma_pow2_adds((p1 - 1989) as nat, 1989);
            }
            assert((thr as int) * pow2(1989) == (pow2(54) - 1) * pow2(2044)) by {
                lemma_mul_is_associative((pow2(54) - 1) as int, pow2(55) as int, pow2(1989) as int);
                lemma_pow2_adds(55, 1989);
            }
            if c1 >= thr {
                assert((thr as int) * pow2(1989) <= (c1 as int) * pow2(1989)) by {
                    lemma_mul_inequality(thr as int, c1 as int, pow2(1989) as int);
                }
            } else {
                // the larger term falls one full step short on the grid both
                // sides share
                let g: nat = if p1 < 2044 {
                    p1 as nat
                } else {
                    2044
                };
                assert(m1 * pow2(p1 as nat) < (pow2(54) - 1) * pow2(2044)) by {
                    lemma_mul_strict_inequality(c1 as int, thr as int, pow2(1989) as int);
                }
                let x = m1 * pow2((p1 - g) as nat);
                let y = (pow2(54) - 1) * pow2((2044 - g) as nat);
                assert(x * pow2(g) == m1 * pow2(p1 as nat)) by {
                    lemma_mul_is_associative(m1 as int, pow2((p1 - g) as nat) as int, pow2(
                        g,
                    ) as int);
                    lemma_pow2_adds((p1 - g) as nat, g);
                }
                assert(y * pow2(g) == (pow2(54) - 1) * pow2(2044)) by {
                    lemma_mul_is_associative(
                        (pow2(54) - 1) as int,
                        pow2((2044 - g) as nat) as int,
                        pow2(g) as int,
                    );
                    lemma_pow2_adds((2044 - g) as nat, g);
                }
                assert(x < y) by {
                    lemma_pow2_pos(g);
                    lemma_mul_strict_inequality_converse(x, y, pow2(g) as int);
                }
                assert(x * pow2(g) <= y * pow2(g) - pow2(g)) by {
                    lemma_mul_inequality(x + 1, y, pow2(g) as int);
                    lemma_mul_is_distributive_add_other_way(pow2(g) as int, x, 1);
                }
                // and the smaller term is below that step
                assert(pow2((53 + p2) as nat) <= pow2(g)) by {
                    if 53 + p2 < g {
                        lemma_pow2_strictly_increases((53 + p2) as nat, g);
                    }
                }
            }
        }
        c1 >= thr
    } else {
        // close scales: compare exactly on the smaller term's grid
        let sh = pow2_u128(p1 - p2);
        proof {
            assert(sh as nat <= pow2(56)) by {
                if p1 - p2 < 56 {
                    lemma_pow2_strictly_increases((p1 - p2) as nat, 56);
                }
            }
            assert((m1 as int) * (sh as int) < pow2(53) * pow2(56)) by {
                lemma_mul_strict_inequality(m1 as int, pow2(53) as int, sh as int);
                lemma_mul_inequality(sh as int, pow2(56) as int, pow2(53) as int);
                lemma_mul_is_commutative(pow2(53) as int, sh as int);
                lemma_mul_is_commutative(pow2(53) as int, pow2(56) as int);
            }
            lemma_pow2_adds(53, 56);
            assert(pow2(109) < pow2(110) && pow2(53) < pow2(109)) by {
                lemma_pow2_strictly_increases(109, 110);
                lemma_pow2_strictly_increases(53, 109);
            }
            assert(pow2(110) == 0x4000_0000_0000_0000_0000_0000_0000) by {
                lemma2_to64();
                lemma2_to64_rest();
                lemma_pow2_adds(64, 46);
            }
            // the sum factors through the smaller scale
            assert(m1 * pow2(p1 as nat) == ((m1 as int) * (sh as int)) * pow2(p2 as nat)) by {
                lemma_mul_is_associative(m1 as int, sh as int, pow2(p2 as nat) as int);
                lemma_pow2_adds((p1 - p2) as nat, p2 as nat);
            }
        }
        let a: u128 = (m1 as u128) * sh + (m2 as u128);
        proof {
            assert((a as int) * pow2(p2 as nat) == m1 * pow2(p1 as nat) + m2 * pow2(p2 as nat)) by {
                lemma_mul_is_distributive_add_other_way(
                    pow2(p2 as nat) as int,
                    (m1 as int) * (sh as int),
                    m2 as int,
                );
                lemma_mul_is_associative(m1 as int, sh as int, pow2(p2 as nat) as int);
                lemma_pow2_adds((p1 - p2) as nat, p2 as nat);
            }
        }
        if p2 <= 1987 {
            // too small overall: the sum stays below 2^2097
            proof {
                assert((a as int) * pow2(p2 as nat) < pow2(110) * pow2(1987)) by {
                    lemma_mul_strict_inequality(a as int, pow2(110) as int, pow2(p2 as nat) as int);
                    assert(pow2(p2 as nat) <= pow2(1987)) by {
                        if p2 < 1987 {
                            lemma_pow2_strictly_increases(p2 as nat, 1987);
                        }
                    }
                    lemma_mul_inequality(pow2(p2 as nat) as int, pow2(1987) as int, pow2(
                        110,
                    ) as int);
                    lemma_mul_is_commutative(pow2(110) as int, pow2(p2 as nat) as int);
                    lemma_mul_is_commutative(pow2(110) as int, pow2(1987) as int);
                }
                lemma_pow2_adds(110, 1987);
            }
            false
        } else if p2 <= 2044 {
            let sh3 = pow2_u128(2044 - p2);
            proof {
                assert(0x3f_ffff_ffff_ffff * (sh3 as int) <= pow2(54) * pow2(56)) by {
                    assert(sh3 as nat <= pow2(56)) by {
                        if 2044 - p2 < 56 {
                            lemma_pow2_strictly_increases((2044 - p2) as nat, 56);
                        }
                    }
                    lemma_mul_inequality(0x3f_ffff_ffff_ffff, pow2(54) as int, sh3 as int);
                    lemma_mul_inequality(sh3 as int, pow2(56) as int, pow2(54) as int);
                    lemma_mul_is_commutative(pow2(54) as int, sh3 as int);
                    lemma_mul_is_commutative(pow2(54) as int, pow2(56) as int);
                }
                lemma_pow2_adds(54, 56);
            }
            let t: u128 = 0x3f_ffff_ffff_ffff * sh3;
            proof {
                // the threshold factors through the same grid
                assert((t as int) * pow2(p2 as nat) == (pow2(54) - 1) * pow2(2044)) by {
                    lemma_mul_is_associative(
                        (pow2(54) - 1) as int,
                        pow2((2044 - p2) as nat) as int,
                        pow2(p2 as nat) as int,
                    );
                    lemma_pow2_adds((2044 - p2) as nat, p2 as nat);
                }
                if a >= t {
                    lemma_mul_inequality(t as int, a as int, pow2(p2 as nat) as int);
                } else {
                    lemma_mul_strict_inequality(a as int, t as int, pow2(p2 as nat) as int);
                }
            }
            a >= t
        } else {
            // scales above the threshold's grid: rescale the sum instead
            let sh2 = pow2_u128(p2 - 2044);
            proof {
                assert(sh2 as nat <= pow2(1)) by {
                    if p2 - 2044 < 1 {
                        lemma_pow2_strictly_increases((p2 - 2044) as nat, 1);
                    }
                }
                assert(pow2(1) == 2) by {
                    lemma2_to64();
                }
                assert((a as int) * (sh2 as int) < pow2(110) * 2) by {
                    lemma_mul_strict_inequality(a as int, pow2(110) as int, sh2 as int);
                    lemma_mul_inequality(sh2 as int, 2, pow2(110) as int);
                    lemma_mul_is_commutative(pow2(110) as int, sh2 as int);
                    lemma_mul_is_commutative(pow2(110) as int, 2);
                }
            }
            let a2: u128 = a * sh2;
            proof {
                assert((a2 as int) * pow2(2044) == (a as int) * pow2(p2 as nat)) by {
                    lemma_mul_is_associative(a as int, sh2 as int, pow2(2044) as int);
                    lemma_pow2_adds((p2 - 2044) as nat, 2044);
                }
                if a2 >= 0x3f_ffff_ffff_ffff {
                    lemma_mul_inequality(0x3f_ffff_ffff_ffff, a2 as int, pow2(2044) as int);
                } else {
                    lemma_mul_strict_inequality(a2 as int, 0x3f_ffff_ffff_ffff, pow2(2044) as int);
                }
            }
            a2 >= 0x3f_ffff_ffff_ffff
        }
    }
}

/// Whether the sum of the two finite patterns' value magnitudes reaches the
/// rounding threshold to infinity.
pub fn bits_huge_sum(a: u64, b: u64) -> (r: bool)
    requires
        is_finite(a),
        is_finite(b),
    ensures
        r == huge_sum(a, b),
{
    proof {
        lemma_decompose(a);
        lemma_decompose(b);
    }
    let ea = (a >> 52) & 0x7ff;
    let fa = a & 0xf_ffff_ffff_ffff;
    let eb = (b >> 52) & 0x7ff;
    let fb = b & 0xf_ffff_ffff_ffff;
    let ma: u64 = if ea == 0 {
        fa
    } else {
        fa + 0x10_0000_0000_0000
    };
    let pa: u64 = if ea == 0 {
        0
    } else {
        ea - 1
    };
    let mb: u64 = if eb == 0 {
        fb
    } else {
        fb + 0x10_0000_0000_0000
    };
    let pb: u64 = if eb == 0 {
        0
    } else {
        eb - 1
    };
    if pa >= pb {
        mag_sum_reaches(ma, pa, mb, pb)
    } else {
        mag_sum_reaches(mb, pb, ma, pa)
    }
}


/// A bin index below the ceiling of a positive bound encodes to a pattern
/// strictly below the bound.
pub proof fn lemma_uint_below_ceil(r: u64, b: int, e: u64)
    requires
        is_uint_bits(r, b),
        0 <= b,
        is_finite(e),
        sign_of(e) == 0,
        b < fceil(e),
    ensures
        crate::fbits::flt(r, e),
        key(r) >= 0,
{
    lemma_decompose(r);
    lemma_decompose(e);
    lemma_aval_zero(r);
    lemma_aval_zero(e);
    lemma_pow2_pos(1074);
    let u = pow2(1074) as int;
    let c = fceil(e);
    // the ceiling overshoots the bound by less than one grid step
    assert(c * u <= aval(e) + u - 1) by {
        lemma_fundamental_div_mod(aval(e) + u - 1, u);
        lemma_mod_bound(aval(e) + u - 1, u);
        lemma_mul_is_commutative(c, u);
    }
    assert(b * u <= (c - 1) * u) by {
        lemma_mul_inequality(b, c - 1, u);
    }
    assert((c - 1) * u == c * u - u) by {
        lemma_mul_is_distributive_sub_other_way(u, c, 1);
    }
    assert(aval(r) == b * u);
    assert(aval(r) < aval(e));
    lemma_mag_aval_mono(r, e);
    assert(key(r) < key(e));
}


/// Bounds of the split point: it never exceeds the number of observations,
/// is zero exactly for a zero fraction, at least one for a positive fraction
/// of at least one observation, and the whole set for a fraction of one.
pub proof fn lemma_split_bounds(n: int, gamma: u64)
    requires
        0 <= n,
        is_finite(gamma),
        key(gamma) >= 0,
        mag_of(gamma) <= ONE_BITS,
    ensures
        0 <= split_spec(n, gamma) <= n,
        mag_of(gamma) == 0 ==> split_spec(n, gamma) == 0,
        mag_of(gamma) > 0 && n >= 1 ==> split_spec(n, gamma) >= 1,
        mag_of(gamma) == ONE_BITS ==> split_spec(n, gamma) == n,
{
    lemma_decompose(gamma);
    lemma_pow2_pos(1074);
    lemma_aval_le_one(gamma);
    lemma_aval_zero(gamma);
    let u = pow2(1074) as int;
    assert(n * aval(gamma) <= n * u) by {
        lemma_mul_inequality(aval(gamma), u, n);
        lemma_mul_is_commutative(aval(gamma), n);
        lemma_mul_is_commutative(u, n);
    }
    assert((n * u + u - 1) / u == n) by {
        lemma_fundamental_div_mod_converse(n * u + u - 1, u, n, u - 1);
    }
    assert(split_spec(n, gamma) <= n) by {
        lemma_mul_nonnegative(n, aval(gamma));
        lemma_div_is_ordered(n * aval(gamma) + u - 1, n * u + u - 1, u);
    }
    assert(split_spec(n, gamma) >= 0) by {
        lemma_mul_nonnegative(n, aval(gamma));
        lemma_div_pos_is_pos(n * aval(gamma) + u - 1, u);
    }
    if mag_of(gamma) == 0 {
        assert(n * 0 == 0) by {
            lemma_mul_basics(n);
        }
        assert((u - 1) as int / u == 0) by {
            lemma_basic_div(u - 1, u);
        }
    }
    if mag_of(gamma) > 0 && n >= 1 {
        assert(n * aval(gamma) >= 1 * 1) by {
            lemma_mul_inequality(1, n, aval(gamma));
            lemma_mul_inequality(1, aval(gamma), 1);
        }
        assert(split_spec(n, gamma) >= 1) by {
            lemma_div_is_ordered(u, n * aval(gamma) + u - 1, u);
            lemma_div_by_multiple(1, u);
        }
    }
    if mag_of(gamma) == ONE_BITS {
        assert(n * aval(gamma) == n * u);
    }
}

} // verus!
