//! Tolerant equality of two finite binary64 values, decided exactly over the
//! integers: a difference of at most the epsilon is equal (absolute
//! tolerance, which dominates near zero), and so is a difference below
//! epsilon times the smaller magnitude (relative tolerance, which dominates
//! away from zero). NaN never equals anything but a bit-identical pattern,
//! and an infinity equals only a bit-identical one.

use vstd::prelude::*;
use vstd::arithmetic::power2::{pow2, lemma_pow2_adds, lemma_pow2_pos, lemma_pow2_strictly_increases};
use vstd::arithmetic::mul::{
    lemma_mul_inequality, lemma_mul_strict_inequality, lemma_mul_left_inequality,
    lemma_mul_is_associative, lemma_mul_is_commutative, lemma_mul_is_distributive_add,
    lemma_mul_is_distributive_sub, lemma_mul_strictly_positive, lemma_mul_basics,
};
use crate::bits::{
    EPSILON_MANTISSA, EPSILON_SCALE,
    spec_is_nan, spec_is_inf, spec_is_valid, spec_sign, spec_mantissa, spec_scale, spec_mag,
    spec_val, decompose, exec_is_valid,
};
use crate::dyadic::{cmp_mag, shl_u128};

verus! {

/// Magnitude of a non-negative difference of two integers.
pub open spec fn spec_abs(x: int) -> nat {
    if x < 0 {
        (-x) as nat
    } else {
        x as nat
    }
}

/// The smaller of two magnitudes.
pub open spec fn spec_min_nat(x: nat, y: nat) -> nat {
    if x < y {
        x
    } else {
        y
    }
}

/// The epsilon's magnitude in units of 2^-1074.
pub open spec fn eps_mag() -> nat {
    (EPSILON_MANTISSA as nat) * pow2(EPSILON_SCALE as nat)
}

/// The epsilon constant's pattern denotes exactly the epsilon magnitude the
/// tolerant relation uses.
pub proof fn lemma_epsilon_pattern()
    ensures
        spec_mag(crate::bits::EPSILON_BITS) == eps_mag(),
        spec_is_valid(crate::bits::EPSILON_BITS),
        !spec_sign(crate::bits::EPSILON_BITS),
{
    assert((0x3D71_9799_812D_EA11u64 >> 52) & 0x7FF == 983
        && 0x3D71_9799_812D_EA11u64 & 0x000F_FFFF_FFFF_FFFF == 0x1_9799_812D_EA11
        && !(0x3D71_9799_812D_EA11u64 >> 63 == 1)) by (bit_vector);
    assert(spec_mantissa(crate::bits::EPSILON_BITS) == EPSILON_MANTISSA);
    assert(spec_scale(crate::bits::EPSILON_BITS) == EPSILON_SCALE);
}

/// Tolerant equality of two exact values, both in units of 2^-1074: the
/// difference is within the epsilon, or within the epsilon scaled by the
/// smaller magnitude.
pub open spec fn spec_tol_eq_vals(x: int, y: int) -> bool {
    let d = spec_abs(x - y);
    d <= eps_mag() || d * pow2(1074) < eps_mag() * spec_min_nat(spec_abs(x), spec_abs(y))
}

/// Tolerant equality of two bit patterns: bit-identical patterns are equal;
/// otherwise NaN equals nothing, an infinity equals nothing, and finite
/// values compare by `spec_tol_eq_vals`.
pub open spec fn spec_tol_eq(a: u64, b: u64) -> bool {
    if a == b {
        true
    } else if spec_is_nan(a) || spec_is_nan(b) {
        false
    } else if spec_is_inf(a) || spec_is_inf(b) {
        false
    } else {
        spec_tol_eq_vals(spec_val(a), spec_val(b))
    }
}

/// The difference and the smaller magnitude of two signed values, read off
/// their signs and ordered magnitudes.
proof fn lemma_signed_diff(x: int, y: int, sx: bool, sy: bool, mx: nat, my: nat)
    requires
        x == if sx { -(mx as int) } else { mx as int },
        y == if sy { -(my as int) } else { my as int },
        mx >= my,
    ensures
        sx == sy ==> spec_abs(x - y) == mx - my,
        (sx != sy && !(mx == 0 && my == 0)) ==> spec_abs(x - y) == mx + my,
        mx == 0 && my == 0 ==> spec_abs(x - y) == 0,
        spec_min_nat(spec_abs(x), spec_abs(y)) == my,
{
}

/// Canonical decomposition facts used throughout: the mantissa is below
/// 2^53, and a positive scale forces a normal mantissa.
pub(crate) open spec fn canonical(m: u64, e: u64) -> bool {
    m < 0x20_0000_0000_0000 && (e > 0 ==> m >= 0x10_0000_0000_0000) && e <= 2045
}

/// Ordered magnitudes have ordered scales.
pub(crate) proof fn lemma_mag_order_scales(ma: u64, ea: u64, mb: u64, eb: u64)
    requires
        canonical(ma, ea),
        canonical(mb, eb),
        (ma as nat) * pow2(ea as nat) >= (mb as nat) * pow2(eb as nat),
    ensures
        mb > 0 ==> ea >= eb,
{
    if mb > 0 && ea < eb {
        // B is normal, so A < 2^53 * 2^ea <= 2^52 * 2^eb <= B: contradiction.
        assert((ma as nat) * pow2(ea as nat) < pow2(53) * pow2(ea as nat)) by {
            lemma_pow2_pos(ea as nat);
            vstd::arithmetic::power2::lemma2_to64();
        vstd::arithmetic::power2::lemma2_to64_rest();
            if ma == 0 {
                lemma_mul_strictly_positive(pow2(53) as int, pow2(ea as nat) as int);
            } else {
                lemma_mul_strict_inequality(ma as int, pow2(53) as int, pow2(ea as nat) as int);
            }
        }
        lemma_pow2_adds(53, ea as nat);
        assert(pow2(53 + ea as nat) <= pow2(52 + eb as nat)) by {
            if (53 + ea as nat) < (52 + eb as nat) {
                lemma_pow2_strictly_increases(53 + ea as nat, 52 + eb as nat);
            }
        }
        lemma_pow2_adds(52, eb as nat);
        assert(pow2(52) * pow2(eb as nat) <= (mb as nat) * pow2(eb as nat)) by {
            lemma_pow2_pos(eb as nat);
            vstd::arithmetic::power2::lemma2_to64();
        vstd::arithmetic::power2::lemma2_to64_rest();
            lemma_mul_inequality(pow2(52) as int, mb as int, pow2(eb as nat) as int);
        }
        vstd::arithmetic::power2::lemma2_to64();
        vstd::arithmetic::power2::lemma2_to64_rest();
    }
}

/// With the scales at least 75 apart, the relative-tolerance test fails: the
/// difference dwarfs the epsilon scaled by the smaller magnitude.
proof fn lemma_far_relative_fails(ma: u64, ea: u64, mb: u64, eb: u64, d: nat)
    requires
        canonical(ma, ea),
        canonical(mb, eb),
        ea >= eb + 75,
        ma >= 0x10_0000_0000_0000,
        d >= (ma as nat) * pow2(ea as nat) - (mb as nat) * pow2(eb as nat),
    ensures
        !(d * pow2(1074) < eps_mag() * spec_min_nat((ma as nat) * pow2(ea as nat), (mb as nat) * pow2(eb as nat))),
{
    let a = (ma as nat) * pow2(ea as nat);
    let b = (mb as nat) * pow2(eb as nat);
    vstd::arithmetic::power2::lemma2_to64();
        vstd::arithmetic::power2::lemma2_to64_rest();
    // b < 2^(53 + eb) <= 2^(ea - 22)
    assert(b < pow2(53 + eb as nat)) by {
        lemma_pow2_pos(eb as nat);
        lemma_pow2_adds(53, eb as nat);
        if mb == 0 {
            lemma_pow2_pos(53 + eb as nat);
            lemma_mul_basics(pow2(eb as nat) as int);
        } else {
            lemma_mul_strict_inequality(mb as int, pow2(53) as int, pow2(eb as nat) as int);
        }
    }
    assert(pow2(53 + eb as nat) <= pow2((ea - 22) as nat)) by {
        if (53 + eb as nat) < ((ea - 22) as nat) {
            lemma_pow2_strictly_increases(53 + eb as nat, (ea - 22) as nat);
        }
    }
    // a >= 2^(52 + ea), so d > a - 2^(ea - 22) >= 2^(51 + ea)
    assert(pow2(52 + ea as nat) <= a) by {
        lemma_pow2_adds(52, ea as nat);
        lemma_pow2_pos(ea as nat);
        lemma_mul_inequality(pow2(52) as int, ma as int, pow2(ea as nat) as int);
    }
    assert(pow2((ea - 22) as nat) <= pow2(51 + ea as nat)) by {
        lemma_pow2_strictly_increases((ea - 22) as nat, 51 + ea as nat);
    }
    assert(pow2(51 + ea as nat) + pow2(51 + ea as nat) == pow2(52 + ea as nat)) by {
        lemma_pow2_adds(51 + ea as nat, 1);
    }
    assert(d > pow2(51 + ea as nat) - 1) by {
        assert(a - b > pow2(52 + ea as nat) - pow2((ea - 22) as nat));
    }
    // the tolerance side: eps * min <= 2^(53 + 982) * 2^(53 + eb) = 2^(1088 + eb)
    let tol = eps_mag() * spec_min_nat(a, b);
    assert(spec_min_nat(a, b) <= b) by {
        assert(b <= a) by {
            assert(pow2(53 + eb as nat) <= pow2(52 + ea as nat)) by {
                if (53 + eb as nat) < (52 + ea as nat) {
                    lemma_pow2_strictly_increases(53 + eb as nat, 52 + ea as nat);
                }
            }
        }
    }
    assert(eps_mag() < pow2(53 + 982)) by {
        lemma_pow2_adds(53, 982);
        lemma_pow2_pos(982);
        lemma_mul_strict_inequality(EPSILON_MANTISSA as int, pow2(53) as int, pow2(982) as int);
    }
    assert(tol <= eps_mag() * b) by {
        if eps_mag() > 0 {
            lemma_mul_left_inequality(eps_mag() as int, spec_min_nat(a, b) as int, b as int);
        }
    }
    assert(eps_mag() * b <= pow2(1035) * b) by {
        assert(eps_mag() <= pow2(1035)) by {
            assert(pow2(53 + 982) == pow2(1035));
        }
        lemma_mul_inequality(eps_mag() as int, pow2(1035) as int, b as int);
        lemma_mul_is_commutative(eps_mag() as int, b as int);
        lemma_mul_is_commutative(pow2(1035) as int, b as int);
    }
    assert(pow2(1035) * b <= pow2(1035) * pow2(53 + eb as nat)) by {
        lemma_mul_left_inequality(pow2(1035) as int, b as int, pow2(53 + eb as nat) as int);
        lemma_pow2_pos(1035);
    }
    lemma_pow2_adds(1035, 53 + eb as nat);
    // the difference side: d * 2^1074 >= 2^(51 + ea) * 2^1074 >= 2^(1125 + ea)
    assert(d * pow2(1074) >= pow2(51 + ea as nat) * pow2(1074)) by {
        lemma_pow2_pos(1074);
        lemma_mul_inequality(pow2(51 + ea as nat) as int, d as int, pow2(1074) as int);
    }
    lemma_pow2_adds(51 + ea as nat, 1074);
    assert(pow2(1088 + eb as nat) <= pow2(1125 + ea as nat)) by {
        if (1088 + eb as nat) < (1125 + ea as nat) {
            lemma_pow2_strictly_increases(1088 + eb as nat, 1125 + ea as nat);
        }
    }
    assert(tol <= pow2(1088 + eb as nat));
    assert(d * pow2(1074) >= pow2(1125 + ea as nat));
    assert(pow2(1125 + ea as nat) > pow2(1088 + eb as nat)) by {
        lemma_pow2_strictly_increases(1088 + eb as nat, 1125 + ea as nat);
    }
}

/// If the larger magnitude sits within one scaled step above the epsilon,
/// its scale is exactly the epsilon's scale.
proof fn lemma_eps_window(ma: u64, ea: u64, low: nat)
    requires
        canonical(ma, ea),
        ma >= 0x10_0000_0000_0000,
        ea >= 75,
        low >= (ma as nat) * pow2(ea as nat) - pow2((ea - 22) as nat),
        low < eps_mag(),
        eps_mag() < (ma as nat) * pow2(ea as nat),
    ensures
        ea == EPSILON_SCALE,
{
    vstd::arithmetic::power2::lemma2_to64();
        vstd::arithmetic::power2::lemma2_to64_rest();
    let a = (ma as nat) * pow2(ea as nat);
    // eps >= 2^52 * 2^982 = 2^1034 and eps < a < 2^(53 + ea), so ea >= 982.
    assert(pow2(1034) <= eps_mag()) by {
        lemma_pow2_adds(52, 982);
        lemma_pow2_pos(982);
        lemma_mul_inequality(pow2(52) as int, EPSILON_MANTISSA as int, pow2(982) as int);
    }
    assert(a < pow2(53 + ea as nat)) by {
        lemma_pow2_pos(ea as nat);
        lemma_pow2_adds(53, ea as nat);
        lemma_mul_strict_inequality(ma as int, pow2(53) as int, pow2(ea as nat) as int);
    }
    assert(ea >= 982) by {
        if ea <= 981 {
            assert(pow2(53 + ea as nat) <= pow2(1034)) by {
                if (53 + ea as nat) < 1034 {
                    lemma_pow2_strictly_increases(53 + ea as nat, 1034);
                }
            }
        }
    }
    // if ea >= 983: even after losing one 2^-22 step, a stays above eps.
    if ea >= 983 {
        let me = EPSILON_MANTISSA as nat;
        // a >= 2^(52 + ea) == 2^74 * 2^(ea - 22)
        assert(a >= pow2(52) * pow2(ea as nat)) by {
            lemma_pow2_pos(ea as nat);
            lemma_mul_inequality(pow2(52) as int, ma as int, pow2(ea as nat) as int);
        }
        assert(pow2(52) * pow2(ea as nat) == pow2(74) * pow2((ea - 22) as nat)) by {
            lemma_pow2_adds(52, ea as nat);
            lemma_pow2_adds(74, (ea - 22) as nat);
        }
        // so low >= (2^74 - 1) * 2^(ea - 22)
        assert(low >= (pow2(74) - 1) * pow2((ea - 22) as nat)) by {
            lemma_mul_is_distributive_sub(pow2((ea - 22) as nat) as int, pow2(74) as int, 1);
            lemma_mul_is_commutative(pow2((ea - 22) as nat) as int, (pow2(74) - 1) as int);
            lemma_mul_is_commutative(pow2((ea - 22) as nat) as int, pow2(74) as int);
        }
        // 2^74 - 1 >= me * 2^21, by the concrete epsilon mantissa
        assert(pow2(74) == 0x10000000000000000 * 0x400) by {
            lemma_pow2_adds(64, 10);
            vstd::arithmetic::power2::lemma2_to64();
            vstd::arithmetic::power2::lemma2_to64_rest();
        }
        assert(me * pow2(21) <= pow2(74) - 1);
        // so low >= me * 2^21 * 2^(ea - 22) == me * 2^(ea - 1) >= me * 2^982
        assert(low >= (me * pow2(21)) * pow2((ea - 22) as nat)) by {
            lemma_pow2_pos((ea - 22) as nat);
            lemma_mul_inequality((me * pow2(21)) as int, (pow2(74) - 1) as int, pow2((ea - 22) as nat) as int);
        }
        assert((me * pow2(21)) * pow2((ea - 22) as nat) == me * pow2((ea - 1) as nat)) by {
            lemma_mul_is_associative(me as int, pow2(21) as int, pow2((ea - 22) as nat) as int);
            lemma_pow2_adds(21, (ea - 22) as nat);
        }
        assert(me * pow2((ea - 1) as nat) >= me * pow2(982)) by {
            lemma_mul_left_inequality(me as int, pow2(982) as int, pow2((ea - 1) as nat) as int);
            if 982 < (ea - 1) as nat {
                lemma_pow2_strictly_increases(982, (ea - 1) as nat);
            }
        }
        assert(false);
    }
}

/// In the window, with the scales 75 apart, the absolute-tolerance test of a
/// same-signed difference reduces to comparing the mantissas.
proof fn lemma_far_abs_same(ma: u64, mb: u64, eb: u64)
    requires
        ma < 0x20_0000_0000_0000,
        mb < 0x20_0000_0000_0000,
        eb + 75 <= EPSILON_SCALE,
        eb <= EPSILON_SCALE,
    ensures
        ((ma as nat) * pow2(EPSILON_SCALE as nat) - (mb as nat) * pow2(eb as nat) <= eps_mag() as int) <==> ma <= EPSILON_MANTISSA,
{
    let me = EPSILON_MANTISSA as nat;
    let d = (EPSILON_SCALE - eb) as nat;
    lemma_pow2_adds(d, eb as nat);
    lemma_pow2_pos(eb as nat);
    lemma_pow2_pos(d);
    // a * 2^982 == (a * 2^d) * 2^eb for both mantissas
    assert((ma as nat) * pow2(EPSILON_SCALE as nat) == ((ma as nat) * pow2(d)) * pow2(eb as nat)) by {
        lemma_mul_is_associative(ma as int, pow2(d) as int, pow2(eb as nat) as int);
    }
    assert(me * pow2(EPSILON_SCALE as nat) == (me * pow2(d)) * pow2(eb as nat)) by {
        lemma_mul_is_associative(me as int, pow2(d) as int, pow2(eb as nat) as int);
    }
    if ma <= EPSILON_MANTISSA {
        assert((ma as nat) * pow2(d) <= me * pow2(d)) by {
            lemma_mul_inequality(ma as int, me as int, pow2(d) as int);
        }
        assert(((ma as nat) * pow2(d)) * pow2(eb as nat) <= (me * pow2(d)) * pow2(eb as nat)) by {
            lemma_mul_inequality(((ma as nat) * pow2(d)) as int, (me * pow2(d)) as int, pow2(eb as nat) as int);
        }
        assert((mb as nat) * pow2(eb as nat) >= 0);
    } else {
        // ma >= me + 1: the gap (ma - me) * 2^d exceeds 2^75 > mb, at scale eb
        assert((ma as nat) * pow2(d) - me * pow2(d) >= pow2(d)) by {
            lemma_mul_is_distributive_sub(pow2(d) as int, ma as int, me as int);
            lemma_mul_is_commutative(pow2(d) as int, ma as int);
            lemma_mul_is_commutative(pow2(d) as int, me as int);
            assert((ma - me) * pow2(d) >= 1 * pow2(d)) by {
                lemma_mul_inequality(1, (ma - me) as int, pow2(d) as int);
            }
        }
        assert(pow2(d) >= pow2(75)) by {
            if d > 75 {
                lemma_pow2_strictly_increases(75, d);
            }
        }
        assert((mb as nat) < pow2(75)) by {
            vstd::arithmetic::power2::lemma2_to64();
        vstd::arithmetic::power2::lemma2_to64_rest();
            lemma_pow2_strictly_increases(53, 75);
        }
        // so ma * 2^982 - me * 2^982 >= 2^75 * 2^eb > mb * 2^eb
        assert(((ma as nat) * pow2(d) - me * pow2(d)) * pow2(eb as nat) >= pow2(d) * pow2(eb as nat)) by {
            lemma_mul_inequality(pow2(d) as int, ((ma as nat) * pow2(d) - me * pow2(d)) as int, pow2(eb as nat) as int);
        }
        assert(((ma as nat) * pow2(d) - me * pow2(d)) * pow2(eb as nat)
            == ((ma as nat) * pow2(d)) * pow2(eb as nat) - (me * pow2(d)) * pow2(eb as nat)) by {
            lemma_mul_is_distributive_sub(pow2(eb as nat) as int, ((ma as nat) * pow2(d)) as int, (me * pow2(d)) as int);
            lemma_mul_is_commutative(pow2(eb as nat) as int, ((ma as nat) * pow2(d) - me * pow2(d)) as int);
            lemma_mul_is_commutative(pow2(eb as nat) as int, ((ma as nat) * pow2(d)) as int);
            lemma_mul_is_commutative(pow2(eb as nat) as int, (me * pow2(d)) as int);
        }
        assert((mb as nat) * pow2(eb as nat) < pow2(75) * pow2(eb as nat)) by {
            lemma_mul_strict_inequality(mb as int, pow2(75) as int, pow2(eb as nat) as int);
        }
        assert(pow2(75) * pow2(eb as nat) <= pow2(d) * pow2(eb as nat)) by {
            lemma_mul_inequality(pow2(75) as int, pow2(d) as int, pow2(eb as nat) as int);
        }
    }
}

/// Exact tolerant equality of two bit patterns.
#[verifier::rlimit(60)]
pub fn tolerant_eq_bits(a: u64, b: u64) -> (r: bool)
    ensures
        r == spec_tol_eq(a, b),
{
    if a == b {
        return true;
    }
    if !exec_is_valid(a) || !exec_is_valid(b) {
        return false;
    }
    let (sa, ma0, ea0) = decompose(a);
    let (sb, mb0, eb0) = decompose(b);
    proof {
        lemma_pow2_pos(ea0 as nat);
        lemma_pow2_pos(eb0 as nat);
    }
    let ord = cmp_mag(ma0 as u128, ea0 as u32, mb0 as u128, eb0 as u32);
    // order the operands so the first has the larger magnitude
    let (s1, m1, e1, s2, m2, e2) = if ord >= 0 {
        (sa, ma0, ea0, sb, mb0, eb0)
    } else {
        (sb, mb0, eb0, sa, ma0, ea0)
    };
    let ghost x = spec_val(a);
    let ghost y = spec_val(b);
    let ghost mag1 = (m1 as nat) * pow2(e1 as nat);
    let ghost mag2 = (m2 as nat) * pow2(e2 as nat);
    let ghost d = spec_abs(x - y);
    let ghost m_small = spec_min_nat(spec_abs(x), spec_abs(y));
    proof {
        lemma_signed_diff(
            if ord >= 0 { x } else { y },
            if ord >= 0 { y } else { x },
            s1, s2, mag1, mag2,
        );
        assert(s1 == s2 ==> d == mag1 - mag2);
        assert((s1 != s2 && !(mag1 == 0 && mag2 == 0)) ==> d == mag1 + mag2);
        assert(mag1 == 0 && mag2 == 0 ==> d == 0);
        assert(m_small == mag2);
        lemma_mag_order_scales(m1, e1, m2, e2);
        assert(spec_tol_eq(a, b) == (d <= eps_mag() || d * pow2(1074) < eps_mag() * m_small));
    }
    let same = s1 == s2;
    if m2 == 0 {
        // the smaller value is a zero: the difference is the larger magnitude
        // and the relative test is void
        proof {
            lemma_mul_basics(pow2(e2 as nat) as int);
            assert(mag2 == 0);
            assert(d == mag1);
            lemma_mul_basics(eps_mag() as int);
            assert(eps_mag() * m_small == 0);
        }
        let c = cmp_mag(m1 as u128, e1 as u32, EPSILON_MANTISSA as u128, EPSILON_SCALE as u32);
        return c <= 0;
    }
    proof {
        lemma_b_positive(m2, e2);
    }
    if e1 - e2 <= 74 {
        // near scales: the difference fits 128 bits exactly
        proof {
            lemma_shift_in_range(m1, e1, e2);
        }
        let shifted = shl_u128(m1 as u128, (e1 - e2) as u32);
        proof {
            lemma_pow2_adds((e1 - e2) as nat, e2 as nat);
            lemma_mul_is_associative(m1 as int, pow2((e1 - e2) as nat) as int, pow2(e2 as nat) as int);
            assert(mag1 == (shifted as nat) * pow2(e2 as nat));
            if same {
                // mag1 >= mag2 gives shifted >= m2 at the common scale
                crate::dyadic::lemma_scale_cancel_le(m2 as u128, shifted, e2 as nat);
            }
        }
        let dm: u128 = if same {
            shifted - (m2 as u128)
        } else {
            shifted + (m2 as u128)
        };
        proof {
            lemma_mul_is_distributive_sub(pow2(e2 as nat) as int, shifted as int, m2 as int);
            lemma_mul_is_distributive_add(pow2(e2 as nat) as int, shifted as int, m2 as int);
            lemma_mul_is_commutative(pow2(e2 as nat) as int, dm as int);
            lemma_mul_is_commutative(pow2(e2 as nat) as int, shifted as int);
            lemma_mul_is_commutative(pow2(e2 as nat) as int, m2 as int);
            assert(d == (dm as nat) * pow2(e2 as nat));
        }
        let c1 = cmp_mag(dm, e2 as u32, EPSILON_MANTISSA as u128, EPSILON_SCALE as u32);
        let c2 = cmp_mag(dm, (e2 + 1074) as u32, (EPSILON_MANTISSA as u128) * (m2 as u128), (EPSILON_SCALE + e2) as u32);
        proof {
            lemma_rel_scales(dm, e2 as nat, m2 as nat);
            assert((c1 <= 0) == (d <= eps_mag()));
            assert((c2 < 0) == (d * pow2(1074) < eps_mag() * m_small));
        }
        return c1 <= 0 || c2 < 0;
    }
    // far scales: the relative test always fails, and the absolute test is
    // decided by bounds, or by the mantissas inside the one ambiguous window
    proof {
        lemma_far_relative_fails(m1, e1, m2, e2, d);
        assert(!(d * pow2(1074) < eps_mag() * m_small));
    }
    if same {
        let c_hi = cmp_mag(m1 as u128, e1 as u32, EPSILON_MANTISSA as u128, EPSILON_SCALE as u32);
        if c_hi <= 0 {
            // the difference is below the larger magnitude, itself at most eps
            return true;
        }
        proof {
            lemma_low_bound(m1, e1, m2, e2);
            vstd::arithmetic::power2::lemma2_to64();
        }
        let low_m: u128 = (m1 as u128) * 4194304 - 1;  // m1 * 2^22 - 1
        proof {
            assert((low_m as nat) == (m1 as nat) * pow2(22) - 1);
        }
        let c_lo = cmp_mag(low_m, (e1 - 22) as u32, EPSILON_MANTISSA as u128, EPSILON_SCALE as u32);
        if c_lo >= 0 {
            // d exceeds mag1 less one 2^-22 step, itself at least eps
            proof {
                assert((low_m as nat) * pow2((e1 - 22) as nat) >= eps_mag());
                assert(d > mag1 - pow2((e1 - 22) as nat));
            }
            return false;
        }
        proof {
            lemma_eps_window(m1, e1, (low_m as nat) * pow2((e1 - 22) as nat));
            lemma_far_abs_same(m1, m2, e2);
            assert((d <= eps_mag()) == (m1 <= EPSILON_MANTISSA));
        }
        m1 <= EPSILON_MANTISSA
    } else {
        let c_hi = cmp_mag(m1 as u128 + 1, e1 as u32, EPSILON_MANTISSA as u128, EPSILON_SCALE as u32);
        if c_hi <= 0 {
            // the sum is below (m1 + 1) * 2^e1, itself at most eps
            proof {
                lemma_sum_below(m1, e1, m2, e2);
                assert(((m1 as u128 + 1) as nat) * pow2(e1 as nat) == ((m1 as nat) + 1) * pow2(e1 as nat));
            }
            return true;
        }
        let c_lo = cmp_mag(m1 as u128, e1 as u32, EPSILON_MANTISSA as u128, EPSILON_SCALE as u32);
        if c_lo >= 0 {
            // the sum strictly exceeds mag1, itself at least eps
            return false;
        }
        proof {
            assert(((m1 as u128 + 1) as nat) * pow2(e1 as nat) == ((m1 as nat) + 1) * pow2(e1 as nat));
            lemma_eps_window_diff(m1, e1);
            lemma_far_abs_diff(m1, m2, e2);
            assert((d <= eps_mag()) == (m1 < EPSILON_MANTISSA));
        }
        m1 < EPSILON_MANTISSA
    }
}

/// The aligned mantissa of the larger operand stays within 128 bits when the
/// scales are at most 74 apart.
pub(crate) proof fn lemma_shift_in_range(m1: u64, e1: u64, e2: u64)
    requires
        m1 < 0x20_0000_0000_0000,
        e2 <= e1,
        e1 - e2 <= 74,
    ensures
        (m1 as nat) * pow2((e1 - e2) as nat) < 0x80000000000000000000000000000000,
{
    let d = (e1 - e2) as nat;
    assert((m1 as nat) * pow2(d) < pow2(53) * pow2(74)) by {
        vstd::arithmetic::power2::lemma2_to64();
        vstd::arithmetic::power2::lemma2_to64_rest();
        assert(pow2(d) <= pow2(74)) by {
            if d < 74 {
                lemma_pow2_strictly_increases(d, 74);
            }
        }
        lemma_pow2_pos(d);
        if m1 == 0 {
            lemma_mul_strictly_positive(pow2(53) as int, pow2(74) as int);
        } else {
            assert((m1 as nat) * pow2(d) < pow2(53) * pow2(d)) by {
                lemma_mul_strict_inequality(m1 as int, pow2(53) as int, pow2(d) as int);
            }
            assert(pow2(53) * pow2(d) <= pow2(53) * pow2(74)) by {
                lemma_mul_left_inequality(pow2(53) as int, pow2(d) as int, pow2(74) as int);
                lemma_pow2_pos(53);
            }
        }
    }
    lemma_pow2_adds(53, 74);
    assert(pow2(127) == 0x80000000000000000000000000000000) by {
        lemma_pow2_adds(64, 63);
        vstd::arithmetic::power2::lemma2_to64();
        vstd::arithmetic::power2::lemma2_to64_rest();
    }
}

/// Scaling both sides by the smaller scale keeps the relative-tolerance
/// comparison intact.
proof fn lemma_rel_scales(dm: u128, e2: nat, m2: nat)
    ensures
        (dm as nat) * pow2(e2) * pow2(1074) < eps_mag() * (m2 * pow2(e2))
            <==> (dm as nat) * pow2(e2 + 1074) < ((EPSILON_MANTISSA as nat) * m2) * pow2(EPSILON_SCALE as nat + e2),
{
    let me = EPSILON_MANTISSA as nat;
    assert((dm as nat) * pow2(e2) * pow2(1074) == (dm as nat) * pow2(e2 + 1074)) by {
        lemma_pow2_adds(e2, 1074);
        lemma_mul_is_associative(dm as int, pow2(e2) as int, pow2(1074) as int);
    }
    assert(eps_mag() * (m2 * pow2(e2)) == (me * m2) * pow2(EPSILON_SCALE as nat + e2)) by {
        lemma_pow2_adds(EPSILON_SCALE as nat, e2);
        // me * 2^982 * (m2 * 2^e2) == (me * m2) * (2^982 * 2^e2)
        assert(eps_mag() * (m2 * pow2(e2)) == me * pow2(EPSILON_SCALE as nat) * m2 * pow2(e2)) by {
            lemma_mul_is_associative((me * pow2(EPSILON_SCALE as nat)) as int, m2 as int, pow2(e2) as int);
        }
        assert(me * pow2(EPSILON_SCALE as nat) * m2 == me * m2 * pow2(EPSILON_SCALE as nat)) by {
            lemma_mul_is_associative(me as int, pow2(EPSILON_SCALE as nat) as int, m2 as int);
            lemma_mul_is_commutative(pow2(EPSILON_SCALE as nat) as int, m2 as int);
            lemma_mul_is_associative(me as int, m2 as int, pow2(EPSILON_SCALE as nat) as int);
        }
        assert(me * m2 * pow2(EPSILON_SCALE as nat) * pow2(e2) == (me * m2) * (pow2(EPSILON_SCALE as nat) * pow2(e2))) by {
            lemma_mul_is_associative((me * m2) as int, pow2(EPSILON_SCALE as nat) as int, pow2(e2) as int);
        }
    }
}

/// A nonzero mantissa gives a positive magnitude.
proof fn lemma_b_positive(m2: u64, e2: u64)
    requires
        m2 > 0,
    ensures
        (m2 as nat) * pow2(e2 as nat) > 0,
{
    lemma_pow2_pos(e2 as nat);
    lemma_mul_strictly_positive(m2 as int, pow2(e2 as nat) as int);
}

/// With far scales the smaller magnitude stays below one 2^-22 step of the
/// larger, bounding a same-signed difference from below.
proof fn lemma_low_bound(m1: u64, e1: u64, m2: u64, e2: u64)
    requires
        canonical(m1, e1),
        canonical(m2, e2),
        m2 > 0,
        e1 >= e2 + 75,
        m1 >= 0x10_0000_0000_0000,
    ensures
        ((m1 as nat) * pow2(22) - 1) * pow2((e1 - 22) as nat)
            == (m1 as nat) * pow2(e1 as nat) - pow2((e1 - 22) as nat),
        (m2 as nat) * pow2(e2 as nat) < pow2((e1 - 22) as nat),
{
    vstd::arithmetic::power2::lemma2_to64();
        vstd::arithmetic::power2::lemma2_to64_rest();
    assert((m2 as nat) * pow2(e2 as nat) < pow2(53 + e2 as nat)) by {
        lemma_pow2_pos(e2 as nat);
        lemma_pow2_adds(53, e2 as nat);
        lemma_mul_strict_inequality(m2 as int, pow2(53) as int, pow2(e2 as nat) as int);
    }
    assert(pow2(53 + e2 as nat) <= pow2((e1 - 22) as nat)) by {
        if (53 + e2 as nat) < ((e1 - 22) as nat) {
            lemma_pow2_strictly_increases(53 + e2 as nat, (e1 - 22) as nat);
        }
    }
    assert(((m1 as nat) * pow2(22) - 1) * pow2((e1 - 22) as nat)
        == (m1 as nat) * pow2(22) * pow2((e1 - 22) as nat) - pow2((e1 - 22) as nat)) by {
        lemma_mul_is_distributive_sub(pow2((e1 - 22) as nat) as int, ((m1 as nat) * pow2(22)) as int, 1);
        lemma_mul_is_commutative(pow2((e1 - 22) as nat) as int, ((m1 as nat) * pow2(22) - 1) as int);
        lemma_mul_is_commutative(pow2((e1 - 22) as nat) as int, ((m1 as nat) * pow2(22)) as int);
    }
    assert((m1 as nat) * pow2(22) * pow2((e1 - 22) as nat) == (m1 as nat) * pow2(e1 as nat)) by {
        lemma_mul_is_associative(m1 as int, pow2(22) as int, pow2((e1 - 22) as nat) as int);
        lemma_pow2_adds(22, (e1 - 22) as nat);
    }
}

/// If the larger magnitude sits within one mantissa step below the epsilon,
/// its scale is exactly the epsilon's scale.
proof fn lemma_eps_window_diff(m1: u64, e1: u64)
    requires
        canonical(m1, e1),
        m1 >= 0x10_0000_0000_0000,
        (m1 as nat) * pow2(e1 as nat) < eps_mag(),
        eps_mag() < ((m1 as nat) + 1) * pow2(e1 as nat),
    ensures
        e1 == EPSILON_SCALE,
{
    vstd::arithmetic::power2::lemma2_to64();
        vstd::arithmetic::power2::lemma2_to64_rest();
    assert(pow2(1034) <= eps_mag()) by {
        lemma_pow2_adds(52, 982);
        lemma_pow2_pos(982);
        lemma_mul_inequality(pow2(52) as int, EPSILON_MANTISSA as int, pow2(982) as int);
    }
    assert(eps_mag() < pow2(1035)) by {
        lemma_pow2_adds(53, 982);
        lemma_pow2_pos(982);
        lemma_mul_strict_inequality(EPSILON_MANTISSA as int, pow2(53) as int, pow2(982) as int);
    }
    if e1 <= 981 {
        // (m1 + 1) * 2^e1 <= 2^53 * 2^981 = 2^1034 <= eps: contradiction
        assert(((m1 as nat) + 1) * pow2(e1 as nat) <= pow2(53) * pow2(981)) by {
            lemma_pow2_pos(e1 as nat);
            lemma_mul_inequality(((m1 as nat) + 1) as int, pow2(53) as int, pow2(e1 as nat) as int);
            assert(pow2(e1 as nat) <= pow2(981)) by {
                if (e1 as nat) < 981 {
                    lemma_pow2_strictly_increases(e1 as nat, 981);
                }
            }
            lemma_mul_left_inequality(pow2(53) as int, pow2(e1 as nat) as int, pow2(981) as int);
            lemma_pow2_pos(53);
        }
        lemma_pow2_adds(53, 981);
        assert(false);
    }
    if e1 >= 983 {
        // m1 * 2^e1 >= 2^52 * 2^983 = 2^1035 > eps: contradiction
        assert((m1 as nat) * pow2(e1 as nat) >= pow2(52) * pow2(983)) by {
            lemma_pow2_pos(e1 as nat);
            lemma_mul_inequality(pow2(52) as int, m1 as int, pow2(e1 as nat) as int);
            assert(pow2(983) <= pow2(e1 as nat)) by {
                if 983 < (e1 as nat) {
                    lemma_pow2_strictly_increases(983, e1 as nat);
                }
            }
            lemma_mul_left_inequality(pow2(52) as int, pow2(983) as int, pow2(e1 as nat) as int);
            lemma_pow2_pos(52);
        }
        lemma_pow2_adds(52, 983);
        assert(false);
    }
}

/// The sum of far-scaled magnitudes stays below one mantissa step above the
/// larger one.
proof fn lemma_sum_below(m1: u64, e1: u64, m2: u64, e2: u64)
    requires
        canonical(m1, e1),
        canonical(m2, e2),
        e1 >= e2 + 75,
        m1 >= 0x10_0000_0000_0000,
    ensures
        (m1 as nat) * pow2(e1 as nat) + (m2 as nat) * pow2(e2 as nat) < ((m1 as nat) + 1) * pow2(e1 as nat),
{
    vstd::arithmetic::power2::lemma2_to64();
        vstd::arithmetic::power2::lemma2_to64_rest();
    assert((m2 as nat) * pow2(e2 as nat) < pow2(53 + e2 as nat)) by {
        lemma_pow2_pos(e2 as nat);
        lemma_pow2_adds(53, e2 as nat);
        if m2 == 0 {
            lemma_pow2_pos(53 + e2 as nat);
            lemma_mul_basics(pow2(e2 as nat) as int);
        } else {
            lemma_mul_strict_inequality(m2 as int, pow2(53) as int, pow2(e2 as nat) as int);
        }
    }
    assert(pow2(53 + e2 as nat) <= pow2(e1 as nat)) by {
        if (53 + e2 as nat) < (e1 as nat) {
            lemma_pow2_strictly_increases(53 + e2 as nat, e1 as nat);
        }
    }
    assert(((m1 as nat) + 1) * pow2(e1 as nat) == (m1 as nat) * pow2(e1 as nat) + pow2(e1 as nat)) by {
        lemma_mul_is_distributive_add(pow2(e1 as nat) as int, m1 as int, 1);
        lemma_mul_is_commutative(pow2(e1 as nat) as int, ((m1 as nat) + 1) as int);
        lemma_mul_is_commutative(pow2(e1 as nat) as int, m1 as int);
    }
}

/// In the window, with the scales 75 apart, the absolute-tolerance test of an
/// opposite-signed sum reduces to comparing the mantissas.
proof fn lemma_far_abs_diff(ma: u64, mb: u64, eb: u64)
    requires
        ma < 0x20_0000_0000_0000,
        0 < mb < 0x20_0000_0000_0000,
        eb + 75 <= EPSILON_SCALE,
    ensures
        ((ma as nat) * pow2(EPSILON_SCALE as nat) + (mb as nat) * pow2(eb as nat) <= eps_mag()) <==> ma < EPSILON_MANTISSA,
{
    let me = EPSILON_MANTISSA as nat;
    let d = (EPSILON_SCALE - eb) as nat;
    lemma_pow2_adds(d, eb as nat);
    lemma_pow2_pos(eb as nat);
    lemma_pow2_pos(d);
    assert((ma as nat) * pow2(EPSILON_SCALE as nat) == ((ma as nat) * pow2(d)) * pow2(eb as nat)) by {
        lemma_mul_is_associative(ma as int, pow2(d) as int, pow2(eb as nat) as int);
    }
    assert(me * pow2(EPSILON_SCALE as nat) == (me * pow2(d)) * pow2(eb as nat)) by {
        lemma_mul_is_associative(me as int, pow2(d) as int, pow2(eb as nat) as int);
    }
    if ma < EPSILON_MANTISSA {
        // (me - ma) * 2^d >= 2^75 > mb: the sum stays at or below eps
        assert(me * pow2(d) - (ma as nat) * pow2(d) >= pow2(d)) by {
            lemma_mul_is_distributive_sub(pow2(d) as int, me as int, ma as int);
            lemma_mul_is_commutative(pow2(d) as int, me as int);
            lemma_mul_is_commutative(pow2(d) as int, ma as int);
            lemma_mul_is_commutative(pow2(d) as int, (me - ma) as int);
            assert((me - ma) * pow2(d) >= 1 * pow2(d)) by {
                lemma_mul_inequality(1, (me - ma) as int, pow2(d) as int);
            }
        }
        assert(pow2(d) >= pow2(75)) by {
            if d > 75 {
                lemma_pow2_strictly_increases(75, d);
            }
        }
        assert((mb as nat) < pow2(75)) by {
            vstd::arithmetic::power2::lemma2_to64();
        vstd::arithmetic::power2::lemma2_to64_rest();
            lemma_pow2_strictly_increases(53, 75);
        }
        assert((me * pow2(d) - (ma as nat) * pow2(d)) * pow2(eb as nat) >= pow2(d) * pow2(eb as nat)) by {
            lemma_mul_inequality(pow2(d) as int, (me * pow2(d) - (ma as nat) * pow2(d)) as int, pow2(eb as nat) as int);
        }
        assert((me * pow2(d) - (ma as nat) * pow2(d)) * pow2(eb as nat)
            == (me * pow2(d)) * pow2(eb as nat) - ((ma as nat) * pow2(d)) * pow2(eb as nat)) by {
            lemma_mul_is_distributive_sub(pow2(eb as nat) as int, (me * pow2(d)) as int, ((ma as nat) * pow2(d)) as int);
            lemma_mul_is_commutative(pow2(eb as nat) as int, (me * pow2(d) - (ma as nat) * pow2(d)) as int);
            lemma_mul_is_commutative(pow2(eb as nat) as int, (me * pow2(d)) as int);
            lemma_mul_is_commutative(pow2(eb as nat) as int, ((ma as nat) * pow2(d)) as int);
        }
        assert((mb as nat) * pow2(eb as nat) < pow2(75) * pow2(eb as nat)) by {
            lemma_mul_strict_inequality(mb as int, pow2(75) as int, pow2(eb as nat) as int);
        }
        assert(pow2(75) * pow2(eb as nat) <= pow2(d) * pow2(eb as nat)) by {
            lemma_mul_inequality(pow2(75) as int, pow2(d) as int, pow2(eb as nat) as int);
        }
    } else {
        // ma >= me: already the first summand reaches eps, and mb > 0
        assert((ma as nat) * pow2(d) >= me * pow2(d)) by {
            lemma_mul_inequality(me as int, ma as int, pow2(d) as int);
        }
        assert(((ma as nat) * pow2(d)) * pow2(eb as nat) >= (me * pow2(d)) * pow2(eb as nat)) by {
            lemma_mul_inequality((me * pow2(d)) as int, ((ma as nat) * pow2(d)) as int, pow2(eb as nat) as int);
        }
        assert((mb as nat) * pow2(eb as nat) > 0) by {
            lemma_mul_strictly_positive(mb as int, pow2(eb as nat) as int);
        }
    }
}

} // verus!
