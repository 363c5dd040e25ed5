//! Checked arithmetic on validated values. Negation flips the sign bit; the
//! remainder is exact, as it is for every pair of binary64 values; addition,
//! subtraction, multiplication and division round the exact result to
//! nearest, ties to even, and report a result that would be infinite instead
//! of storing it.

use vstd::prelude::*;
use vstd::arithmetic::power2::{pow2, lemma_pow2_pos, lemma_pow2_adds, lemma_pow2_strictly_increases, lemma2_to64, lemma2_to64_rest};
use vstd::arithmetic::mul::{
    lemma_mul_basics, lemma_mul_strictly_positive, lemma_mul_inequality,
    lemma_mul_strict_inequality, lemma_mul_is_associative, lemma_mul_is_commutative,
    lemma_mul_is_distributive_add_other_way,
};
use vstd::arithmetic::div_mod::{lemma_fundamental_div_mod_converse_div, lemma_fundamental_div_mod_converse_mod};
use crate::bits::{
    spec_sign, spec_mantissa, spec_scale, spec_mag, spec_val, spec_is_valid, spec_biased_exp,
    decompose,
};
use crate::compare::spec_abs;
use crate::dyadic::{cmp_mag, shl_u128, spec_bitlen};
use crate::round::{
    spec_round_frac, window_of, lemma_window_round, round_window_to_bits, max_mag,
    lemma_bitlen_u128, lemma_bitlen_nat_bounds, spec_bitlen_nat,
};
use crate::extended_float::{ExtendedFloat, ConversionError};

verus! {

/// Negating a value flips its sign bit and nothing else.
proof fn lemma_sign_flip(bits: u64)
    ensures
        spec_biased_exp(bits ^ 0x8000_0000_0000_0000) == spec_biased_exp(bits),
        spec_frac_eq(bits),
        spec_sign(bits ^ 0x8000_0000_0000_0000) == !spec_sign(bits),
{
    assert(((bits ^ 0x8000_0000_0000_0000) >> 52) & 0x7FF == (bits >> 52) & 0x7FF) by (bit_vector);
    assert((bits ^ 0x8000_0000_0000_0000) & 0x000F_FFFF_FFFF_FFFF == bits & 0x000F_FFFF_FFFF_FFFF)
        by (bit_vector);
    assert(((bits ^ 0x8000_0000_0000_0000) >> 63 == 1) == !(bits >> 63 == 1)) by (bit_vector);
}

/// The fraction field of a pattern.
spec fn spec_frac_of(bits: u64) -> u64 {
    crate::bits::spec_frac(bits)
}

/// The fraction field survives a sign flip.
spec fn spec_frac_eq(bits: u64) -> bool {
    crate::bits::spec_frac(bits ^ 0x8000_0000_0000_0000) == crate::bits::spec_frac(bits)
}

impl ExtendedFloat {
    /// The value with the opposite sign: same magnitude, flipped sign bit.
    pub fn neg(&self) -> (r: Self)
        requires
            self.is_valid(),
        ensures
            r.is_valid(),
            spec_val(r.bits) == -spec_val(self.bits),
            spec_sign(r.bits) == !spec_sign(self.bits),
            spec_mag(r.bits) == spec_mag(self.bits),
    {
        proof {
            lemma_sign_flip(self.bits);
        }
        ExtendedFloat { bits: self.bits ^ 0x8000_0000_0000_0000 }
    }
}

/// The remainder magnitude of two finite patterns: the larger reduced by
/// whole multiples of the smaller, as the exact remainder always is.
pub open spec fn spec_rem_mag(a: u64, b: u64) -> nat {
    spec_mag(a) % spec_mag(b)
}

/// Builds the pattern with the given sign, mantissa and scale, normalising a
/// short mantissa down to the subnormal range when the scale allows.
pub(crate) fn encode_parts(sign: bool, m: u64, e: u64) -> (r: u64)
    requires
        m < 0x20_0000_0000_0000,
        m < 0x10_0000_0000_0000 ==> e == 0,
        e <= 2045,
    ensures
        spec_sign(r) == sign,
        spec_mantissa(r) == m,
        spec_scale(r) == e,
        spec_is_valid(r),
{
    let sign_part: u64 = if sign {
        0x8000_0000_0000_0000
    } else {
        0
    };
    if m >= 0x0010_0000_0000_0000 {
        let be: u64 = e + 1;
        let r = sign_part | (be << 52) | (m - 0x0010_0000_0000_0000);
        proof {
            let fr = (m - 0x0010_0000_0000_0000) as u64;
            assert((r >> 52) & 0x7FF == be
                && r & 0x000F_FFFF_FFFF_FFFF == fr
                && ((r >> 63 == 1) == sign)) by (bit_vector)
                requires
                    r == (if sign { 0x8000_0000_0000_0000u64 } else { 0u64 }) | (be << 52) | fr,
                    fr < 0x10_0000_0000_0000,
                    1 <= be <= 2046,
            ;
        }
        r
    } else {
        let r = sign_part | m;
        proof {
            assert((r >> 52) & 0x7FF == 0
                && r & 0x000F_FFFF_FFFF_FFFF == m
                && ((r >> 63 == 1) == sign)) by (bit_vector)
                requires
                    r == (if sign { 0x8000_0000_0000_0000u64 } else { 0u64 }) | m,
                    m < 0x10_0000_0000_0000,
            ;
        }
        r
    }
}

/// Shifts a short mantissa up until it is normal or the scale is used up,
/// then encodes it: the canonical pattern for the magnitude m * 2^e.
fn normalize_encode(sign: bool, m0: u64, e0: u64) -> (r: u64)
    requires
        m0 < 0x20_0000_0000_0000,
        e0 <= 2045,
    ensures
        spec_sign(r) == sign,
        spec_mag(r) == (m0 as nat) * pow2(e0 as nat),
        spec_is_valid(r),
{
    let mut m = m0;
    let mut e = e0;
    if m == 0 {
        proof {
            lemma_mul_basics(pow2(e0 as nat) as int);
            lemma_mul_basics(pow2(0nat) as int);
        }
        return encode_parts(sign, 0, 0);
    }
    while m < 0x0010_0000_0000_0000 && e > 0
        invariant
            m < 0x20_0000_0000_0000,
            e <= 2045,
            (m as nat) * pow2(e as nat) == (m0 as nat) * pow2(e0 as nat),
        decreases e,
    {
        proof {
            lemma_pow2_adds((e - 1) as nat, 1);
            vstd::arithmetic::power2::lemma2_to64();
            assert((2 * m) as nat * pow2((e - 1) as nat) == (m as nat) * (pow2((e - 1) as nat) * 2)) by {
                vstd::arithmetic::mul::lemma_mul_is_associative(m as int, 2, pow2((e - 1) as nat) as int);
                vstd::arithmetic::mul::lemma_mul_is_commutative(2, pow2((e - 1) as nat) as int);
            }
        }
        m = m * 2;
        e = e - 1;
    }
    let r = encode_parts(sign, m, e);
    r
}

/// The exact remainder of the magnitudes: the mantissa of a reduced modulo
/// the mantissa of b, doubled once per step between their scales.
fn rem_mag_bits(a: u64, b: u64) -> (r: u64)
    requires
        spec_is_valid(a),
        spec_is_valid(b),
        spec_mag(b) != 0,
    ensures
        spec_sign(r) == spec_sign(a),
        spec_mag(r) == spec_rem_mag(a, b),
        spec_is_valid(r),
{
    let (sa, ma, ea) = decompose(a);
    let (_sb, mb, eb) = decompose(b);
    proof {
        lemma_pow2_pos(ea as nat);
        lemma_pow2_pos(eb as nat);
        if mb == 0 {
            lemma_mul_basics(pow2(eb as nat) as int);
        }
    }
    if ea < eb {
        // the magnitude of a is below that of b: the remainder is a itself
        proof {
            lemma_small_mag_rem(ma, ea, mb, eb);
        }
        return a;
    }
    let span = ea - eb;
    let mut r: u64 = ma % mb;
    let mut i: u64 = 0;
    proof {
        vstd::arithmetic::div_mod::lemma_mod_bound(ma as int, mb as int);
        lemma_mul_basics(ma as int);
        vstd::arithmetic::power2::lemma2_to64();
        assert((ma as nat) * pow2(0nat) == ma as nat);
    }
    while i < span
        invariant
            r < mb,
            mb < 0x20_0000_0000_0000,
            i <= span,
            r as int == ((ma as nat) * pow2(i as nat)) as int % (mb as int),
        decreases span - i,
    {
        proof {
            lemma_double_mod(ma as nat, i as nat, mb as nat, r as nat);
        }
        r = (2 * r) % mb;
        i = i + 1;
    }
    proof {
        lemma_rem_scales(ma as nat, mb as nat, span as nat, eb as nat, r as nat);
    }
    normalize_encode(sa, r, eb)
}

/// A smaller scale keeps the whole magnitude below the divisor, so the
/// remainder is the magnitude itself.
proof fn lemma_small_mag_rem(ma: u64, ea: u64, mb: u64, eb: u64)
    requires
        ma < 0x20_0000_0000_0000,
        mb < 0x20_0000_0000_0000,
        (eb > 0 ==> mb >= 0x10_0000_0000_0000),
        ea < eb,
        (mb as nat) * pow2(eb as nat) != 0,
    ensures
        ((ma as nat) * pow2(ea as nat)) % ((mb as nat) * pow2(eb as nat)) == (ma as nat) * pow2(ea as nat),
{
    // a < 2^53 * 2^ea <= 2^52 * 2^eb <= b, and a remainder below the divisor
    // is the value itself
    vstd::arithmetic::power2::lemma2_to64();
    vstd::arithmetic::power2::lemma2_to64_rest();
    assert(mb >= 0x10_0000_0000_0000);
    let a = (ma as nat) * pow2(ea as nat);
    let b = (mb as nat) * pow2(eb as nat);
    assert(a < pow2(53) * pow2(ea as nat)) by {
        lemma_pow2_pos(ea as nat);
        if ma == 0 {
            lemma_mul_strictly_positive(pow2(53) as int, pow2(ea as nat) as int);
            lemma_mul_basics(pow2(ea as nat) as int);
        } else {
            vstd::arithmetic::mul::lemma_mul_strict_inequality(ma as int, pow2(53) as int, pow2(ea as nat) as int);
        }
    }
    assert(pow2(53) * pow2(ea as nat) <= pow2(52) * pow2(eb as nat)) by {
        lemma_pow2_adds(53, ea as nat);
        lemma_pow2_adds(52, eb as nat);
        if (53 + ea as nat) < (52 + eb as nat) {
            vstd::arithmetic::power2::lemma_pow2_strictly_increases(53 + ea as nat, 52 + eb as nat);
        }
    }
    assert(pow2(52) * pow2(eb as nat) <= b) by {
        lemma_pow2_pos(eb as nat);
        lemma_mul_inequality(pow2(52) as int, mb as int, pow2(eb as nat) as int);
    }
    vstd::arithmetic::div_mod::lemma_small_mod(a, b);
}

/// Doubling a remainder and reducing again walks the modulus up one power of
/// two.
proof fn lemma_double_mod(ma: nat, i: nat, mb: nat, r: nat)
    requires
        mb > 0,
        r == (ma * pow2(i)) % mb,
    ensures
        (2 * r) % mb == (ma * pow2(i + 1)) % mb,
{
    lemma_pow2_adds(i, 1);
    vstd::arithmetic::power2::lemma2_to64();
    assert(ma * pow2(i + 1) == 2 * (ma * pow2(i))) by {
        vstd::arithmetic::mul::lemma_mul_is_associative(ma as int, pow2(i) as int, 2);
        vstd::arithmetic::mul::lemma_mul_is_commutative((ma * pow2(i)) as int, 2);
    }
    vstd::arithmetic::div_mod::lemma_mul_mod_noop_right(2, (ma * pow2(i)) as int, mb as int);
}

/// The remainder of the aligned mantissas, rescaled, is the remainder of the
/// magnitudes.
proof fn lemma_rem_scales(ma: nat, mb: nat, span: nat, eb: nat, r: nat)
    requires
        mb > 0,
        r == (ma * pow2(span)) % mb,
    ensures
        r * pow2(eb) == (ma * pow2(span + eb)) % (mb * pow2(eb)),
{
    let q = (ma * pow2(span)) / mb;
    vstd::arithmetic::div_mod::lemma_fundamental_div_mod((ma * pow2(span)) as int, mb as int);
    lemma_pow2_pos(eb);
    lemma_pow2_adds(span, eb);
    // ma * 2^(span+eb) == q * (mb * 2^eb) + r * 2^eb, with r * 2^eb below the
    // divisor
    assert(ma * pow2(span + eb) == (ma * pow2(span)) * pow2(eb)) by {
        vstd::arithmetic::mul::lemma_mul_is_associative(ma as int, pow2(span) as int, pow2(eb) as int);
    }
    assert((ma * pow2(span)) * pow2(eb) == (mb * q + r) * pow2(eb));
    assert((mb * q + r) * pow2(eb) == mb * q * pow2(eb) + r * pow2(eb)) by {
        vstd::arithmetic::mul::lemma_mul_is_distributive_add_other_way(pow2(eb) as int, (mb * q) as int, r as int);
    }
    assert(mb * q * pow2(eb) == (mb * pow2(eb)) * q) by {
        vstd::arithmetic::mul::lemma_mul_is_associative(mb as int, q as int, pow2(eb) as int);
        vstd::arithmetic::mul::lemma_mul_is_commutative(q as int, pow2(eb) as int);
        vstd::arithmetic::mul::lemma_mul_is_associative(mb as int, pow2(eb) as int, q as int);
    }
    assert(r * pow2(eb) < mb * pow2(eb)) by {
        vstd::arithmetic::div_mod::lemma_mod_bound((ma * pow2(span)) as int, mb as int);
        vstd::arithmetic::mul::lemma_mul_strict_inequality(r as int, mb as int, pow2(eb) as int);
    }
    assert(ma * pow2(span + eb) == q * (mb * pow2(eb)) + r * pow2(eb)) by {
        vstd::arithmetic::mul::lemma_mul_is_commutative(q as int, (mb * pow2(eb)) as int);
    }
    vstd::arithmetic::div_mod::lemma_fundamental_div_mod_converse(
        (ma * pow2(span + eb)) as int,
        (mb * pow2(eb)) as int,
        q as int,
        (r * pow2(eb)) as int,
    );
}

impl ExtendedFloat {
    /// The remainder, or the reason it does not exist: a zero divisor makes
    /// it NaN. The remainder of two finite values is exact and finite, with
    /// the sign of the dividend.
    pub fn try_rem(&self, rhs: Self) -> (r: Result<Self, ConversionError>)
        requires
            self.is_valid(),
            rhs.is_valid(),
        ensures
            r is Ok <==> spec_mag(rhs.bits) != 0,
            r is Ok ==> {
                &&& spec_mag(r->Ok_0.bits) == spec_rem_mag(self.bits, rhs.bits)
                &&& spec_sign(r->Ok_0.bits) == spec_sign(self.bits)
                &&& r->Ok_0.is_valid()
            },
            r is Err ==> r->Err_0 == ConversionError::NaN,
    {
        let (_sb, mb, eb) = decompose(rhs.bits);
        proof {
            lemma_pow2_pos(eb as nat);
            if mb == 0 {
                lemma_mul_basics(pow2(eb as nat) as int);
            } else {
                lemma_mul_strictly_positive(mb as int, pow2(eb as nat) as int);
            }
        }
        if mb == 0 {
            Err(ConversionError::NaN)
        } else {
            Ok(ExtendedFloat { bits: rem_mag_bits(self.bits, rhs.bits) })
        }
    }

    /// The remainder, or nothing when the divisor is zero.
    pub fn checked_rem(&self, rhs: Self) -> (r: Option<Self>)
        requires
            self.is_valid(),
            rhs.is_valid(),
        ensures
            r is Some <==> spec_mag(rhs.bits) != 0,
            r is Some ==> {
                &&& spec_mag(r->0.bits) == spec_rem_mag(self.bits, rhs.bits)
                &&& spec_sign(r->0.bits) == spec_sign(self.bits)
                &&& r->0.is_valid()
            },
    {
        match self.try_rem(rhs) {
            Ok(v) => Some(v),
            Err(_) => None,
        }
    }
}


/// The exact sum of two finite values, in units of 2^-1074.
pub open spec fn spec_sum(a: u64, b: u64) -> int {
    spec_val(a) + spec_val(b)
}

/// The exact difference of two finite values, in units of 2^-1074.
pub open spec fn spec_difference(a: u64, b: u64) -> int {
    spec_val(a) - spec_val(b)
}

/// The magnitude of the exact product, in units of 2^-2148.
pub open spec fn spec_product_mag(a: u64, b: u64) -> nat {
    spec_mag(a) * spec_mag(b)
}

/// The rounded magnitude of the exact sum.
pub open spec fn spec_add_mag(a: u64, b: u64) -> nat {
    spec_round_frac(spec_abs(spec_sum(a, b)), 1)
}

/// The rounded magnitude of the exact difference.
pub open spec fn spec_sub_mag(a: u64, b: u64) -> nat {
    spec_round_frac(spec_abs(spec_difference(a, b)), 1)
}

/// The rounded magnitude of the exact product.
pub open spec fn spec_mul_mag(a: u64, b: u64) -> nat {
    spec_round_frac(spec_product_mag(a, b), pow2(1074))
}

/// The rounded magnitude of the exact quotient.
pub open spec fn spec_div_mag(a: u64, b: u64) -> nat {
    spec_round_frac(spec_mag(a) * pow2(1074), spec_mag(b))
}

/// Sum and sign of two signed values read off their signs and ordered
/// magnitudes.
proof fn lemma_signed_sum(x: int, y: int, sx: bool, sy: bool, mx: nat, my: nat)
    requires
        x == if sx { -(mx as int) } else { mx as int },
        y == if sy { -(my as int) } else { my as int },
        mx >= my,
    ensures
        sx == sy ==> spec_abs(x + y) == mx + my,
        sx != sy ==> spec_abs(x + y) == mx - my,
        x + y > 0 ==> !sx,
        x + y < 0 ==> sx,
{
}

/// The magnitude of a finite pattern stays within the largest finite one.
proof fn lemma_mag_within_max(bits: u64)
    requires
        spec_is_valid(bits),
    ensures
        spec_mag(bits) <= max_mag(),
{
    let m = spec_mantissa(bits);
    let e = spec_scale(bits);
    let be = spec_biased_exp(bits);
    let fr = spec_frac_of(bits);
    assert(fr < 0x10_0000_0000_0000 && be <= 0x7FF) by (bit_vector)
        requires
            be == (bits >> 52) & 0x7FF,
            fr == bits & 0x000F_FFFF_FFFF_FFFF,
    ;
    assert(m < 0x20_0000_0000_0000);
    assert(e <= 2045);
    lemma_pow2_pos(e);
    assert((m as nat) * pow2(e) <= (0x1F_FFFF_FFFF_FFFF as nat) * pow2(e)) by {
        lemma_mul_inequality(m as int, 0x1F_FFFF_FFFF_FFFF as int, pow2(e) as int);
    }
    assert(pow2(e) <= pow2(2045)) by {
        if e < 2045 {
            lemma_pow2_strictly_increases(e, 2045);
        }
    }
    assert((0x1F_FFFF_FFFF_FFFF as nat) * pow2(e) <= (0x1F_FFFF_FFFF_FFFF as nat) * pow2(2045)) by {
        vstd::arithmetic::mul::lemma_mul_left_inequality(0x1F_FFFF_FFFF_FFFF as int, pow2(e) as int, pow2(2045) as int);
    }
}

/// An exact product of mantissa and power of two is its own window at that
/// scale.
proof fn lemma_exact_window(mm: u128, ee: nat)
    requires
        ee <= 4200,
    ensures
        window_of((mm as nat) * pow2(ee), 1, mm, ee as int, false),
{
    lemma_pow2_pos(ee);
    lemma_mul_basics(pow2(ee) as int);
    assert(1nat * pow2(ee) == pow2(ee));
    crate::round::lemma_div_cancel_factor(mm as nat, 1, pow2(ee));
    crate::round::lemma_mod_cancel_factor(mm as nat, 1, pow2(ee));
    assert((mm as nat) / 1 == mm as nat && (mm as nat) % 1 == 0) by {
        vstd::arithmetic::div_mod::lemma_fundamental_div_mod_converse(
            mm as int,
            1,
            mm as int,
            0,
        );
    }
    assert((mm as nat) * pow2(ee) / (1nat * pow2(ee)) == mm as nat);
    assert((mm as nat) * pow2(ee) % (1nat * pow2(ee)) == 0nat * pow2(ee));
    lemma_mul_basics(pow2(ee) as int);
}

/// Rounds the exact signed sum of two finite patterns: the shared heart of
/// addition and subtraction.
#[verifier::rlimit(80)]
fn add_bits(a: u64, b: u64) -> (r: Option<u64>)
    requires
        spec_is_valid(a),
        spec_is_valid(b),
    ensures
        r is Some <==> spec_add_mag(a, b) <= max_mag(),
        r is Some ==> {
            &&& spec_mag(r->0) == spec_add_mag(a, b)
            &&& spec_is_valid(r->0)
            &&& (spec_sum(a, b) > 0 ==> !spec_sign(r->0))
            &&& (spec_sum(a, b) < 0 ==> spec_sign(r->0))
            &&& (spec_sum(a, b) == 0 ==> r->0 == if spec_sign(a) && spec_sign(b) {
                0x8000_0000_0000_0000u64
            } else {
                0u64
            })
        },
{
    let (sa, ma0, ea0) = decompose(a);
    let (sb, mb0, eb0) = decompose(b);
    proof {
        lemma_pow2_pos(ea0 as nat);
        lemma_pow2_pos(eb0 as nat);
    }
    let ord = cmp_mag(ma0 as u128, ea0 as u32, mb0 as u128, eb0 as u32);
    let (s1, m1, e1, s2, m2, e2) = if ord >= 0 {
        (sa, ma0, ea0, sb, mb0, eb0)
    } else {
        (sb, mb0, eb0, sa, ma0, ea0)
    };
    let ghost x = spec_sum(a, b);
    let ghost mag1 = (m1 as nat) * pow2(e1 as nat);
    let ghost mag2 = (m2 as nat) * pow2(e2 as nat);
    proof {
        lemma_signed_sum(
            if ord >= 0 { spec_val(a) } else { spec_val(b) },
            if ord >= 0 { spec_val(b) } else { spec_val(a) },
            s1, s2, mag1, mag2,
        );
        crate::compare::lemma_mag_order_scales(m1, e1, m2, e2);
        if m1 == 0 {
            lemma_mul_basics(pow2(e1 as nat) as int);
        }
        if m2 == 0 {
            lemma_mul_basics(pow2(e2 as nat) as int);
        }
    }
    let same = s1 == s2;
    if m1 == 0 {
        // both operands are zeros: the sum is the zero with the agreed sign
        let bits: u64 = if sa && sb {
            0x8000_0000_0000_0000
        } else {
            0
        };
        proof {
            lemma_round_zero_frac();
            crate::ops::lemma_zero_pattern(bits);
            lemma_mag_within_max(bits);
        }
        return Some(bits);
    }
    if m2 == 0 {
        // one operand is a zero: the sum is the other, re-rounded exactly
        proof {
            lemma_exact_window(m1 as u128, e1 as nat);
            lemma_window_round(mag1, 1, m1 as u128, e1 as int, false);
            lemma_mag_within_max(if ord >= 0 { a } else { b });
        }
        return round_window_to_bits(s1, m1 as u128, e1 as i64, false);
    }
    if e1 - e2 <= 74 {
        proof {
            crate::compare::lemma_shift_in_range(m1, e1, e2);
        }
        let shifted = shl_u128(m1 as u128, (e1 - e2) as u32);
        proof {
            lemma_pow2_adds((e1 - e2) as nat, e2 as nat);
            lemma_mul_is_associative(m1 as int, pow2((e1 - e2) as nat) as int, pow2(e2 as nat) as int);
            assert(mag1 == (shifted as nat) * pow2(e2 as nat));
            if !same {
                crate::dyadic::lemma_scale_cancel_le(m2 as u128, shifted, e2 as nat);
            }
        }
        let dm: u128 = if same {
            shifted + (m2 as u128)
        } else {
            shifted - (m2 as u128)
        };
        proof {
            lemma_mul_is_distributive_add_other_way(pow2(e2 as nat) as int, shifted as int, m2 as int);
            vstd::arithmetic::mul::lemma_mul_is_distributive_sub_other_way(pow2(e2 as nat) as int, shifted as int, m2 as int);
            assert(spec_abs(x) == (dm as nat) * pow2(e2 as nat));
        }
        if dm == 0 {
            // exact cancellation: positive zero
            proof {
                lemma_mul_basics(pow2(e2 as nat) as int);
                assert(spec_abs(x) == 0);
                lemma_round_zero_frac();
                crate::ops::lemma_zero_pattern(0);
                lemma_mag_within_max(0);
                assert(!(spec_sign(a) && spec_sign(b)));
            }
            return Some(0);
        }
        proof {
            lemma_exact_window(dm, e2 as nat);
            lemma_window_round((dm as nat) * pow2(e2 as nat), 1, dm, e2 as int, false);
            assert(spec_abs(x) > 0) by {
                lemma_mul_strictly_positive(dm as int, pow2(e2 as nat) as int);
            }
            assert(x != 0);
        }
        round_window_to_bits(s1, dm, e2 as i64, false)
    } else {
        // far scales: the smaller operand only sets the sticky flag
        proof {
            lemma2_to64();
        }
        let mm: u128 = if same {
            (m1 as u128) * 0x200000
        } else {
            (m1 as u128) * 0x200000 - 1
        };
        proof {
            lemma_far_window(m1, e1, m2, e2, same, mm, spec_abs(x));
            lemma_window_round(spec_abs(x), 1, mm, (e1 - 21) as int, true);
            assert(spec_abs(x) != 0) by {
                if spec_abs(x) == 0 {
                    lemma_pow2_pos((e1 - 21) as nat);
                    vstd::arithmetic::div_mod::lemma_small_mod(0nat, (1nat * pow2((e1 - 21) as nat)) as nat);
                    lemma_mul_basics(pow2((e1 - 21) as nat) as int);
                }
            }
            assert(x != 0);
        }
        round_window_to_bits(s1, mm, e1 as i64 - 21, true)
    }
}

/// Rounding zero gives zero.
proof fn lemma_round_zero_frac()
    ensures
        spec_round_frac(0, 1) == 0,
{
    lemma2_to64();
    assert(spec_bitlen_nat(0nat / 1) == 0) by {
        assert(0nat / 1 == 0) by {
            vstd::arithmetic::div_mod::lemma_basic_div(0, 1);
        }
    }
    lemma_mul_basics(pow2(0nat) as int);
    assert(1nat * pow2(0nat) == 1);
    assert(0nat / 1 == 0 && 0nat % 1 == 0) by {
        vstd::arithmetic::div_mod::lemma_basic_div(0, 1);
        vstd::arithmetic::div_mod::lemma_small_mod(0nat, 1nat);
    }
}

/// The two zero patterns: sign bit only.
pub(crate) proof fn lemma_zero_pattern(bits: u64)
    requires
        bits == 0 || bits == 0x8000_0000_0000_0000u64,
    ensures
        spec_is_valid(bits),
        spec_mag(bits) == 0,
        spec_sign(bits) == (bits == 0x8000_0000_0000_0000u64),
        spec_mantissa(bits) == 0,
{
    assert((bits >> 52) & 0x7FF == 0 && bits & 0x000F_FFFF_FFFF_FFFF == 0
        && ((bits >> 63 == 1) == (bits == 0x8000_0000_0000_0000u64))) by (bit_vector)
        requires
            bits == 0 || bits == 0x8000_0000_0000_0000u64,
    ;
    lemma_mul_basics(pow2(0nat) as int);
}

/// With far scales the sum's window is the dominant mantissa widened by 21
/// bits, less one for a subtraction, with the sticky flag set.
#[verifier::rlimit(60)]
proof fn lemma_far_window(m1: u64, e1: u64, m2: u64, e2: u64, same: bool, mm: u128, ax: nat)
    requires
        m1 >= 0x10_0000_0000_0000,
        m1 < 0x20_0000_0000_0000,
        0 < m2 < 0x20_0000_0000_0000,
        e1 >= e2 + 75,
        e1 <= 2045,
        mm == if same { (m1 as nat) * 0x200000 } else { ((m1 as nat) * 0x200000 - 1) as nat },
        ax == if same {
            (m1 as nat) * pow2(e1 as nat) + (m2 as nat) * pow2(e2 as nat)
        } else {
            ((m1 as nat) * pow2(e1 as nat) - (m2 as nat) * pow2(e2 as nat)) as nat
        },
    ensures
        window_of(ax, 1, mm, (e1 - 21) as int, true),
{
    let ee = (e1 - 21) as nat;
    lemma2_to64();
    lemma2_to64_rest();
    lemma_pow2_pos(ee);
    lemma_pow2_pos(e2 as nat);
    let mag2 = (m2 as nat) * pow2(e2 as nat);
    // 0 < mag2 < 2^(e1 - 22) < 2^ee
    assert(0 < mag2) by {
        lemma_mul_strictly_positive(m2 as int, pow2(e2 as nat) as int);
    }
    assert(mag2 < pow2(ee)) by {
        assert(mag2 < pow2(53) * pow2(e2 as nat)) by {
            lemma_mul_strict_inequality(m2 as int, pow2(53) as int, pow2(e2 as nat) as int);
        }
        lemma_pow2_adds(53, e2 as nat);
        assert(pow2(53 + e2 as nat) <= pow2(ee)) by {
            if (53 + e2 as nat) < ee {
                lemma_pow2_strictly_increases(53 + e2 as nat, ee);
            }
        }
    }
    // m1 * 2^e1 == (m1 * 2^21) * 2^ee
    assert((m1 as nat) * pow2(e1 as nat) == ((m1 as nat) * 0x200000) * pow2(ee)) by {
        lemma_pow2_adds(21, ee);
        lemma_mul_is_associative(m1 as int, 0x200000, pow2(ee) as int);
        assert(pow2(21) == 0x200000);
    }
    let q = mm as nat;
    let rem: nat = if same {
        mag2
    } else {
        (pow2(ee) - mag2) as nat
    };
    assert(ax == q * pow2(ee) + rem) by {
        if !same {
            assert((((m1 as nat) * 0x200000 - 1) as nat) * pow2(ee)
                == ((m1 as nat) * 0x200000) * pow2(ee) - pow2(ee)) by {
                vstd::arithmetic::mul::lemma_mul_is_distributive_sub_other_way(
                    pow2(ee) as int,
                    ((m1 as nat) * 0x200000) as int,
                    1,
                );
                lemma_mul_basics(pow2(ee) as int);
            }
        }
    }
    assert(rem < pow2(ee) && rem != 0);
    assert(1nat * pow2(ee) == pow2(ee)) by {
        lemma_mul_basics(pow2(ee) as int);
    }
    assert(q == ax / pow2(ee) && rem == ax % pow2(ee)) by {
        lemma_fundamental_div_mod_converse_div(ax as int, pow2(ee) as int, q as int, rem as int);
        lemma_fundamental_div_mod_converse_mod(ax as int, pow2(ee) as int, q as int, rem as int);
        lemma_mul_is_commutative(q as int, pow2(ee) as int);
    }
    // the window keeps at least 54 bits
    assert(spec_bitlen(mm) >= 54) by {
        lemma_bitlen_u128(mm);
        lemma_bitlen_nat_bounds(mm as nat);
        assert(mm as nat >= 0x20000000000000000) by {
            assert((m1 as nat) * 0x200000 >= 0x10_0000_0000_0000 * 0x200000) by {
                lemma_mul_inequality(0x10_0000_0000_0000, m1 as int, 0x200000);
            }
        }
        if spec_bitlen_nat(mm as nat) <= 53 {
            assert((mm as nat) < pow2(spec_bitlen_nat(mm as nat)));
            assert(pow2(spec_bitlen_nat(mm as nat)) <= pow2(53)) by {
                if spec_bitlen_nat(mm as nat) < 53 {
                    lemma_pow2_strictly_increases(spec_bitlen_nat(mm as nat), 53);
                }
            }
        }
    }
}

/// Rounds the exact product of two finite patterns.
#[verifier::rlimit(60)]
fn mul_bits(a: u64, b: u64) -> (r: Option<u64>)
    requires
        spec_is_valid(a),
        spec_is_valid(b),
    ensures
        r is Some <==> spec_mul_mag(a, b) <= max_mag(),
        r is Some ==> {
            &&& spec_mag(r->0) == spec_mul_mag(a, b)
            &&& spec_is_valid(r->0)
            &&& spec_sign(r->0) == (spec_sign(a) != spec_sign(b))
        },
{
    let (sa, ma, ea) = decompose(a);
    let (sb, mb, eb) = decompose(b);
    proof {
        lemma_mul_inequality(ma as int, 0x1F_FFFF_FFFF_FFFF as int, mb as int);
        vstd::arithmetic::mul::lemma_mul_left_inequality(0x1F_FFFF_FFFF_FFFF as int, mb as int, 0x1F_FFFF_FFFF_FFFF as int);
        lemma_mul_is_commutative(ma as int, mb as int);
    }
    let mm: u128 = (ma as u128) * (mb as u128);
    let e: i64 = ea as i64 + eb as i64 - 1074;
    proof {
        lemma_mul_window(ma, ea, mb, eb, mm, e as int);
        lemma_window_round(spec_product_mag(a, b), pow2(1074), mm, e as int, false);
    }
    round_window_to_bits(sa != sb, mm, e, false)
}

/// The product of the mantissas at the summed scales is the exact window of
/// the product of the magnitudes over 2^1074.
#[verifier::rlimit(60)]
proof fn lemma_mul_window(ma: u64, ea: u64, mb: u64, eb: u64, mm: u128, e: int)
    requires
        ea <= 2045,
        eb <= 2045,
        mm == (ma as nat) * (mb as nat),
        e == ea + eb - 1074,
    ensures
        window_of(
            ((ma as nat) * pow2(ea as nat)) * ((mb as nat) * pow2(eb as nat)),
            pow2(1074),
            mm,
            e,
            false,
        ),
{
    let n = ((ma as nat) * pow2(ea as nat)) * ((mb as nat) * pow2(eb as nat));
    lemma_pow2_pos(1074);
    lemma_pow2_pos(ea as nat);
    lemma_pow2_pos(eb as nat);
    lemma_pow2_adds(ea as nat, eb as nat);
    // n == mm * 2^(ea + eb)
    assert(n == (mm as nat) * pow2((ea + eb) as nat)) by {
        // shuffle (ma * 2^ea) * (mb * 2^eb) into (ma * mb) * (2^ea * 2^eb)
        lemma_mul_is_associative(((ma as nat) * pow2(ea as nat)) as int, mb as int, pow2(eb as nat) as int);
        lemma_mul_is_commutative(((ma as nat) * pow2(ea as nat)) as int, mb as int);
        lemma_mul_is_associative(mb as int, ma as int, pow2(ea as nat) as int);
        lemma_mul_is_commutative(mb as int, ma as int);
        lemma_mul_is_associative(((ma as nat) * (mb as nat)) as int, pow2(ea as nat) as int, pow2(eb as nat) as int);
    }
    if e >= 0 {
        // 2^1074 * 2^e == 2^(ea + eb)
        lemma_pow2_adds(1074, e as nat);
        lemma_pow2_pos(e as nat);
        assert(pow2(1074) * pow2(e as nat) == pow2((ea + eb) as nat));
        assert(n / (pow2(1074) * pow2(e as nat)) == mm as nat
            && n % (pow2(1074) * pow2(e as nat)) == 0) by {
            lemma_pow2_pos((ea + eb) as nat);
            lemma_fundamental_div_mod_converse_div(
                n as int,
                pow2((ea + eb) as nat) as int,
                mm as int,
                0,
            );
            lemma_fundamental_div_mod_converse_mod(
                n as int,
                pow2((ea + eb) as nat) as int,
                mm as int,
                0,
            );
            lemma_mul_is_commutative(mm as int, pow2((ea + eb) as nat) as int);
        }
    } else {
        // n * 2^(-e) == mm * 2^1074
        let sh = (-e) as nat;
        lemma_pow2_adds((ea + eb) as nat, sh);
        assert(n * pow2(sh) == (mm as nat) * pow2(1074)) by {
            lemma_mul_is_associative(mm as int, pow2((ea + eb) as nat) as int, pow2(sh) as int);
        }
        assert((n * pow2(sh)) / pow2(1074) == mm as nat
            && (n * pow2(sh)) % pow2(1074) == 0) by {
            lemma_fundamental_div_mod_converse_div(
                (n * pow2(sh)) as int,
                pow2(1074) as int,
                mm as int,
                0,
            );
            lemma_fundamental_div_mod_converse_mod(
                (n * pow2(sh)) as int,
                pow2(1074) as int,
                mm as int,
                0,
            );
            lemma_mul_is_commutative(mm as int, pow2(1074) as int);
        }
    }
}

/// Rounds the exact quotient of two finite patterns; the divisor is not
/// zero.
#[verifier::rlimit(80)]
fn div_bits(a: u64, b: u64) -> (r: Option<u64>)
    requires
        spec_is_valid(a),
        spec_is_valid(b),
        spec_mag(b) != 0,
    ensures
        r is Some <==> spec_div_mag(a, b) <= max_mag(),
        r is Some ==> {
            &&& spec_mag(r->0) == spec_div_mag(a, b)
            &&& spec_is_valid(r->0)
            &&& spec_sign(r->0) == (spec_sign(a) != spec_sign(b))
        },
{
    let (sa, ma, ea) = decompose(a);
    let (sb, mb, eb) = decompose(b);
    proof {
        if mb == 0 {
            lemma_mul_basics(pow2(eb as nat) as int);
        }
    }
    let bla = crate::dyadic::bitlen(ma as u128);
    let blb = crate::dyadic::bitlen(mb as u128);
    proof {
        lemma_bitlen_u128(ma as u128);
        lemma_bitlen_u128(mb as u128);
        lemma_bitlen_small(ma);
        lemma_bitlen_small(mb);
    }
    let t: u32 = 75 + blb - bla;
    proof {
        lemma_div_shift_fits(ma, bla, blb, t as nat);
    }
    let num = shl_u128(ma as u128, t);
    let q = num / (mb as u128);
    let rq = num % (mb as u128);
    let sticky = rq != 0;
    let e: i64 = ea as i64 + 1074 - eb as i64 - t as i64;
    proof {
        lemma_div_window(ma, ea, mb, eb, t as nat, q, rq, e as int, bla as nat, blb as nat);
        lemma_window_round(spec_mag(a) * pow2(1074), spec_mag(b), q, e as int, sticky);
    }
    round_window_to_bits(sa != sb, q, e, sticky)
}

/// A mantissa has at most 53 bits, and a positive one at least one.
proof fn lemma_bitlen_small(m: u64)
    requires
        m < 0x20_0000_0000_0000,
    ensures
        spec_bitlen_nat(m as nat) <= 53,
        m > 0 ==> spec_bitlen_nat(m as nat) >= 1,
{
    lemma_bitlen_nat_bounds(m as nat);
    lemma2_to64();
    lemma2_to64_rest();
    if spec_bitlen_nat(m as nat) > 53 {
        assert(pow2(53) <= pow2((spec_bitlen_nat(m as nat) - 1) as nat)) by {
            if 53 < spec_bitlen_nat(m as nat) - 1 {
                lemma_pow2_strictly_increases(53, (spec_bitlen_nat(m as nat) - 1) as nat);
            }
        }
    }
}

/// The chosen shift keeps the scaled dividend within 128 bits and the
/// quotient wide enough for the sticky flag.
proof fn lemma_div_shift_fits(ma: u64, bla: u32, blb: u32, t: nat)
    requires
        ma < 0x20_0000_0000_0000,
        bla == spec_bitlen(ma as u128),
        blb <= 53,
        bla <= 53,
        t == 75 + blb - bla,
    ensures
        (ma as nat) * pow2(t) < 0x100000000000000000000000000000000,
{
    lemma_bitlen_u128(ma as u128);
    lemma_bitlen_nat_bounds(ma as nat);
    lemma_pow2_pos(t);
    assert((ma as nat) * pow2(t) < pow2(bla as nat) * pow2(t)) by {
        if ma == 0 {
            lemma_mul_basics(pow2(t) as int);
            lemma_mul_strictly_positive(pow2(bla as nat) as int, pow2(t) as int);
        } else {
            lemma_mul_strict_inequality(ma as int, pow2(bla as nat) as int, pow2(t) as int);
        }
    }
    lemma_pow2_adds(bla as nat, t);
    assert(pow2(bla as nat + t) <= pow2(128)) by {
        if bla as nat + t < 128 {
            lemma_pow2_strictly_increases(bla as nat + t, 128);
        }
    }
    crate::dyadic::lemma_pow2_128();
}

/// The shifted mantissa quotient is the window of the magnitude quotient.
#[verifier::rlimit(100)]
proof fn lemma_div_window(
    ma: u64,
    ea: u64,
    mb: u64,
    eb: u64,
    t: nat,
    q: u128,
    rq: u128,
    e: int,
    bla: nat,
    blb: nat,
)
    requires
        ma < 0x20_0000_0000_0000,
        mb > 0,
        mb < 0x20_0000_0000_0000,
        ea <= 2045,
        eb <= 2045,
        bla == spec_bitlen_nat(ma as nat),
        blb == spec_bitlen_nat(mb as nat),
        bla <= 53,
        1 <= blb <= 53,
        t == 75 + blb - bla,
        q == ((ma as nat) * pow2(t)) / (mb as nat),
        rq == ((ma as nat) * pow2(t)) % (mb as nat),
        e == ea + 1074 - eb - t,
    ensures
        window_of(
            ((ma as nat) * pow2(ea as nat)) * pow2(1074),
            (mb as nat) * pow2(eb as nat),
            q,
            e,
            rq != 0,
        ),
{
    let n = ((ma as nat) * pow2(ea as nat)) * pow2(1074);
    let d = (mb as nat) * pow2(eb as nat);
    let num = (ma as nat) * pow2(t);
    lemma_pow2_pos(ea as nat);
    lemma_pow2_pos(eb as nat);
    lemma_pow2_pos(1074);
    lemma_pow2_pos(t);
    assert(d > 0) by {
        lemma_mul_strictly_positive(mb as int, pow2(eb as nat) as int);
    }
    // n == num * 2^(ea + 1074 - t)
    let g = (ea + 1074 - t) as nat;
    assert(ea + 1074 - t >= 0);
    assert(n == num * pow2(g)) by {
        lemma_pow2_adds(ea as nat, 1074);
        lemma_pow2_adds(t, g);
        lemma_mul_is_associative(ma as int, pow2(ea as nat) as int, pow2(1074) as int);
        lemma_mul_is_associative(ma as int, pow2(t) as int, pow2(g) as int);
    }
    if e >= 0 {
        // d * 2^e == mb * 2^g, and the common factor 2^g cancels
        assert((mb as nat) * pow2(eb as nat) * pow2(e as nat) == (mb as nat) * pow2(g)) by {
            lemma_pow2_adds(eb as nat, e as nat);
            lemma_mul_is_associative(mb as int, pow2(eb as nat) as int, pow2(e as nat) as int);
        }
        assert(n / (d * pow2(e as nat)) == q as nat && (n % (d * pow2(e as nat)) != 0 <==> rq != 0)) by {
            assert(d * pow2(e as nat) == (mb as nat) * pow2(g)) by {
                lemma_mul_is_associative(mb as int, pow2(eb as nat) as int, pow2(e as nat) as int);
                lemma_pow2_adds(eb as nat, e as nat);
            }
            lemma_pow2_pos(g);
            crate::round::lemma_div_cancel_factor(num, mb as nat, pow2(g));
            crate::round::lemma_mod_cancel_factor(num, mb as nat, pow2(g));
            assert((num * pow2(g)) / ((mb as nat) * pow2(g)) == num / (mb as nat));
            assert((num * pow2(g)) % ((mb as nat) * pow2(g)) == (num % (mb as nat)) * pow2(g));
            if num % (mb as nat) != 0 {
                lemma_mul_strictly_positive((num % (mb as nat)) as int, pow2(g) as int);
            } else {
                lemma_mul_basics(pow2(g) as int);
            }
        }
    } else {
        let sh = (-e) as nat;
        // n * 2^sh == num * 2^(g + sh) and eb == g + sh + ... : d = mb * 2^(g + sh)
        assert(g + sh == eb as nat);
        assert(n * pow2(sh) == num * pow2(eb as nat)) by {
            lemma_pow2_adds(g, sh);
            lemma_mul_is_associative(num as int, pow2(g) as int, pow2(sh) as int);
        }
        assert((n * pow2(sh)) / d == q as nat && ((n * pow2(sh)) % d != 0 <==> rq != 0)) by {
            lemma_pow2_pos(eb as nat);
            crate::round::lemma_div_cancel_factor(num, mb as nat, pow2(eb as nat));
            crate::round::lemma_mod_cancel_factor(num, mb as nat, pow2(eb as nat));
            assert((num * pow2(eb as nat)) / ((mb as nat) * pow2(eb as nat)) == num / (mb as nat));
            assert((num * pow2(eb as nat)) % ((mb as nat) * pow2(eb as nat)) == (num % (mb as nat)) * pow2(eb as nat));
            if num % (mb as nat) != 0 {
                lemma_mul_strictly_positive((num % (mb as nat)) as int, pow2(eb as nat) as int);
            } else {
                lemma_mul_basics(pow2(eb as nat) as int);
            }
        }
    }
    // a nonzero remainder forces a wide quotient
    if rq != 0 {
        assert(ma > 0) by {
            if ma == 0 {
                lemma_mul_basics(pow2(t) as int);
                vstd::arithmetic::div_mod::lemma_small_mod(0nat, mb as nat);
            }
        }
        assert(spec_bitlen(q) >= 54) by {
            lemma_bitlen_u128(q);
            lemma_bitlen_nat_bounds(ma as nat);
            lemma_bitlen_nat_bounds(mb as nat);
            lemma_bitlen_nat_bounds(q as nat);
            // num >= 2^(bla - 1 + t) == 2^(74 + blb), so q >= 2^74
            assert(num >= pow2((bla - 1) as nat) * pow2(t)) by {
                lemma_mul_inequality(pow2((bla - 1) as nat) as int, ma as int, pow2(t) as int);
            }
            lemma_pow2_adds((bla - 1) as nat, t);
            assert(pow2((bla - 1) as nat + t) == pow2(74 + blb));
            lemma_pow2_adds(74, blb);
            // q == num / mb >= 2^(74 + blb) / 2^blb == 2^74
            assert(q as nat >= pow2(74)) by {
                assert(num / (mb as nat) >= pow2(74 + blb) / (mb as nat)) by {
                    vstd::arithmetic::div_mod::lemma_div_is_ordered(
                        pow2(74 + blb) as int,
                        num as int,
                        mb as int,
                    );
                }
                assert(pow2(74 + blb) / (mb as nat) >= pow2(74)) by {
                    assert(pow2(74 + blb) == pow2(74) * pow2(blb));
                    assert(pow2(74) * pow2(blb) >= pow2(74) * (mb as nat)) by {
                        lemma_pow2_pos(74);
                        vstd::arithmetic::mul::lemma_mul_left_inequality(pow2(74) as int, mb as int, pow2(blb) as int);
                    }
                    vstd::arithmetic::div_mod::lemma_div_is_ordered(
                        (pow2(74) * (mb as nat)) as int,
                        (pow2(74) * pow2(blb)) as int,
                        mb as int,
                    );
                    vstd::arithmetic::div_mod::lemma_div_multiples_vanish(pow2(74) as int, mb as int);
                    lemma_mul_is_commutative(pow2(74) as int, mb as int);
                }
            }
            if spec_bitlen_nat(q as nat) <= 53 {
                assert((q as nat) < pow2(spec_bitlen_nat(q as nat)));
                assert(pow2(spec_bitlen_nat(q as nat)) <= pow2(53)) by {
                    if spec_bitlen_nat(q as nat) < 53 {
                        lemma_pow2_strictly_increases(spec_bitlen_nat(q as nat), 53);
                    }
                }
                assert(pow2(53) <= pow2(74)) by {
                    lemma_pow2_strictly_increases(53, 74);
                }
            }
        }
    }
}

/// A sign flip negates the value and keeps it finite.
proof fn lemma_neg_val(bits: u64)
    requires
        spec_is_valid(bits),
    ensures
        spec_is_valid(bits ^ 0x8000_0000_0000_0000),
        spec_val(bits ^ 0x8000_0000_0000_0000) == -spec_val(bits),
        spec_mag(bits ^ 0x8000_0000_0000_0000) == spec_mag(bits),
        spec_sign(bits ^ 0x8000_0000_0000_0000) == !spec_sign(bits),
{
    lemma_sign_flip(bits);
}

impl ExtendedFloat {
    /// The sum, or the reason it cannot be held: a result beyond the largest
    /// finite magnitude would be infinite.
    pub fn try_add(&self, rhs: Self) -> (r: Result<Self, ConversionError>)
        requires
            self.is_valid(),
            rhs.is_valid(),
        ensures
            r is Ok <==> spec_add_mag(self.bits, rhs.bits) <= max_mag(),
            r is Ok ==> {
                &&& spec_mag(r->Ok_0.bits) == spec_add_mag(self.bits, rhs.bits)
                &&& r->Ok_0.is_valid()
                &&& (spec_sum(self.bits, rhs.bits) > 0 ==> !spec_sign(r->Ok_0.bits))
                &&& (spec_sum(self.bits, rhs.bits) < 0 ==> spec_sign(r->Ok_0.bits))
                &&& (spec_sum(self.bits, rhs.bits) == 0 ==> r->Ok_0.bits == if spec_sign(self.bits)
                    && spec_sign(rhs.bits) {
                    0x8000_0000_0000_0000u64
                } else {
                    0u64
                })
            },
            r is Err ==> r->Err_0 == ConversionError::Infinite,
    {
        match add_bits(self.bits, rhs.bits) {
            Some(bits) => Ok(ExtendedFloat { bits }),
            None => Err(ConversionError::Infinite),
        }
    }

    /// The sum, or nothing when it would be infinite.
    pub fn checked_add(&self, rhs: Self) -> (r: Option<Self>)
        requires
            self.is_valid(),
            rhs.is_valid(),
        ensures
            r is Some <==> spec_add_mag(self.bits, rhs.bits) <= max_mag(),
            r is Some ==> {
                &&& spec_mag(r->0.bits) == spec_add_mag(self.bits, rhs.bits)
                &&& r->0.is_valid()
                &&& (spec_sum(self.bits, rhs.bits) > 0 ==> !spec_sign(r->0.bits))
                &&& (spec_sum(self.bits, rhs.bits) < 0 ==> spec_sign(r->0.bits))
            },
    {
        match self.try_add(rhs) {
            Ok(v) => Some(v),
            Err(_) => None,
        }
    }

    /// The difference, or the reason it cannot be held.
    pub fn try_sub(&self, rhs: Self) -> (r: Result<Self, ConversionError>)
        requires
            self.is_valid(),
            rhs.is_valid(),
        ensures
            r is Ok <==> spec_sub_mag(self.bits, rhs.bits) <= max_mag(),
            r is Ok ==> {
                &&& spec_mag(r->Ok_0.bits) == spec_sub_mag(self.bits, rhs.bits)
                &&& r->Ok_0.is_valid()
                &&& (spec_difference(self.bits, rhs.bits) > 0 ==> !spec_sign(r->Ok_0.bits))
                &&& (spec_difference(self.bits, rhs.bits) < 0 ==> spec_sign(r->Ok_0.bits))
            },
            r is Err ==> r->Err_0 == ConversionError::Infinite,
    {
        let flipped = rhs.bits ^ 0x8000_0000_0000_0000;
        proof {
            lemma_neg_val(rhs.bits);
            assert(spec_sum(self.bits, flipped) == spec_difference(self.bits, rhs.bits));
        }
        match add_bits(self.bits, flipped) {
            Some(bits) => Ok(ExtendedFloat { bits }),
            None => Err(ConversionError::Infinite),
        }
    }

    /// The difference, or nothing when it would be infinite.
    pub fn checked_sub(&self, rhs: Self) -> (r: Option<Self>)
        requires
            self.is_valid(),
            rhs.is_valid(),
        ensures
            r is Some <==> spec_sub_mag(self.bits, rhs.bits) <= max_mag(),
            r is Some ==> {
                &&& spec_mag(r->0.bits) == spec_sub_mag(self.bits, rhs.bits)
                &&& r->0.is_valid()
                &&& (spec_difference(self.bits, rhs.bits) > 0 ==> !spec_sign(r->0.bits))
                &&& (spec_difference(self.bits, rhs.bits) < 0 ==> spec_sign(r->0.bits))
            },
    {
        match self.try_sub(rhs) {
            Ok(v) => Some(v),
            Err(_) => None,
        }
    }

    /// The product, or the reason it cannot be held.
    pub fn try_mul(&self, rhs: Self) -> (r: Result<Self, ConversionError>)
        requires
            self.is_valid(),
            rhs.is_valid(),
        ensures
            r is Ok <==> spec_mul_mag(self.bits, rhs.bits) <= max_mag(),
            r is Ok ==> {
                &&& spec_mag(r->Ok_0.bits) == spec_mul_mag(self.bits, rhs.bits)
                &&& r->Ok_0.is_valid()
                &&& spec_sign(r->Ok_0.bits) == (spec_sign(self.bits) != spec_sign(rhs.bits))
            },
            r is Err ==> r->Err_0 == ConversionError::Infinite,
    {
        match mul_bits(self.bits, rhs.bits) {
            Some(bits) => Ok(ExtendedFloat { bits }),
            None => Err(ConversionError::Infinite),
        }
    }

    /// The product, or nothing when it would be infinite.
    pub fn checked_mul(&self, rhs: Self) -> (r: Option<Self>)
        requires
            self.is_valid(),
            rhs.is_valid(),
        ensures
            r is Some <==> spec_mul_mag(self.bits, rhs.bits) <= max_mag(),
            r is Some ==> {
                &&& spec_mag(r->0.bits) == spec_mul_mag(self.bits, rhs.bits)
                &&& r->0.is_valid()
                &&& spec_sign(r->0.bits) == (spec_sign(self.bits) != spec_sign(rhs.bits))
            },
    {
        match self.try_mul(rhs) {
            Ok(v) => Some(v),
            Err(_) => None,
        }
    }

    /// The quotient, or the reason it cannot be held: dividing a nonzero
    /// value by zero would be infinite, zero by zero would be NaN, and an
    /// overflowing quotient would be infinite.
    pub fn try_div(&self, rhs: Self) -> (r: Result<Self, ConversionError>)
        requires
            self.is_valid(),
            rhs.is_valid(),
        ensures
            r is Ok <==> (spec_mag(rhs.bits) != 0 && spec_div_mag(self.bits, rhs.bits) <= max_mag()),
            r is Ok ==> {
                &&& spec_mag(r->Ok_0.bits) == spec_div_mag(self.bits, rhs.bits)
                &&& r->Ok_0.is_valid()
                &&& spec_sign(r->Ok_0.bits) == (spec_sign(self.bits) != spec_sign(rhs.bits))
            },
            spec_mag(rhs.bits) == 0 ==> r == Result::<Self, ConversionError>::Err(
                if spec_mag(self.bits) == 0 {
                    ConversionError::NaN
                } else {
                    ConversionError::Infinite
                },
            ),
            (spec_mag(rhs.bits) != 0 && !(spec_div_mag(self.bits, rhs.bits) <= max_mag()))
                ==> r == Result::<Self, ConversionError>::Err(ConversionError::Infinite),
    {
        let (_sa, ma, _ea) = decompose(self.bits);
        let (_sb, mb, eb) = decompose(rhs.bits);
        proof {
            lemma_pow2_pos(eb as nat);
            if mb == 0 {
                lemma_mul_basics(pow2(eb as nat) as int);
            } else {
                lemma_mul_strictly_positive(mb as int, pow2(eb as nat) as int);
            }
            let (_s2, m2, e2) = (spec_sign(self.bits), spec_mantissa(self.bits), spec_scale(self.bits));
            lemma_pow2_pos(e2);
            if m2 == 0 {
                lemma_mul_basics(pow2(e2) as int);
            } else {
                lemma_mul_strictly_positive(m2 as int, pow2(e2) as int);
            }
        }
        if mb == 0 {
            if ma == 0 {
                Err(ConversionError::NaN)
            } else {
                Err(ConversionError::Infinite)
            }
        } else {
            match div_bits(self.bits, rhs.bits) {
                Some(bits) => Ok(ExtendedFloat { bits }),
                None => Err(ConversionError::Infinite),
            }
        }
    }

    /// The quotient, or nothing when it cannot be held.
    pub fn checked_div(&self, rhs: Self) -> (r: Option<Self>)
        requires
            self.is_valid(),
            rhs.is_valid(),
        ensures
            r is Some <==> (spec_mag(rhs.bits) != 0 && spec_div_mag(self.bits, rhs.bits) <= max_mag()),
            r is Some ==> {
                &&& spec_mag(r->0.bits) == spec_div_mag(self.bits, rhs.bits)
                &&& r->0.is_valid()
                &&& spec_sign(r->0.bits) == (spec_sign(self.bits) != spec_sign(rhs.bits))
            },
    {
        match self.try_div(rhs) {
            Ok(v) => Some(v),
            Err(_) => None,
        }
    }
}

/// Checked arithmetic that reports an invalid result instead of producing
/// it: the checked family hands back nothing, the try family tells NaN and
/// infinite results apart.
pub trait CheckedFloatOps where Self: core::marker::Sized {
    /// The values the checked operations are meant for: for the validated
    /// wrapper, the finite ones.
    spec fn op_valid(&self) -> bool;

    /// The sum, or nothing when it would be infinite.
    fn checked_add(&self, rhs: Self) -> Option<Self>
        requires
            self.op_valid(),
            rhs.op_valid(),
    ;

    /// The difference, or nothing when it would be infinite.
    fn checked_sub(&self, rhs: Self) -> Option<Self>
        requires
            self.op_valid(),
            rhs.op_valid(),
    ;

    /// The product, or nothing when it would be infinite.
    fn checked_mul(&self, rhs: Self) -> Option<Self>
        requires
            self.op_valid(),
            rhs.op_valid(),
    ;

    /// The quotient, or nothing when it would be NaN or infinite.
    fn checked_div(&self, rhs: Self) -> Option<Self>
        requires
            self.op_valid(),
            rhs.op_valid(),
    ;

    /// The remainder, or nothing when it would be NaN.
    fn checked_rem(&self, rhs: Self) -> Option<Self>
        requires
            self.op_valid(),
            rhs.op_valid(),
    ;

    /// The sum, or the reason it cannot be held.
    fn try_add(&self, rhs: Self) -> Result<Self, ConversionError>
        requires
            self.op_valid(),
            rhs.op_valid(),
    ;

    /// The difference, or the reason it cannot be held.
    fn try_sub(&self, rhs: Self) -> Result<Self, ConversionError>
        requires
            self.op_valid(),
            rhs.op_valid(),
    ;

    /// The product, or the reason it cannot be held.
    fn try_mul(&self, rhs: Self) -> Result<Self, ConversionError>
        requires
            self.op_valid(),
            rhs.op_valid(),
    ;

    /// The quotient, or the reason it cannot be held.
    fn try_div(&self, rhs: Self) -> Result<Self, ConversionError>
        requires
            self.op_valid(),
            rhs.op_valid(),
    ;

    /// The remainder, or the reason it cannot be held.
    fn try_rem(&self, rhs: Self) -> Result<Self, ConversionError>
        requires
            self.op_valid(),
            rhs.op_valid(),
    ;
}

impl CheckedFloatOps for ExtendedFloat {
    open spec fn op_valid(&self) -> bool {
        self.is_valid()
    }

    fn checked_add(&self, rhs: Self) -> Option<Self> {
        ExtendedFloat::checked_add(self, rhs)
    }

    fn checked_sub(&self, rhs: Self) -> Option<Self> {
        ExtendedFloat::checked_sub(self, rhs)
    }

    fn checked_mul(&self, rhs: Self) -> Option<Self> {
        ExtendedFloat::checked_mul(self, rhs)
    }

    fn checked_div(&self, rhs: Self) -> Option<Self> {
        ExtendedFloat::checked_div(self, rhs)
    }

    fn checked_rem(&self, rhs: Self) -> Option<Self> {
        ExtendedFloat::checked_rem(self, rhs)
    }

    fn try_add(&self, rhs: Self) -> Result<Self, ConversionError> {
        ExtendedFloat::try_add(self, rhs)
    }

    fn try_sub(&self, rhs: Self) -> Result<Self, ConversionError> {
        ExtendedFloat::try_sub(self, rhs)
    }

    fn try_mul(&self, rhs: Self) -> Result<Self, ConversionError> {
        ExtendedFloat::try_mul(self, rhs)
    }

    fn try_div(&self, rhs: Self) -> Result<Self, ConversionError> {
        ExtendedFloat::try_div(self, rhs)
    }

    fn try_rem(&self, rhs: Self) -> Result<Self, ConversionError> {
        ExtendedFloat::try_rem(self, rhs)
    }
}
} // verus!
