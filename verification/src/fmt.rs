//! The faithful formatter: a validated value is rendered with exactly the
//! decimal digits its magnitude makes trustworthy. Magnitudes within the
//! epsilon print as "0"; magnitudes above the precision threshold are passed
//! through as their shortest faithful decimal; everything between is rounded
//! to its effective precision, half to even, and stripped of trailing zeros.

use vstd::prelude::*;
use vstd::arithmetic::power2::{pow2, lemma_pow2_adds, lemma_pow2_pos, lemma_pow2_strictly_increases, lemma2_to64, lemma2_to64_rest};
use vstd::arithmetic::mul::{
    lemma_mul_basics, lemma_mul_inequality,
    lemma_mul_strict_inequality, lemma_mul_is_associative, lemma_mul_is_commutative,
};
use crate::bits::{
    EPSILON_MANTISSA, EPSILON_SCALE,
    spec_is_nan, spec_is_inf, spec_is_valid, spec_sign, spec_mantissa, spec_scale, spec_mag,
    spec_biased_exp, decompose, exec_is_nan, exec_is_inf,
};
use crate::compare::{eps_mag, spec_abs};
use crate::dyadic::{cmp_mag, shl_u128};
use crate::extended_float::ExtendedFloat;
use crate::tables::{spec_precision, spec_exponent, precision_of_bits};

verus! {

/// Mantissa of the precision threshold: DECIMAL_PRECISION_BITS denotes
/// exactly 8000000000000000 * 2^-3, which is 1.0e15.
pub const THRESHOLD_MANTISSA: u64 = 8000000000000000;

/// Scale of the threshold's mantissa in units of 2^-1074.
pub const THRESHOLD_SCALE: u64 = 1071;

/// The threshold's magnitude in units of 2^-1074.
pub open spec fn threshold_mag() -> nat {
    (THRESHOLD_MANTISSA as nat) * pow2(THRESHOLD_SCALE as nat)
}

/// The threshold constant's pattern denotes exactly the threshold magnitude
/// the formatter branches on.
pub proof fn lemma_threshold_pattern()
    ensures
        spec_mag(crate::bits::DECIMAL_PRECISION_BITS) == threshold_mag(),
        spec_is_valid(crate::bits::DECIMAL_PRECISION_BITS),
        !spec_sign(crate::bits::DECIMAL_PRECISION_BITS),
{
    assert((0x430C_6BF5_2634_0000u64 >> 52) & 0x7FF == 1072
        && 0x430C_6BF5_2634_0000u64 & 0x000F_FFFF_FFFF_FFFF == 0xC_6BF5_2634_0000
        && !(0x430C_6BF5_2634_0000u64 >> 63 == 1)) by (bit_vector);
    assert(spec_mantissa(crate::bits::DECIMAL_PRECISION_BITS) == THRESHOLD_MANTISSA);
    assert(spec_scale(crate::bits::DECIMAL_PRECISION_BITS) == THRESHOLD_SCALE);
}

/// Powers of ten.
pub open spec fn spec_pow10(p: nat) -> nat
    decreases p,
{
    if p == 0 {
        1
    } else {
        10 * spec_pow10((p - 1) as nat)
    }
}

/// The character of one decimal digit.
pub open spec fn spec_digit_char(d: nat) -> char {
    if d == 0 {
        '0'
    } else if d == 1 {
        '1'
    } else if d == 2 {
        '2'
    } else if d == 3 {
        '3'
    } else if d == 4 {
        '4'
    } else if d == 5 {
        '5'
    } else if d == 6 {
        '6'
    } else if d == 7 {
        '7'
    } else if d == 8 {
        '8'
    } else {
        '9'
    }
}

/// The decimal digits of n, most significant first.
pub open spec fn spec_digits(n: nat) -> Seq<char>
    decreases n,
{
    if n < 10 {
        seq![spec_digit_char(n)]
    } else {
        spec_digits(n / 10).push(spec_digit_char(n % 10))
    }
}

/// Exactly p digits of a fraction numerator below 10^p, most significant
/// first.
pub open spec fn spec_frac_digits(fr: nat, p: nat) -> Seq<char>
    decreases p,
{
    if p == 0 {
        Seq::empty()
    } else {
        spec_frac_digits(fr / 10, (p - 1) as nat).push(spec_digit_char(fr % 10))
    }
}

/// Drops trailing zero digits of a fraction: the reduced numerator and the
/// digits that remain.
pub open spec fn spec_strip(fr: nat, p: nat) -> (nat, nat)
    decreases p,
{
    if p > 0 && fr % 10 == 0 {
        spec_strip(fr / 10, (p - 1) as nat)
    } else {
        (fr, p)
    }
}

/// Rounds n / d to the nearest integer, ties to even.
pub open spec fn spec_rne(n: nat, d: nat) -> nat
    recommends
        d > 0,
{
    let q = n / d;
    let r = n % d;
    if 2 * r > d || (2 * r == d && q % 2 == 1) {
        q + 1
    } else {
        q
    }
}

/// The fixed-precision rendering of a finite magnitude m * 2^(e - 1074)
/// between the epsilon and the threshold: the value scaled by 10^p, rounded
/// half to even, split at the decimal point and stripped of trailing zeros.
pub open spec fn spec_format_mid(sign: bool, m: nat, e: nat, p: nat) -> Seq<char> {
    let k = (1074 - e) as nat;
    let scaled = spec_rne(m * spec_pow10(p), pow2(k));
    let ip = scaled / spec_pow10(p);
    let fr0 = scaled % spec_pow10(p);
    let (fr, pr) = spec_strip(fr0, p);
    (if sign {
        seq!['-']
    } else {
        Seq::empty()
    }) + spec_digits(ip) + (if pr == 0 {
        Seq::<char>::empty()
    } else {
        seq!['.'] + spec_frac_digits(fr, pr)
    })
}

/// What the formatter produces for every pattern: the special spellings for
/// NaN and the infinities, "0" within the epsilon, the shortest faithful
/// decimal above the threshold, and the fixed-precision rendering between.
pub open spec fn spec_format(bits: u64) -> Seq<char> {
    if spec_is_nan(bits) {
        seq!['N', 'a', 'N']
    } else if spec_is_inf(bits) {
        if spec_sign(bits) {
            seq!['-', 'i', 'n', 'f']
        } else {
            seq!['i', 'n', 'f']
        }
    } else if spec_mag(bits) <= eps_mag() {
        seq!['0']
    } else if spec_mag(bits) > threshold_mag() {
        crate::bigfmt::spec_format_big(bits)
    } else {
        spec_format_mid(
            spec_sign(bits),
            spec_mantissa(bits) as nat,
            spec_scale(bits) as nat,
            spec_precision(spec_exponent(bits)),
        )
    }
}

/// Appends one digit character.
pub(crate) fn push_digit(s: &mut String, d: u8)
    requires
        d < 10,
    ensures
        final(s)@ == old(s)@ + seq![spec_digit_char(d as nat)],
{
    proof {
        reveal_strlit("0");
        reveal_strlit("1");
        reveal_strlit("2");
        reveal_strlit("3");
        reveal_strlit("4");
        reveal_strlit("5");
        reveal_strlit("6");
        reveal_strlit("7");
        reveal_strlit("8");
        reveal_strlit("9");
    }
    match d {
        0 => s.append("0"),
        1 => s.append("1"),
        2 => s.append("2"),
        3 => s.append("3"),
        4 => s.append("4"),
        5 => s.append("5"),
        6 => s.append("6"),
        7 => s.append("7"),
        8 => s.append("8"),
        _ => s.append("9"),
    }
    proof {
        assert(s@ =~= old(s)@ + seq![spec_digit_char(d as nat)]);
    }
}

/// Appends the decimal digits of n, most significant first.
pub(crate) fn push_u128_digits(s: &mut String, n: u128)
    ensures
        final(s)@ == old(s)@ + spec_digits(n as nat),
    decreases n,
{
    if n < 10 {
        push_digit(s, n as u8);
    } else {
        push_u128_digits(s, n / 10);
        push_digit(s, (n % 10) as u8);
        proof {
            assert(s@ =~= old(s)@ + spec_digits(n as nat));
        }
    }
}

/// Appends exactly p digits of a fraction numerator below 10^p.
fn push_frac_digits(s: &mut String, fr: u128, p: usize)
    ensures
        final(s)@ == old(s)@ + spec_frac_digits(fr as nat, p as nat),
    decreases p,
{
    if p == 0 {
        proof {
            assert(s@ =~= old(s)@ + spec_frac_digits(fr as nat, 0));
        }
    } else {
        push_frac_digits(s, fr / 10, p - 1);
        push_digit(s, (fr % 10) as u8);
        proof {
            assert(s@ =~= old(s)@ + spec_frac_digits(fr as nat, p as nat));
        }
    }
}

/// 10^p as an exec value, for p up to 17.
pub(crate) fn pow10_u64(p: usize) -> (r: u64)
    requires
        p <= 17,
    ensures
        r == spec_pow10(p as nat),
        r >= 1,
    decreases p,
{
    if p == 0 {
        1
    } else {
        proof {
            lemma_pow10_le((p - 1) as nat);
        }
        10 * pow10_u64(p - 1)
    }
}

/// Powers of ten are positive and grow.
pub(crate) proof fn lemma_pow10_pos(p: nat)
    ensures
        spec_pow10(p) >= 1,
    decreases p,
{
    if p > 0 {
        lemma_pow10_pos((p - 1) as nat);
    }
}

/// Powers of ten grow with the exponent.
pub(crate) proof fn lemma_pow10_mono(a: nat, b: nat)
    requires
        a <= b,
    ensures
        spec_pow10(a) <= spec_pow10(b),
    decreases b,
{
    if a < b {
        lemma_pow10_mono(a, (b - 1) as nat);
        lemma_pow10_pos((b - 1) as nat);
    }
}

/// The powers of ten up to 10^17, written out.
pub(crate) proof fn lemma_pow10_17()
    ensures
        spec_pow10(17) == 100000000000000000,
        spec_pow10(3) == 1000,
{
    assert(spec_pow10(0) == 1);
    assert(spec_pow10(1) == 10);
    assert(spec_pow10(2) == 100);
    assert(spec_pow10(3) == 1000);
    assert(spec_pow10(4) == 10000);
    assert(spec_pow10(5) == 100000);
    assert(spec_pow10(6) == 1000000);
    assert(spec_pow10(7) == 10000000);
    assert(spec_pow10(8) == 100000000);
    assert(spec_pow10(9) == 1000000000);
    assert(spec_pow10(10) == 10000000000);
    assert(spec_pow10(11) == 100000000000);
    assert(spec_pow10(12) == 1000000000000);
    assert(spec_pow10(13) == 10000000000000);
    assert(spec_pow10(14) == 100000000000000);
    assert(spec_pow10(15) == 1000000000000000);
    assert(spec_pow10(16) == 10000000000000000);
    assert(spec_pow10(17) == 100000000000000000);
}

/// 10^17 bounds every power used here.
proof fn lemma_pow10_le(p: nat)
    requires
        p <= 17,
    ensures
        spec_pow10(p) <= 100000000000000000,
        spec_pow10(p) >= 1,
{
    lemma_pow10_pos(p);
    lemma_pow10_mono(p, 17);
    lemma_pow10_17();
}

impl ExtendedFloat {
    /// Renders the value with the digits its magnitude makes trustworthy:
    /// "0" within the epsilon, the shortest faithful decimal above the
    /// threshold, and between them the value at its effective precision,
    /// rounded half to even and stripped of trailing zeros. NaN and the
    /// infinities, which only an unchecked constructor can store, spell
    /// themselves out.
    pub fn format(&self) -> (r: String)
        ensures
            r@ == spec_format(self.bits),
    {
        let bits = self.bits;
        if exec_is_nan(bits) {
            let s = nan_string();
            return s;
        }
        if exec_is_inf(bits) {
            let s = inf_string(self.is_sign_negative());
            return s;
        }
        let (sign, m, e) = decompose(bits);
        proof {
            lemma_pow2_pos(e as nat);
        }
        let c_eps = cmp_mag(m as u128, e as u32, EPSILON_MANTISSA as u128, EPSILON_SCALE as u32);
        if c_eps <= 0 {
            let mut s = String::new();
            push_digit(&mut s, 0);
            proof {
                assert(s@ =~= seq!['0']);
            }
            return s;
        }
        let c_thr = cmp_mag(m as u128, e as u32, THRESHOLD_MANTISSA as u128, THRESHOLD_SCALE as u32);
        if c_thr > 0 {
            return crate::bigfmt::format_big(bits);
        }
        // the middle range: fixed precision from the exponent
        let p = precision_of_bits(bits);
        proof {
            lemma_mid_scale_bounds(m, e);
        }
        let k: u32 = (1074 - e) as u32;
        let pw10 = pow10_u64(p);
        proof {
            lemma_pow10_le(p as nat);
            lemma_mid_product_fits(m, pw10);
        }
        let n: u128 = (m as u128) * (pw10 as u128);
        proof {
            crate::round::lemma_pow2_127_fits(k as nat);
        }
        let dv = shl_u128(1, k);
        proof {
            lemma_mul_basics(pow2(k as nat) as int);
        }
        let q = n / dv;
        let rm = n % dv;
        proof {
            vstd::arithmetic::div_mod::lemma_div_nonincreasing(n as int, dv as int);
            assert((n as nat) < 0x20_0000_0000_0000 * 100000000000000000);
        }
        let up = 2 * rm > dv || (2 * rm == dv && q % 2 == 1);
        let scaled: u128 = q + if up {
            1
        } else {
            0
        };
        let ip = scaled / (pw10 as u128);
        let mut fr = scaled % (pw10 as u128);
        let mut pr = p;
        proof {
            vstd::arithmetic::div_mod::lemma_mod_bound(scaled as int, pw10 as int);
        }
        while pr > 0 && fr % 10 == 0
            invariant
                spec_strip(fr as nat, pr as nat) == spec_strip((scaled as nat) % spec_pow10(p as nat), p as nat),
                pr <= p,
                p <= 17,
            decreases pr,
        {
            fr = fr / 10;
            pr = pr - 1;
        }
        let mut s = String::new();
        if sign {
            proof {
                reveal_strlit("-");
            }
            s.append("-");
        }
        push_u128_digits(&mut s, ip);
        if pr > 0 {
            proof {
                reveal_strlit(".");
            }
            s.append(".");
            push_frac_digits(&mut s, fr, pr);
        }
        proof {
            reveal_strlit("-");
            reveal_strlit(".");
            assert(s@ =~= spec_format_mid(sign, m as nat, e as nat, p as nat));
        }
        s
    }
}

/// The spelling of NaN.
fn nan_string() -> (r: String)
    ensures
        r@ == seq!['N', 'a', 'N'],
{
    proof {
        reveal_strlit("NaN");
    }
    let s = "NaN";
    proof {
        assert(s@ =~= seq!['N', 'a', 'N']);
    }
    String::from_str(s)
}

/// The spellings of the infinities.
fn inf_string(neg: bool) -> (r: String)
    ensures
        r@ == if neg {
            seq!['-', 'i', 'n', 'f']
        } else {
            seq!['i', 'n', 'f']
        },
{
    proof {
        reveal_strlit("-inf");
        reveal_strlit("inf");
    }
    if neg {
        let s = "-inf";
        proof {
            assert(s@ =~= seq!['-', 'i', 'n', 'f']);
        }
        String::from_str(s)
    } else {
        let s = "inf";
        proof {
            assert(s@ =~= seq!['i', 'n', 'f']);
        }
        String::from_str(s)
    }
}

/// Above the epsilon the scale stays within the normal range, and below the
/// threshold it leaves at least three binary places of fraction.
proof fn lemma_mid_scale_bounds(m: u64, e: u64)
    requires
        m < 0x20_0000_0000_0000,
        e <= 2045,
        e > 0 ==> m >= 0x10_0000_0000_0000,
        (m as nat) * pow2(e as nat) > eps_mag(),
        (m as nat) * pow2(e as nat) <= threshold_mag(),
    ensures
        982 <= e <= 1071,
        m >= 0x10_0000_0000_0000 || e == 0,
{
    lemma2_to64();
    lemma2_to64_rest();
    // magnitude above eps >= 2^1034 forces e >= 982
    assert(pow2(1034) <= eps_mag()) by {
        lemma_pow2_adds(52, 982);
        lemma_pow2_pos(982);
        lemma_mul_inequality(pow2(52) as int, EPSILON_MANTISSA as int, pow2(982) as int);
    }
    assert((m as nat) * pow2(e as nat) < pow2(53 + e as nat)) by {
        lemma_pow2_pos(e as nat);
        lemma_pow2_adds(53, e as nat);
        if m == 0 {
            lemma_mul_basics(pow2(e as nat) as int);
            lemma_pow2_pos(53 + e as nat);
        } else {
            lemma_mul_strict_inequality(m as int, pow2(53) as int, pow2(e as nat) as int);
        }
    }
    assert(e >= 982) by {
        if e <= 981 {
            assert(pow2(53 + e as nat) <= pow2(1034)) by {
                if (53 + e as nat) < 1034 {
                    lemma_pow2_strictly_increases(53 + e as nat, 1034);
                }
            }
        }
    }
    // magnitude at most the threshold < 2^1124 forces e <= 1071
    assert(threshold_mag() < pow2(53) * pow2(1071)) by {
        lemma_pow2_pos(1071);
        lemma_mul_strict_inequality(THRESHOLD_MANTISSA as int, pow2(53) as int, pow2(1071) as int);
    }
    lemma_pow2_adds(53, 1071);
    assert(e <= 1071) by {
        if e >= 1072 {
            assert((m as nat) * pow2(e as nat) >= pow2(52) * pow2(1072)) by {
                lemma_pow2_pos(e as nat);
                assert(m >= 0x10_0000_0000_0000);
                lemma_mul_inequality(pow2(52) as int, m as int, pow2(e as nat) as int);
                assert(pow2(1072) <= pow2(e as nat)) by {
                    if 1072 < e {
                        lemma_pow2_strictly_increases(1072, e as nat);
                    }
                }
                vstd::arithmetic::mul::lemma_mul_left_inequality(pow2(52) as int, pow2(1072) as int, pow2(e as nat) as int);
            }
            lemma_pow2_adds(52, 1072);
            assert(pow2(52 + 1072) == pow2(53 + 1071));
        }
    }
}

/// The scaled numerator fits the 128-bit window.
proof fn lemma_mid_product_fits(m: u64, pw10: u64)
    requires
        m < 0x20_0000_0000_0000,
        pw10 <= 100000000000000000,
    ensures
        (m as nat) * (pw10 as nat) < 0x20_0000_0000_0000 * 100000000000000000,
{
    lemma_mul_inequality(m as int, 0x20_0000_0000_0000, pw10 as int);
    vstd::arithmetic::mul::lemma_mul_left_inequality(0x20_0000_0000_0000, pw10 as int, 100000000000000000);
}



/// Rounding to the nearest integer lands within half a step, ties included.
pub proof fn lemma_rne_error(n: nat, d: nat)
    requires
        d > 0,
    ensures
        2 * spec_abs(spec_rne(n, d) * d - n) <= d,
{
    vstd::arithmetic::div_mod::lemma_fundamental_div_mod(n as int, d as int);
    vstd::arithmetic::div_mod::lemma_mod_bound(n as int, d as int);
    let q = n / d;
    let r = n % d;
    assert(n == q * d + r) by {
        lemma_mul_is_commutative(d as int, q as int);
    }
    if 2 * r > d || (2 * r == d && q % 2 == 1) {
        assert(spec_rne(n, d) * d == q * d + d) by {
            vstd::arithmetic::mul::lemma_mul_is_distributive_add_other_way(d as int, q as int, 1);
        }
    }
}

/// What the formatter prints for a magnitude between the epsilon and two is
/// a decimal within the absolute tolerance of the value: the output spells
/// scaled / 10^15 with `scaled` as below, and at the common denominator
/// 10^15 * 2^k that decimal and the value differ by at most the epsilon. A
/// faithful parse of the output therefore reads back a tolerant-equal value.
pub proof fn lemma_format_mid_within_tolerance(bits: u64)
    requires
        spec_is_valid(bits),
        spec_mag(bits) > eps_mag(),
        spec_biased_exp(bits) <= 1023,
    ensures
        spec_mag(bits) <= threshold_mag(),
        spec_precision(spec_exponent(bits)) == 15,
        ({
            let m = spec_mantissa(bits) as nat;
            let k = (1074 - spec_scale(bits)) as nat;
            let scaled = spec_rne(m * spec_pow10(15), pow2(k));
            spec_abs(scaled * pow2(k) - m * spec_pow10(15)) * pow2(1074)
                <= eps_mag() * (spec_pow10(15) * pow2(k))
        }),
{
    let m = spec_mantissa(bits) as nat;
    let e = spec_scale(bits) as nat;
    let k = (1074 - e) as nat;
    lemma2_to64();
    lemma2_to64_rest();
    let be = spec_biased_exp(bits);
    let fr = crate::bits::spec_frac(bits);
    assert(fr < 0x10_0000_0000_0000 && be <= 0x7FF) by (bit_vector)
        requires
            be == (bits >> 52) & 0x7FF,
            fr == bits & 0x000F_FFFF_FFFF_FFFF,
    ;
    assert(m < 0x20_0000_0000_0000);
    assert(e <= 1022);
    // the magnitude stays far below the threshold
    assert(spec_mag(bits) <= threshold_mag()) by {
        assert(spec_mag(bits) < pow2(53) * pow2(1022)) by {
            lemma_pow2_pos(e);
            lemma_mul_strict_inequality(m as int, pow2(53) as int, pow2(e) as int);
            assert(pow2(e) <= pow2(1022)) by {
                if e < 1022 {
                    lemma_pow2_strictly_increases(e, 1022);
                }
            }
            vstd::arithmetic::mul::lemma_mul_left_inequality(pow2(53) as int, pow2(e) as int, pow2(1022) as int);
        }
        lemma_pow2_adds(53, 1022);
        assert(pow2(52) * pow2(1071) <= threshold_mag()) by {
            lemma_pow2_pos(1071);
            lemma_mul_inequality(pow2(52) as int, THRESHOLD_MANTISSA as int, pow2(1071) as int);
        }
        lemma_pow2_adds(52, 1071);
        assert(pow2(53 + 1022) <= pow2(52 + 1071)) by {
            lemma_pow2_strictly_increases(53 + 1022, 52 + 1071);
        }
    }
    // a non-positive exponent costs no digits, so the precision is full
    assert(spec_exponent(bits) <= 0);
    // the rounding error is at most half of 2^k, and half of 2^k at the
    // common scale stays below the epsilon
    let n15 = m * spec_pow10(15);
    lemma_pow2_pos(k);
    lemma_rne_error(n15, pow2(k));
    let scaled = spec_rne(n15, pow2(k));
    let d = spec_abs(scaled * pow2(k) - n15);
    assert(2 * d <= pow2(k));
    // eps * 10^15 >= 2^1034 * 2^49 == 2^1083 >= 2 * 2^1074 / 2, so
    // d * 2^1074 <= 2^(k - 1) * 2^1074 <= eps * 10^15 * 2^k
    lemma_pow10_17();
    assert(spec_pow10(15) >= pow2(49)) by {
        assert(spec_pow10(15) == spec_pow10(17) / 100) by {
            assert(spec_pow10(17) == 100 * spec_pow10(15)) by {
                assert(spec_pow10(16) == 10 * spec_pow10(15));
                assert(spec_pow10(17) == 10 * spec_pow10(16));
            }
            vstd::arithmetic::div_mod::lemma_div_multiples_vanish(spec_pow10(15) as int, 100);
        }
    }
    assert(eps_mag() >= pow2(52) * pow2(982)) by {
        lemma_pow2_pos(982);
        lemma_mul_inequality(pow2(52) as int, crate::bits::EPSILON_MANTISSA as int, pow2(982) as int);
    }
    lemma_pow2_adds(52, 982);
    // combine: 2 * d * 2^1074 <= 2^k * 2^1074 <= 2 * eps * 10^15 * 2^k
    assert(d * pow2(1074) <= eps_mag() * (spec_pow10(15) * pow2(k))) by {
        assert(2 * (d * pow2(1074)) <= pow2(k) * pow2(1074)) by {
            lemma_pow2_pos(1074);
            lemma_mul_inequality((2 * d) as int, pow2(k) as int, pow2(1074) as int);
            lemma_mul_is_associative(2, d as int, pow2(1074) as int);
        }
        // 2^1074 <= 2 * eps * 10^15: indeed eps * 10^15 >= 2^1034 * 2^49 == 2^1083
        assert(eps_mag() * spec_pow10(15) >= pow2(1034) * pow2(49)) by {
            lemma_pow2_pos(1034);
            lemma_pow10_pos(15);
            assert(pow2(1034) <= eps_mag());
            lemma_mul_inequality(pow2(1034) as int, eps_mag() as int, spec_pow10(15) as int);
            vstd::arithmetic::mul::lemma_mul_left_inequality(pow2(1034) as int, pow2(49) as int, spec_pow10(15) as int);
            assert(pow2(1034) * spec_pow10(15) >= pow2(1034) * pow2(49));
        }
        lemma_pow2_adds(1034, 49);
        assert(pow2(1083) >= pow2(1074)) by {
            lemma_pow2_strictly_increases(1074, 1083);
        }
        // so 2^k * 2^1074 <= 2^k * eps * 10^15 <= 2 * eps * (10^15 * 2^k)
        assert(pow2(k) * pow2(1074) <= pow2(k) * (eps_mag() * spec_pow10(15))) by {
            lemma_pow2_pos(k);
            vstd::arithmetic::mul::lemma_mul_left_inequality(pow2(k) as int, pow2(1074) as int, (eps_mag() * spec_pow10(15)) as int);
        }
        assert(pow2(k) * (eps_mag() * spec_pow10(15)) == eps_mag() * (spec_pow10(15) * pow2(k))) by {
            lemma_mul_is_commutative(pow2(k) as int, (eps_mag() * spec_pow10(15)) as int);
            lemma_mul_is_associative(eps_mag() as int, spec_pow10(15) as int, pow2(k) as int);
        }
        assert(2 * (eps_mag() * (spec_pow10(15) * pow2(k))) >= 2 * (d * pow2(1074)));
    }
}
} // verus!
