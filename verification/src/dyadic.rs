//! Exact comparison of dyadic magnitudes m * 2^e: the quantities that finite
//! binary64 values, their differences and their epsilon-scaled tolerances
//! reduce to. Aligning the operand of the shorter bit length never overflows
//! 128 bits once the overall bit lengths are known to agree.

use vstd::prelude::*;
use vstd::arithmetic::power2::{pow2, lemma_pow2_adds, lemma_pow2_pos, lemma_pow2_strictly_increases};
use vstd::arithmetic::mul::{lemma_mul_inequality, lemma_mul_strict_inequality, lemma_mul_left_inequality};

verus! {

/// Number of bits needed to write m: zero for zero, one more than for m / 2
/// otherwise.
pub open spec fn spec_bitlen(m: u128) -> nat
    decreases m,
{
    if m == 0 {
        0
    } else {
        1 + spec_bitlen(m / 2)
    }
}

/// A positive m lies between the two powers of two that its bit length names.
pub proof fn lemma_bitlen_bounds(m: u128)
    ensures
        m < pow2(spec_bitlen(m)),
        m > 0 ==> pow2((spec_bitlen(m) - 1) as nat) <= m,
    decreases m,
{
    if m == 0 {
        assert(pow2(0) == 1) by {
            vstd::arithmetic::power2::lemma2_to64();
        }
    } else {
        lemma_bitlen_bounds(m / 2);
        let l = spec_bitlen(m / 2);
        assert(pow2(l + 1) == 2 * pow2(l)) by {
            lemma_pow2_adds(l, 1);
            vstd::arithmetic::power2::lemma2_to64();
        }
        if m / 2 > 0 {
            assert(pow2(l) == 2 * pow2((l - 1) as nat)) by {
                lemma_pow2_adds((l - 1) as nat, 1);
                vstd::arithmetic::power2::lemma2_to64();
            }
        } else {
            assert(pow2(0) == 1) by {
                vstd::arithmetic::power2::lemma2_to64();
            }
        }
    }
}

/// Bit length of m, by repeated halving.
pub fn bitlen(m: u128) -> (l: u32)
    ensures
        l == spec_bitlen(m),
        l <= 128,
{
    let mut v = m;
    let mut l: u32 = 0;
    proof {
        lemma_bitlen_spec_le_128(m);
    }
    while v > 0
        invariant
            l + spec_bitlen(v) == spec_bitlen(m),
            spec_bitlen(m) <= 128,
        decreases v,
    {
        v = v / 2;
        l = l + 1;
    }
    l
}

/// No 128-bit value needs more than 128 bits.
proof fn lemma_bitlen_spec_le_128(m: u128)
    ensures
        spec_bitlen(m) <= 128,
{
    lemma_bitlen_bounds(m);
    if spec_bitlen(m) > 128 {
        assert(pow2(128) <= pow2((spec_bitlen(m) - 1) as nat)) by {
            if spec_bitlen(m) - 1 > 128 {
                lemma_pow2_strictly_increases(128, (spec_bitlen(m) - 1) as nat);
            }
        }
        assert(pow2(128) == 0x100000000000000000000000000000000) by {
            lemma_pow2_adds(64, 64);
            vstd::arithmetic::power2::lemma2_to64();
        }
    }
}

/// pow2(128) written out, for overflow arguments.
pub proof fn lemma_pow2_128()
    ensures
        pow2(128) == 0x100000000000000000000000000000000,
{
    lemma_pow2_adds(64, 64);
    vstd::arithmetic::power2::lemma2_to64();
}

/// Multiplies m by 2^k; the caller shows the product stays within 128 bits.
pub fn shl_u128(m: u128, k: u32) -> (r: u128)
    requires
        m * pow2(k as nat) < 0x100000000000000000000000000000000,
    ensures
        r == m * pow2(k as nat),
{
    if m == 0 {
        return 0;
    }
    let mut r = m;
    let mut i: u32 = 0;
    proof {
        vstd::arithmetic::power2::lemma2_to64();
    }
    while i < k
        invariant
            i <= k,
            m > 0,
            r == m * pow2(i as nat),
            m * pow2(k as nat) < 0x100000000000000000000000000000000,
        decreases k - i,
    {
        proof {
            lemma_pow2_adds(i as nat, 1);
            vstd::arithmetic::power2::lemma2_to64();
            assert(pow2((i + 1) as nat) == pow2(i as nat) * 2);
            assert(pow2((i + 1) as nat) <= pow2(k as nat)) by {
                if i + 1 < k {
                    lemma_pow2_strictly_increases((i + 1) as nat, k as nat);
                }
            }
            lemma_mul_left_inequality(m as int, pow2((i + 1) as nat) as int, pow2(k as nat) as int);
            assert(m * pow2(i as nat) * 2 == m * (pow2(i as nat) * 2)) by {
                vstd::arithmetic::mul::lemma_mul_is_associative(m as int, pow2(i as nat) as int, 2);
            }
        }
        r = r * 2;
        i = i + 1;
    }
    r
}

/// Compares m1 * 2^e1 with m2 * 2^e2 exactly: -1 for below, 0 for equal,
/// 1 for above.
pub fn cmp_mag(m1: u128, e1: u32, m2: u128, e2: u32) -> (r: i8)
    requires
        e1 <= 0x1000_0000,
        e2 <= 0x1000_0000,
    ensures
        -1 <= r <= 1,
        r == -1 <==> m1 * pow2(e1 as nat) < m2 * pow2(e2 as nat),
        r == 0 <==> m1 * pow2(e1 as nat) == m2 * pow2(e2 as nat),
        r == 1 <==> m1 * pow2(e1 as nat) > m2 * pow2(e2 as nat),
{
    proof {
        lemma_pow2_pos(e1 as nat);
        lemma_pow2_pos(e2 as nat);
    }
    if m1 == 0 || m2 == 0 {
        if m1 == 0 && m2 == 0 {
            0
        } else if m1 == 0 {
            proof {
                vstd::arithmetic::mul::lemma_mul_strictly_positive(m2 as int, pow2(e2 as nat) as int);
            }
            -1
        } else {
            proof {
                vstd::arithmetic::mul::lemma_mul_strictly_positive(m1 as int, pow2(e1 as nat) as int);
            }
            1
        }
    } else {
        let l1 = bitlen(m1) + e1;
        let l2 = bitlen(m2) + e2;
        proof {
            lemma_bitlen_bounds(m1);
            lemma_bitlen_bounds(m2);
            lemma_cmp_by_length(m1, e1 as nat, m2, e2 as nat);
        }
        if l1 < l2 {
            -1
        } else if l1 > l2 {
            1
        } else {
            let (a, b) = if e1 >= e2 {
                proof {
                    lemma_align_fits(m1, e1 as nat, m2, e2 as nat);
                }
                (shl_u128(m1, e1 - e2), m2)
            } else {
                proof {
                    lemma_align_fits(m2, e2 as nat, m1, e1 as nat);
                }
                (m1, shl_u128(m2, e2 - e1))
            };
            proof {
                lemma_align_cancels(m1, e1 as nat, m2, e2 as nat);
            }
            if a < b {
                -1
            } else if a == b {
                0
            } else {
                1
            }
        }
    }
}

/// With unequal overall bit lengths, the magnitude of the greater length is
/// the greater.
proof fn lemma_cmp_by_length(m1: u128, e1: nat, m2: u128, e2: nat)
    requires
        m1 > 0,
        m2 > 0,
    ensures
        spec_bitlen(m1) + e1 < spec_bitlen(m2) + e2 ==> m1 * pow2(e1) < m2 * pow2(e2),
        spec_bitlen(m1) + e1 > spec_bitlen(m2) + e2 ==> m1 * pow2(e1) > m2 * pow2(e2),
{
    lemma_bitlen_bounds(m1);
    lemma_bitlen_bounds(m2);
    let l1 = spec_bitlen(m1);
    let l2 = spec_bitlen(m2);
    if l1 + e1 < l2 + e2 {
        lemma_length_dominates(m1, e1, m2, e2);
    }
    if l1 + e1 > l2 + e2 {
        lemma_length_dominates(m2, e2, m1, e1);
    }
}

/// The half of the length argument with the roles fixed: shorter below.
proof fn lemma_length_dominates(ms: u128, es: nat, mb: u128, eb: nat)
    requires
        ms > 0,
        mb > 0,
        spec_bitlen(ms) + es < spec_bitlen(mb) + eb,
    ensures
        ms * pow2(es) < mb * pow2(eb),
{
    lemma_bitlen_bounds(ms);
    lemma_bitlen_bounds(mb);
    let ls = spec_bitlen(ms);
    let lb = spec_bitlen(mb);
    // ms * 2^es < 2^(ls + es) <= 2^(lb + eb - 1) <= mb * 2^eb
    assert(ms * pow2(es) < pow2(ls) * pow2(es)) by {
        lemma_pow2_pos(es);
        lemma_mul_strict_inequality(ms as int, pow2(ls) as int, pow2(es) as int);
    }
    lemma_pow2_adds(ls, es);
    assert(pow2(ls + es) <= pow2((lb - 1) as nat + eb)) by {
        if ls + es < (lb - 1) as nat + eb {
            lemma_pow2_strictly_increases(ls + es, (lb - 1) as nat + eb);
        }
    }
    lemma_pow2_adds((lb - 1) as nat, eb);
    assert(pow2((lb - 1) as nat) * pow2(eb) <= mb * pow2(eb)) by {
        lemma_pow2_pos(eb);
        lemma_mul_inequality(pow2((lb - 1) as nat) as int, mb as int, pow2(eb) as int);
    }
}

/// With equal overall bit lengths, shifting the operand of the higher
/// exponent down to the other's scale stays within 128 bits.
proof fn lemma_align_fits(mh: u128, eh: nat, ml: u128, el: nat)
    requires
        mh > 0,
        ml > 0,
        eh >= el,
        spec_bitlen(mh) + eh == spec_bitlen(ml) + el,
    ensures
        mh * pow2((eh - el) as nat) < 0x100000000000000000000000000000000,
{
    lemma_bitlen_bounds(mh);
    lemma_bitlen_bounds(ml);
    lemma_bitlen_spec_le_128(ml);
    let d = (eh - el) as nat;
    // mh * 2^d < 2^(bitlen(mh) + d) == 2^bitlen(ml) <= 2^128
    assert(mh * pow2(d) < pow2(spec_bitlen(mh)) * pow2(d)) by {
        lemma_pow2_pos(d);
        lemma_mul_strict_inequality(mh as int, pow2(spec_bitlen(mh)) as int, pow2(d) as int);
    }
    lemma_pow2_adds(spec_bitlen(mh), d);
    assert(spec_bitlen(mh) + d == spec_bitlen(ml));
    assert(pow2(spec_bitlen(ml)) <= pow2(128)) by {
        if spec_bitlen(ml) < 128 {
            lemma_pow2_strictly_increases(spec_bitlen(ml), 128);
        }
    }
    lemma_pow2_128();
}

/// Comparing at a common scale is the same as comparing the magnitudes.
proof fn lemma_align_cancels(m1: u128, e1: nat, m2: u128, e2: nat)
    ensures
        e1 >= e2 ==> {
            let s = m1 * pow2((e1 - e2) as nat);
            (m1 * pow2(e1) < m2 * pow2(e2) <==> s < m2)
            && (m1 * pow2(e1) == m2 * pow2(e2) <==> s == m2)
        },
        e1 < e2 ==> {
            let s = m2 * pow2((e2 - e1) as nat);
            (m1 * pow2(e1) < m2 * pow2(e2) <==> m1 < s)
            && (m1 * pow2(e1) == m2 * pow2(e2) <==> m1 == s)
        },
{
    if e1 >= e2 {
        let d = (e1 - e2) as nat;
        lemma_pow2_adds(d, e2);
        assert(m1 * pow2(e1) == (m1 * pow2(d)) * pow2(e2)) by {
            vstd::arithmetic::mul::lemma_mul_is_associative(m1 as int, pow2(d) as int, pow2(e2) as int);
        }
        lemma_pow2_pos(e2);
        lemma_cancel_common_factor((m1 * pow2(d)) as nat, m2 as nat, pow2(e2));
    } else {
        let d = (e2 - e1) as nat;
        lemma_pow2_adds(d, e1);
        assert(m2 * pow2(e2) == (m2 * pow2(d)) * pow2(e1)) by {
            vstd::arithmetic::mul::lemma_mul_is_associative(m2 as int, pow2(d) as int, pow2(e1) as int);
        }
        lemma_pow2_pos(e1);
        lemma_cancel_common_factor(m1 as nat, (m2 * pow2(d)) as nat, pow2(e1));
    }
}

/// A positive common power of two neither makes nor breaks an order.
pub proof fn lemma_scale_cancel_le(x: u128, y: u128, e: nat)
    ensures
        (x as nat) * pow2(e) <= (y as nat) * pow2(e) <==> x <= y,
{
    lemma_pow2_pos(e);
    lemma_cancel_common_factor(x as nat, y as nat, pow2(e));
}

/// A positive common factor neither makes nor breaks an order.
proof fn lemma_cancel_common_factor(x: nat, y: nat, c: nat)
    requires
        c > 0,
    ensures
        x * c < y * c <==> x < y,
        x * c == y * c <==> x == y,
{
    if x < y {
        lemma_mul_strict_inequality(x as int, y as int, c as int);
    }
    if y < x {
        lemma_mul_strict_inequality(y as int, x as int, c as int);
    }
}

} // verus!
