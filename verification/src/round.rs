//! Rounding an exact non-negative rational n / d to the nearest magnitude a
//! binary64 pattern can hold: cut at the value's own precision step (53
//! significant bits, or the subnormal step near zero), round half to even.
//! The executable rounder works on a 128-bit window of leading bits plus a
//! sticky flag; the central lemma says the window decides the same way the
//! rational does.

use vstd::prelude::*;
use vstd::arithmetic::power2::{pow2, lemma_pow2_adds, lemma_pow2_pos, lemma_pow2_strictly_increases, lemma2_to64, lemma2_to64_rest};
use vstd::arithmetic::mul::{
    lemma_mul_inequality, lemma_mul_strict_inequality, lemma_mul_left_inequality,
    lemma_mul_is_associative, lemma_mul_is_commutative,
    lemma_mul_is_distributive_add_other_way, lemma_mul_strictly_positive, lemma_mul_basics,
};
use vstd::arithmetic::div_mod::{
    lemma_fundamental_div_mod, lemma_fundamental_div_mod_converse, lemma_mod_bound,
    lemma_div_denominator, lemma_small_mod,
};
use crate::dyadic::spec_bitlen;

verus! {

/// The largest magnitude a finite pattern can hold, in units of 2^-1074.
pub open spec fn max_mag() -> nat {
    (0x1F_FFFF_FFFF_FFFF as nat) * pow2(2045)
}

/// Bit length of an unbounded natural.
pub open spec fn spec_bitlen_nat(n: nat) -> nat
    decreases n,
{
    if n == 0 {
        0
    } else {
        1 + spec_bitlen_nat(n / 2)
    }
}

/// A positive natural lies between the powers of two its bit length names.
pub proof fn lemma_bitlen_nat_bounds(n: nat)
    ensures
        n < pow2(spec_bitlen_nat(n)),
        n > 0 ==> pow2((spec_bitlen_nat(n) - 1) as nat) <= n,
    decreases n,
{
    if n == 0 {
        lemma2_to64();
    } else {
        lemma_bitlen_nat_bounds(n / 2);
        let l = spec_bitlen_nat(n / 2);
        assert(pow2(l + 1) == 2 * pow2(l)) by {
            lemma_pow2_adds(l, 1);
            lemma2_to64();
        }
        if n / 2 > 0 {
            assert(pow2(l) == 2 * pow2((l - 1) as nat)) by {
                lemma_pow2_adds((l - 1) as nat, 1);
                lemma2_to64();
            }
        } else {
            lemma2_to64();
        }
    }
}

/// The bounds determine the bit length.
pub proof fn lemma_bitlen_nat_from_bounds(x: nat, l: nat)
    requires
        l > 0,
        pow2((l - 1) as nat) <= x,
        x < pow2(l),
    ensures
        spec_bitlen_nat(x) == l,
{
    lemma_bitlen_nat_bounds(x);
    lemma_pow2_pos((l - 1) as nat);
    let bl = spec_bitlen_nat(x);
    if bl < l {
        assert(pow2(bl) <= pow2((l - 1) as nat)) by {
            if bl < l - 1 {
                lemma_pow2_strictly_increases(bl, (l - 1) as nat);
            }
        }
    }
    if bl > l {
        assert(pow2(l) <= pow2((bl - 1) as nat)) by {
            if l < bl - 1 {
                lemma_pow2_strictly_increases(l, (bl - 1) as nat);
            }
        }
    }
}

/// Halving k times takes k off the bit length, to a floor of zero.
pub proof fn lemma_bitlen_nat_shr(x: nat, k: nat)
    ensures
        spec_bitlen_nat(x / pow2(k)) == if spec_bitlen_nat(x) >= k {
            (spec_bitlen_nat(x) - k) as nat
        } else {
            0
        },
    decreases k,
{
    if k == 0 {
        assert(pow2(0) == 1) by {
            lemma2_to64();
        }
    } else {
        // peel one halving off the bottom: x / 2^k == (x / 2) / 2^(k - 1)
        lemma_bitlen_nat_shr(x / 2, (k - 1) as nat);
        assert(x / pow2(k) == (x / 2) / pow2((k - 1) as nat)) by {
            lemma_pow2_adds(1, (k - 1) as nat);
            lemma2_to64();
            lemma_pow2_pos((k - 1) as nat);
            lemma_div_denominator(x as int, 2, pow2((k - 1) as nat) as int);
            assert(pow2(k) == 2 * pow2((k - 1) as nat));
        }
        if x == 0 {
            assert(x / 2 == 0);
        } else {
            assert(spec_bitlen_nat(x) == 1 + spec_bitlen_nat(x / 2));
        }
    }
}

/// The bit length of a 128-bit value is its bit length as a natural.
pub proof fn lemma_bitlen_u128(m: u128)
    ensures
        spec_bitlen(m) == spec_bitlen_nat(m as nat),
    decreases m,
{
    if m > 0 {
        lemma_bitlen_u128(m / 2);
    }
}

/// The exact rational n / d (d positive) rounded to the nearest magnitude a
/// binary64 pattern can hold, ties to even: the cut sits 53 bits below the
/// value's leading bit, and never below the unit step.
pub open spec fn spec_round_frac(n: nat, d: nat) -> nat
    recommends
        d > 0,
{
    let bl = spec_bitlen_nat(n / d);
    let c: nat = if bl > 53 {
        (bl - 53) as nat
    } else {
        0
    };
    let dd = d * pow2(c);
    let q = n / dd;
    let r = n % dd;
    let up = 2 * r > dd || (2 * r == dd && q % 2 == 1);
    (q + if up {
        1nat
    } else {
        0nat
    }) * pow2(c)
}

/// The same rounding, decided from a 128-bit window m of leading bits, its
/// scale e — the value is (m + f) * 2^e for some fraction 0 <= f < 1 — and a
/// sticky flag that says whether f is zero.
pub open spec fn spec_round_window(m: u128, e: int, sticky: bool) -> nat {
    let bl = spec_bitlen(m) as int;
    let c: int = if bl + e > 53 {
        bl + e - 53
    } else {
        0
    };
    if e >= c {
        (m as nat) * pow2(e as nat)
    } else {
        let s = (c - e) as nat;
        let q = (m as nat) / pow2(s);
        let low = (m as nat) % pow2(s);
        let up = 2 * low > pow2(s) || (2 * low == pow2(s) && (sticky || q % 2 == 1));
        (q + if up {
            1nat
        } else {
            0nat
        }) * pow2(c as nat)
    }
}

/// How a window stands for a rational: m holds the leading bits of n / d at
/// scale 2^e, and sticky records whether anything sits below them.
pub open spec fn window_of(n: nat, d: nat, m: u128, e: int, sticky: bool) -> bool {
    &&& d > 0
    &&& (e >= 0 ==> (m as nat) == n / (d * pow2(e as nat)) && (sticky <==> n % (d * pow2(e as nat))
        != 0))
    &&& (e < 0 ==> (m as nat) == (n * pow2((-e) as nat)) / d && (sticky <==> (n * pow2(
        (-e) as nat,
    )) % d != 0))
    &&& (sticky ==> spec_bitlen(m) >= 54)
}

/// The uniform decomposition behind a window: N == m * D + rem with N and D
/// the rational brought to the window's scale.
proof fn lemma_window_shape(n: nat, d: nat, m: u128, e: int, sticky: bool) -> (r: (nat, nat, nat))
    requires
        window_of(n, d, m, e, sticky),
    ensures
        ({
            let (nn, dd0, rem) = r;
            &&& dd0 > 0
            &&& nn == n * pow2(if e >= 0 { 0nat } else { (-e) as nat })
            &&& dd0 == d * pow2(if e >= 0 { e as nat } else { 0nat })
            &&& nn == (m as nat) * dd0 + rem
            &&& rem < dd0
            &&& (sticky <==> rem != 0)
        }),
{
    let sh: nat = if e >= 0 {
        0
    } else {
        (-e) as nat
    };
    let nn = n * pow2(sh);
    let dd0: nat = if e >= 0 {
        d * pow2(e as nat)
    } else {
        d
    };
    lemma_pow2_pos(sh);
    lemma_pow2_pos(if e >= 0 {
        e as nat
    } else {
        0
    });
    assert(dd0 > 0) by {
        if e >= 0 {
            lemma_mul_strictly_positive(d as int, pow2(e as nat) as int);
        }
    }
    if e >= 0 {
        assert(nn == n) by {
            lemma2_to64();
        }
    }
    assert((m as nat) == nn / dd0 && (sticky <==> nn % dd0 != 0));
    lemma_fundamental_div_mod(nn as int, dd0 as int);
    lemma_mod_bound(nn as int, dd0 as int);
    let rem = nn % dd0;
    assert(nn == (m as nat) * dd0 + rem) by {
        lemma_mul_is_commutative(dd0 as int, m as int);
    }
    assert(dd0 == d * pow2(if e >= 0 { e as nat } else { 0nat })) by {
        if e < 0 {
            lemma2_to64();
        }
    }
    (nn, dd0, rem)
}

/// The floor of n / d seen through the window: at non-negative scales it is
/// the window padded with the cut bits; below zero it is the window shifted
/// down.
proof fn lemma_floor_of_window(n: nat, d: nat, m: u128, e: int, sticky: bool)
    requires
        window_of(n, d, m, e, sticky),
    ensures
        e >= 0 ==> (m as nat) == (n / d) / pow2(e as nat),
        e < 0 ==> n / d == (m as nat) / pow2((-e) as nat),
{
    if e >= 0 {
        lemma_pow2_pos(e as nat);
        lemma_div_denominator(n as int, d as int, pow2(e as nat) as int);
    } else {
        let sh = (-e) as nat;
        lemma_pow2_pos(sh);
        // n / d == (n * 2^sh) / (d * 2^sh) == m / 2^sh
        assert((n * pow2(sh)) / (d * pow2(sh)) == n / d) by {
            lemma_div_cancel_factor(n, d, pow2(sh));
        }
        lemma_div_denominator((n * pow2(sh)) as int, d as int, pow2(sh) as int);
        assert((n * pow2(sh)) / (d * pow2(sh)) == ((n * pow2(sh)) / d) / pow2(sh)) by {
            lemma_mul_is_commutative(d as int, pow2(sh) as int);
        }
    }
}

/// A common positive factor cancels out of a quotient.
pub(crate) proof fn lemma_div_cancel_factor(n: nat, d: nat, f: nat)
    requires
        d > 0,
        f > 0,
    ensures
        (n * f) / (d * f) == n / d,
{
    lemma_fundamental_div_mod(n as int, d as int);
    lemma_mod_bound(n as int, d as int);
    let q = n / d;
    let r = n % d;
    assert(n * f == q * (d * f) + r * f) by {
        lemma_mul_is_distributive_add_other_way(f as int, (d * (n / d)) as int, (n % d) as int);
        lemma_mul_is_associative(d as int, q as int, f as int);
        lemma_mul_is_commutative(d as int, q as int);
        lemma_mul_is_associative(q as int, d as int, f as int);
    }
    assert(r * f < d * f) by {
        lemma_mul_strict_inequality(r as int, d as int, f as int);
    }
    assert(d * f > 0) by {
        lemma_mul_strictly_positive(d as int, f as int);
    }
    vstd::arithmetic::div_mod::lemma_fundamental_div_mod_converse_div(
        (n * f) as int,
        (d * f) as int,
        q as int,
        (r * f) as int,
    );
}

/// A common positive factor cancels out of a remainder, scaling it.
pub(crate) proof fn lemma_mod_cancel_factor(n: nat, d: nat, f: nat)
    requires
        d > 0,
        f > 0,
    ensures
        (n * f) % (d * f) == (n % d) * f,
{
    lemma_fundamental_div_mod(n as int, d as int);
    lemma_mod_bound(n as int, d as int);
    let q = n / d;
    let r = n % d;
    assert(n * f == q * (d * f) + r * f) by {
        lemma_mul_is_distributive_add_other_way(f as int, (d * (n / d)) as int, (n % d) as int);
        lemma_mul_is_associative(d as int, q as int, f as int);
        lemma_mul_is_commutative(d as int, q as int);
        lemma_mul_is_associative(q as int, d as int, f as int);
    }
    assert(r * f < d * f) by {
        lemma_mul_strict_inequality(r as int, d as int, f as int);
    }
    assert(d * f > 0) by {
        lemma_mul_strictly_positive(d as int, f as int);
    }
    vstd::arithmetic::div_mod::lemma_fundamental_div_mod_converse_mod(
        (n * f) as int,
        (d * f) as int,
        q as int,
        (r * f) as int,
    );
}

/// A window rounds the same way as the rational it stands for.
pub proof fn lemma_window_round(n: nat, d: nat, m: u128, e: int, sticky: bool)
    requires
        window_of(n, d, m, e, sticky),
    ensures
        spec_round_frac(n, d) == spec_round_window(m, e, sticky),
{
    lemma_bitlen_u128(m);
    let (nn, dd0, rem) = lemma_window_shape(n, d, m, e, sticky);
    let bl = spec_bitlen_nat(m as nat);
    let fl = n / d;
    lemma_floor_of_window(n, d, m, e, sticky);
    lemma_pow2_pos(if e >= 0 {
        e as nat
    } else {
        (-e) as nat
    });
    if m == 0 {
        // nothing above the cut: the value itself is zero
        assert(!sticky);
        assert(nn == 0nat * dd0 + rem);
        assert(nn == rem) by {
            lemma_mul_basics(dd0 as int);
        }
        assert(rem == 0);
        assert(n == 0) by {
            lemma_pow2_pos(if e >= 0 { 0nat } else { (-e) as nat });
            if n > 0 {
                lemma_mul_strictly_positive(n as int, pow2(if e >= 0 { 0nat } else { (-e) as nat }) as int);
            }
        }
        assert(spec_round_frac(0, d) == 0) by {
            lemma2_to64();
            lemma_mul_basics(d as int);
            assert(d * pow2(0nat) == d);
            assert(0nat / d == 0) by {
                vstd::arithmetic::div_mod::lemma_basic_div(0, d as int);
            }
            assert(spec_bitlen_nat(0nat / d) == 0);
            assert(0nat % d == 0) by {
                lemma_small_mod(0nat, d);
            }
            lemma_mul_basics(pow2(0nat) as int);
            assert((0nat + 0nat) * pow2(0nat) == 0) by {
                lemma_mul_basics(pow2(0nat) as int);
            }
        }
        lemma_round_window_zero(e, sticky);
        return;
    }
    // bit length of the floor
    lemma_bitlen_nat_bounds(m as nat);
    if e >= 0 {
        // fl == m * 2^e + t with t < 2^e
        lemma_fundamental_div_mod(fl as int, pow2(e as nat) as int);
        lemma_mod_bound(fl as int, pow2(e as nat) as int);
        let t = fl % pow2(e as nat);
        assert(fl == (m as nat) * pow2(e as nat) + t) by {
            lemma_mul_is_commutative(pow2(e as nat) as int, m as int);
        }
        assert(spec_bitlen_nat(fl) == bl + e) by {
            assert(pow2((bl - 1) as nat) * pow2(e as nat) <= (m as nat) * pow2(e as nat)) by {
                lemma_mul_inequality(pow2((bl - 1) as nat) as int, m as int, pow2(e as nat) as int);
            }
            lemma_pow2_adds((bl - 1) as nat, e as nat);
            assert(fl < ((m as nat) + 1) * pow2(e as nat)) by {
                lemma_mul_is_distributive_add_other_way(pow2(e as nat) as int, m as int, 1);
            }
            assert(((m as nat) + 1) * pow2(e as nat) <= pow2(bl) * pow2(e as nat)) by {
                lemma_mul_inequality(((m as nat) + 1) as int, pow2(bl) as int, pow2(e as nat) as int);
            }
            lemma_pow2_adds(bl, e as nat);
            lemma_bitlen_nat_from_bounds(fl, (bl + e) as nat);
        }
    } else {
        let sh = (-e) as nat;
        assert(fl == (m as nat) / pow2(sh));
        lemma_bitlen_nat_shr(m as nat, sh);
        assert(spec_bitlen_nat(fl) == if bl >= sh {
            (bl - sh) as nat
        } else {
            0
        });
    }
    let blv = spec_bitlen_nat(fl);
    let c_f: nat = if blv > 53 {
        (blv - 53) as nat
    } else {
        0
    };
    let c_w: int = if bl + e > 53 {
        bl + e - 53
    } else {
        0
    };
    assert(c_f == c_w);
    if e >= c_w {
        // the window is exact here: nothing is cut away
        assert(!sticky) by {
            if sticky {
                assert(bl >= 54);
                assert(c_w == bl + e - 53);
            }
        }
        assert(rem == 0);
        assert(nn == n) by {
            lemma2_to64();
            lemma_mul_basics(n as int);
        }
        assert(n == (m as nat) * dd0);
        lemma_round_exact(n, d, m, e, c_f);
        assert(spec_round_window(m, e, sticky) == (m as nat) * pow2(e as nat));
    } else {
        lemma_round_cut(n, d, m, e, sticky, nn, dd0, rem, c_f);
    }
}

/// The window of a zero mantissa without sticky rounds to zero.
proof fn lemma_round_window_zero(e: int, sticky: bool)
    requires
        !sticky,
    ensures
        spec_round_window(0, e, sticky) == 0,
{
    let bl = spec_bitlen(0u128) as int;
    assert(bl == 0);
    let c: int = if bl + e > 53 {
        bl + e - 53
    } else {
        0
    };
    if e >= c {
        lemma_mul_basics(pow2(e as nat) as int);
    } else {
        let s = (c - e) as nat;
        lemma_pow2_pos(s);
        assert(0nat / pow2(s) == 0) by {
            vstd::arithmetic::div_mod::lemma_small_div_converse(0, pow2(s) as int);
        }
        assert(0nat % pow2(s) == 0) by {
            lemma_small_mod(0nat, pow2(s));
        }
        lemma_mul_basics(pow2(c as nat) as int);
    }
}

/// With nothing cut away the rounded value is the window itself.
proof fn lemma_round_exact(n: nat, d: nat, m: u128, e: int, c: nat)
    requires
        d > 0,
        e >= 0,
        e >= c,
        n == (m as nat) * (d * pow2(e as nat)),
        c == ({
            let blv = spec_bitlen_nat(n / d);
            if blv > 53 {
                (blv - 53) as nat
            } else {
                0nat
            }
        }),
    ensures
        spec_round_frac(n, d) == (m as nat) * pow2(e as nat),
{
    lemma_pow2_pos(e as nat);
    lemma_pow2_pos(c);
    let dd = d * pow2(c);
    assert(dd > 0) by {
        lemma_mul_strictly_positive(d as int, pow2(c) as int);
    }
    // n == (m * 2^(e-c)) * dd exactly
    let q = (m as nat) * pow2((e - c) as nat);
    assert(n == q * dd) by {
        lemma_pow2_adds((e - c) as nat, c);
        // m * (d * 2^e) == (m * 2^(e-c)) * (d * 2^c)
        assert((m as nat) * (d * pow2(e as nat)) == (m as nat) * pow2(e as nat) * d) by {
            lemma_mul_is_associative(m as int, d as int, pow2(e as nat) as int);
            lemma_mul_is_commutative(d as int, pow2(e as nat) as int);
            lemma_mul_is_associative(m as int, pow2(e as nat) as int, d as int);
        }
        assert((m as nat) * pow2(e as nat) == q * pow2(c)) by {
            lemma_mul_is_associative(m as int, pow2((e - c) as nat) as int, pow2(c) as int);
        }
        assert(q * pow2(c) * d == q * (d * pow2(c))) by {
            lemma_mul_is_associative(q as int, pow2(c) as int, d as int);
            lemma_mul_is_commutative(pow2(c) as int, d as int);
            lemma_mul_is_associative(q as int, d as int, pow2(c) as int);
        }
    }
    assert(n / dd == q && n % dd == 0) by {
        lemma_fundamental_div_mod_converse(n as int, dd as int, q as int, 0);
    }
    assert(spec_round_frac(n, d) == q * pow2(c));
    assert(q * pow2(c) == (m as nat) * pow2(e as nat)) by {
        lemma_mul_is_associative(m as int, pow2((e - c) as nat) as int, pow2(c) as int);
        lemma_pow2_adds((e - c) as nat, c);
    }
}

/// With a genuine cut the window's quotient, half test and tie test agree
/// with the rational's.
#[verifier::rlimit(40)]
proof fn lemma_round_cut(
    n: nat,
    d: nat,
    m: u128,
    e: int,
    sticky: bool,
    nn: nat,
    dd0: nat,
    rem: nat,
    c: nat,
)
    requires
        d > 0,
        dd0 > 0,
        e < c,
        nn == n * pow2(if e >= 0 { 0nat } else { (-e) as nat }),
        dd0 == d * pow2(if e >= 0 { e as nat } else { 0nat }),
        nn == (m as nat) * dd0 + rem,
        rem < dd0,
        (sticky <==> rem != 0),
        c == ({
            let bl = spec_bitlen(m) as int;
            if bl + e > 53 {
                (bl + e - 53) as nat
            } else {
                0nat
            }
        }),
        c == ({
            let blv = spec_bitlen_nat(n / d);
            if blv > 53 {
                (blv - 53) as nat
            } else {
                0nat
            }
        }),
    ensures
        spec_round_frac(n, d) == spec_round_window(m, e, sticky),
{
    let s = (c - e) as nat;
    let sh: nat = if e >= 0 {
        0
    } else {
        (-e) as nat
    };
    lemma_pow2_pos(s);
    lemma_pow2_pos(sh);
    lemma_pow2_pos(c);
    let q = (m as nat) / pow2(s);
    let low = (m as nat) % pow2(s);
    lemma_fundamental_div_mod(m as int, pow2(s) as int);
    lemma_mod_bound(m as int, pow2(s) as int);
    assert((m as nat) == q * pow2(s) + low) by {
        lemma_mul_is_commutative(pow2(s) as int, q as int);
    }
    let dd = d * pow2(c);
    assert(dd > 0) by {
        lemma_mul_strictly_positive(d as int, pow2(c) as int);
    }
    // nn == q * (dd * 2^sh) + (low * dd0 + rem), with the tail below dd * 2^sh
    let tail = low * dd0 + rem;
    assert(dd * pow2(sh) == pow2(s) * dd0) by {
        // d * 2^c * 2^sh == 2^s * (d * 2^(e+sh-...)): c + sh == s + (scale of dd0)
        if e >= 0 {
            lemma2_to64();
            assert(pow2(sh) == 1);
            lemma_mul_basics((d * pow2(c)) as int);
            // dd == d * 2^(s+e) == 2^s * (d * 2^e)
            lemma_pow2_adds(s, e as nat);
            assert(d * pow2(c) == pow2(s) * (d * pow2(e as nat))) by {
                lemma_mul_is_associative(d as int, pow2(s) as int, pow2(e as nat) as int);
                lemma_mul_is_commutative(d as int, pow2(s) as int);
                lemma_mul_is_associative(pow2(s) as int, d as int, pow2(e as nat) as int);
            }
        } else {
            // dd * 2^sh == d * 2^c * 2^sh == 2^(c+sh) * d == 2^s * d
            assert(c + sh == s);
            lemma_pow2_adds(c, sh);
            assert(d * pow2(c) * pow2(sh) == d * pow2(s)) by {
                lemma_mul_is_associative(d as int, pow2(c) as int, pow2(sh) as int);
            }
            lemma_mul_is_commutative(d as int, pow2(s) as int);
            lemma2_to64();
            lemma_mul_basics(d as int);
        }
    }
    assert(nn == q * (pow2(s) * dd0) + tail) by {
        // (q * 2^s + low) * dd0 + rem
        lemma_mul_is_distributive_add_other_way(dd0 as int, (q * pow2(s)) as int, low as int);
        lemma_mul_is_associative(q as int, pow2(s) as int, dd0 as int);
    }
    assert(tail < pow2(s) * dd0) by {
        assert(low * dd0 + dd0 <= pow2(s) * dd0) by {
            assert((low + 1) * dd0 <= pow2(s) * dd0) by {
                lemma_mul_inequality((low + 1) as int, pow2(s) as int, dd0 as int);
            }
            lemma_mul_is_distributive_add_other_way(dd0 as int, low as int, 1);
        }
    }
    // so the quotient and remainder of n by dd are q and tail / 2^sh
    lemma_pow2_pos(sh);
    assert(n * pow2(sh) == q * (dd * pow2(sh)) + tail);
    // tail is divisible by 2^sh: tail == n * 2^sh - q * dd * 2^sh
    let r_frac = (n % dd) as nat;
    assert(n == q * dd + r_frac && r_frac < dd) by {
        // divide the sh-scaled identity
        assert((q * dd) * pow2(sh) == q * (dd * pow2(sh))) by {
            lemma_mul_is_associative(q as int, dd as int, pow2(sh) as int);
        }
        assert(tail == (n - q * dd) * pow2(sh)) by {
            lemma_mul_is_distributive_add_other_way(pow2(sh) as int, (n - q * dd) as int, (q * dd) as int);
        }
        assert(n - q * dd >= 0) by {
            if n < q * dd {
                lemma_mul_strictly_positive(((q * dd) - n) as int, pow2(sh) as int);
                assert(((q * dd) - n) * pow2(sh) > 0) by {
                    lemma_mul_strictly_positive(((q * dd) - n) as int, pow2(sh) as int);
                }
                assert((q * dd - n) * pow2(sh) == (q * dd) * pow2(sh) - n * pow2(sh)) by {
                    lemma_mul_is_distributive_add_other_way(pow2(sh) as int, ((q * dd) - n) as int, n as int);
                }
            }
        }
        let t2 = (n - q * dd) as nat;
        assert(t2 * pow2(sh) < (pow2(s) * dd0));
        assert(t2 < dd) by {
            if t2 >= dd {
                assert(t2 * pow2(sh) >= dd * pow2(sh)) by {
                    lemma_mul_inequality(dd as int, t2 as int, pow2(sh) as int);
                }
            }
        }
        lemma_fundamental_div_mod_converse(n as int, dd as int, q as int, t2 as int);
    }
    assert(r_frac * pow2(sh) == tail) by {
        assert(tail == (n - q * dd) * pow2(sh)) by {
            assert((q * dd) * pow2(sh) == q * (dd * pow2(sh))) by {
                lemma_mul_is_associative(q as int, dd as int, pow2(sh) as int);
            }
            lemma_mul_is_distributive_add_other_way(pow2(sh) as int, (n - q * dd) as int, (q * dd) as int);
        }
    }
    // the half comparison carries across the scales
    let up_f = 2 * r_frac > dd || (2 * r_frac == dd && (n / dd) % 2 == 1);
    let up_w = 2 * low > pow2(s) || (2 * low == pow2(s) && (sticky || q % 2 == 1));
    assert(n / dd == q) by {
        vstd::arithmetic::div_mod::lemma_fundamental_div_mod_converse_div(
            n as int,
            dd as int,
            q as int,
            r_frac as int,
        );
    }
    assert(up_f == up_w) by {
        // compare 2 * tail with 2^s * dd0: tail == low * dd0 + rem
        assert(2 * r_frac > dd <==> 2 * tail > pow2(s) * dd0) by {
            lemma_scale_ineq(r_frac, dd, sh);
        }
        assert(2 * r_frac == dd <==> 2 * tail == pow2(s) * dd0) by {
            lemma_scale_ineq(r_frac, dd, sh);
        }
        if 2 * low > pow2(s) {
            // low is at least 2^s / 2 + 1, so the tail clears the half line
            assert(2 * low >= pow2(s) + 2) by {
                lemma_pow2_even(s);
            }
            assert(2 * tail >= (pow2(s) + 2) * dd0) by {
                lemma_mul_inequality((pow2(s) + 2) as int, (2 * low) as int, dd0 as int);
                lemma_mul_is_distributive_add_other_way(dd0 as int, low as int, low as int);
            }
            assert((pow2(s) + 2) * dd0 > pow2(s) * dd0) by {
                lemma_mul_is_distributive_add_other_way(dd0 as int, pow2(s) as int, 2);
            }
        } else if 2 * low == pow2(s) {
            assert(2 * tail == pow2(s) * dd0 + 2 * rem) by {
                lemma_mul_is_distributive_add_other_way(dd0 as int, low as int, low as int);
            }
            if sticky {
                assert(2 * tail > pow2(s) * dd0);
            } else {
                assert(2 * tail == pow2(s) * dd0);
            }
        } else {
            // 2 * low <= 2^s - 2, so even with the remainder the tail stays
            // below half
            assert(2 * low + 2 <= pow2(s)) by {
                lemma_pow2_even(s);
            }
            assert(2 * tail < (2 * low + 2) * dd0) by {
                lemma_mul_is_distributive_add_other_way(dd0 as int, (2 * low) as int, 2);
                assert(2 * tail == (2 * low) * dd0 + 2 * rem) by {
                    lemma_mul_is_distributive_add_other_way(dd0 as int, low as int, low as int);
                }
            }
            assert((2 * low + 2) * dd0 <= pow2(s) * dd0) by {
                lemma_mul_inequality((2 * low + 2) as int, pow2(s) as int, dd0 as int);
            }
        }
    }
}

/// A positive power of two with a positive exponent is even, so an odd count
/// of half steps cannot land on it.
proof fn lemma_pow2_even(s: nat)
    requires
        s >= 1,
    ensures
        pow2(s) % 2 == 0,
{
    lemma_pow2_adds((s - 1) as nat, 1);
    lemma2_to64();
    lemma_pow2_pos((s - 1) as nat);
}

/// Scaling both sides of a half comparison by a positive power of two keeps
/// its outcome.
proof fn lemma_scale_ineq(r: nat, dd: nat, sh: nat)
    ensures
        (2 * r > dd <==> 2 * (r * pow2(sh)) > dd * pow2(sh)),
        (2 * r == dd <==> 2 * (r * pow2(sh)) == dd * pow2(sh)),
{
    lemma_pow2_pos(sh);
    assert(2 * (r * pow2(sh)) == (2 * r) * pow2(sh)) by {
        lemma_mul_is_associative(2, r as int, pow2(sh) as int);
    }
    if 2 * r > dd {
        lemma_mul_strict_inequality(dd as int, (2 * r) as int, pow2(sh) as int);
    }
    if 2 * r < dd {
        lemma_mul_strict_inequality((2 * r) as int, dd as int, pow2(sh) as int);
    }
}


/// Shifting up adds to the bit length.
pub proof fn lemma_bitlen_nat_shl(m: nat, k: nat)
    requires
        m > 0,
    ensures
        spec_bitlen_nat(m * pow2(k)) == spec_bitlen_nat(m) + k,
{
    let bl = spec_bitlen_nat(m);
    lemma_bitlen_nat_bounds(m);
    lemma_pow2_pos(k);
    assert(pow2((bl - 1) as nat) * pow2(k) <= m * pow2(k)) by {
        lemma_mul_inequality(pow2((bl - 1) as nat) as int, m as int, pow2(k) as int);
    }
    assert(m * pow2(k) < pow2(bl) * pow2(k)) by {
        lemma_mul_strict_inequality(m as int, pow2(bl) as int, pow2(k) as int);
    }
    lemma_pow2_adds((bl - 1) as nat, k);
    lemma_pow2_adds(bl, k);
    lemma_bitlen_nat_from_bounds(m * pow2(k), bl + k);
}

/// Normalises a mantissa below 2^53 and encodes it, or reports that the
/// magnitude exceeds the largest finite one.
fn finish(sign: bool, mr0: u64, c0: u64) -> (r: Option<u64>)
    requires
        mr0 < 0x20_0000_0000_0000,
        c0 <= 4400,
    ensures
        r is Some <==> (mr0 as nat) * pow2(c0 as nat) <= max_mag(),
        r is Some ==> {
            &&& crate::bits::spec_mag(r->0) == (mr0 as nat) * pow2(c0 as nat)
            &&& crate::bits::spec_sign(r->0) == sign
            &&& crate::bits::spec_is_valid(r->0)
        },
{
    let mut mr = mr0;
    let mut c = c0;
    if mr == 0 {
        proof {
            lemma_mul_basics(pow2(c0 as nat) as int);
            lemma_mul_basics(pow2(0nat) as int);
            assert(max_mag() >= 0);
        }
        let b = crate::ops::encode_parts(sign, 0, 0);
        return Some(b);
    }
    while mr < 0x0010_0000_0000_0000 && c > 0
        invariant
            0 < mr < 0x20_0000_0000_0000,
            (mr as nat) * pow2(c as nat) == (mr0 as nat) * pow2(c0 as nat),
            c <= 4400,
        decreases c,
    {
        proof {
            lemma_pow2_adds((c - 1) as nat, 1);
            lemma2_to64();
            assert((2 * mr) as nat * pow2((c - 1) as nat) == (mr as nat) * (pow2((c - 1) as nat) * 2)) by {
                lemma_mul_is_associative(mr as int, 2, pow2((c - 1) as nat) as int);
                lemma_mul_is_commutative(2, pow2((c - 1) as nat) as int);
            }
        }
        mr = mr * 2;
        c = c - 1;
    }
    if c > 2045 {
        // mr is normal here, so the magnitude tops the largest finite one
        proof {
            assert(mr >= 0x0010_0000_0000_0000);
            assert((mr as nat) * pow2(c as nat) > max_mag()) by {
                assert(pow2(52) * pow2(2046) <= (mr as nat) * pow2(c as nat)) by {
                    lemma2_to64();
                    lemma2_to64_rest();
                    lemma_pow2_pos(c as nat);
                    assert(pow2(2046) <= pow2(c as nat)) by {
                        if 2046 < c {
                            lemma_pow2_strictly_increases(2046, c as nat);
                        }
                    }
                    lemma_mul_inequality(pow2(52) as int, mr as int, pow2(2046) as int);
                    assert((mr as nat) * pow2(2046) <= (mr as nat) * pow2(c as nat)) by {
                        lemma_mul_left_inequality(mr as int, pow2(2046) as int, pow2(c as nat) as int);
                    }
                }
                assert(max_mag() < pow2(53) * pow2(2045)) by {
                    lemma2_to64();
                    lemma2_to64_rest();
                    lemma_pow2_pos(2045);
                    lemma_mul_strict_inequality(0x1F_FFFF_FFFF_FFFF as int, pow2(53) as int, pow2(2045) as int);
                }
                lemma_pow2_adds(52, 2046);
                lemma_pow2_adds(53, 2045);
            }
        }
        return None;
    }
    proof {
        assert((mr as nat) * pow2(c as nat) <= max_mag()) by {
            lemma_pow2_pos(c as nat);
            lemma_mul_inequality(mr as int, 0x1F_FFFF_FFFF_FFFF as int, pow2(c as nat) as int);
            assert(pow2(c as nat) <= pow2(2045)) by {
                if (c as nat) < 2045 {
                    lemma_pow2_strictly_increases(c as nat, 2045);
                }
            }
            lemma_mul_left_inequality(0x1F_FFFF_FFFF_FFFF as int, pow2(c as nat) as int, pow2(2045) as int);
        }
    }
    Some(crate::ops::encode_parts(sign, mr, c))
}

/// Rounds a window to a pattern with the given sign, or reports that the
/// rounded magnitude exceeds the largest finite one.
#[verifier::rlimit(60)]
pub fn round_window_to_bits(sign: bool, m: u128, e: i64, sticky: bool) -> (r: Option<u64>)
    requires
        sticky ==> spec_bitlen(m) >= 54,
        -1200 <= e <= 4200,
    ensures
        r is Some <==> spec_round_window(m, e as int, sticky) <= max_mag(),
        r is Some ==> {
            &&& crate::bits::spec_mag(r->0) == spec_round_window(m, e as int, sticky)
            &&& crate::bits::spec_sign(r->0) == sign
            &&& crate::bits::spec_is_valid(r->0)
        },
{
    proof {
        lemma_bitlen_u128(m);
    }
    if m == 0 {
        proof {
            lemma_round_window_zero(e as int, sticky);
            lemma_mul_basics(pow2(0nat) as int);
        }
        let b = crate::ops::encode_parts(sign, 0, 0);
        proof {
            lemma_mul_basics(pow2(0nat) as int);
        }
        return Some(b);
    }
    let bl = crate::dyadic::bitlen(m);
    let c: i64 = if bl as i64 + e > 53 {
        bl as i64 + e - 53
    } else {
        0
    };
    proof {
        lemma_bitlen_nat_bounds(m as nat);
    }
    if e >= c {
        // nothing to cut: shift the window up to its mantissa
        let shift: u32 = (e - c) as u32;
        proof {
            lemma_shift_small(m, bl, shift as nat);
        }
        let mm = crate::dyadic::shl_u128(m, shift);
        proof {
            if c > 0 {
                lemma_bitlen_nat_shl(m as nat, shift as nat);
                lemma_bitlen_nat_bounds((m as nat) * pow2(shift as nat));
                lemma2_to64();
                lemma2_to64_rest();
            }
            assert((mm as nat) * pow2(c as nat) == spec_round_window(m, e as int, sticky)) by {
                lemma_pow2_adds(shift as nat, c as nat);
                lemma_mul_is_associative(m as int, pow2(shift as nat) as int, pow2(c as nat) as int);
            }
        }
        finish(sign, mm as u64, c as u64)
    } else {
        let s64: i64 = c - e;
        if s64 >= 129 {
            // everything sits far below the cut: the value rounds to zero
            proof {
                lemma_far_below(m, e as int, s64 as int, sticky);
                lemma_mul_basics(pow2(0nat) as int);
            }
            let b = crate::ops::encode_parts(sign, 0, 0);
            return Some(b);
        }
        if s64 == 128 {
            // the cut sits right at the window top: at most one unit remains
            let up = m > 0x8000_0000_0000_0000_0000_0000_0000_0000 || (m
                == 0x8000_0000_0000_0000_0000_0000_0000_0000 && sticky);
            proof {
                lemma_at_128(m, e as int, sticky);
            }
            if up {
                proof {
                    lemma2_to64();
                    lemma_mul_basics(pow2(0nat) as int);
                    assert(max_mag() >= 1) by {
                        lemma_pow2_pos(2045);
                        lemma_mul_inequality(1, 0x1F_FFFF_FFFF_FFFF as int, pow2(2045) as int);
                        lemma_mul_basics(pow2(2045) as int);
                    }
                }
                let b = crate::ops::encode_parts(sign, 1, 0);
                return Some(b);
            } else {
                proof {
                    lemma2_to64();
                    lemma_mul_basics(pow2(0nat) as int);
                }
                let b = crate::ops::encode_parts(sign, 0, 0);
                return Some(b);
            }
        }
        let s: u32 = s64 as u32;
        proof {
            lemma_pow2_127_fits(s as nat);
        }
        let div = crate::dyadic::shl_u128(1, s);
        proof {
            lemma_mul_basics(pow2(s as nat) as int);
        }
        let q = m / div;
        let low = m % div;
        proof {
            lemma_q_bounds(m, e as int, c as int, s as nat);
        }
        let up = 2 * low > div || (2 * low == div && (sticky || q % 2 == 1));
        let mr = q + if up {
            1
        } else {
            0
        };
        proof {
            assert(spec_round_window(m, e as int, sticky) == (mr as nat) * pow2(c as nat));
        }
        if mr == 0x20_0000_0000_0000 {
            proof {
                lemma_pow2_adds(c as nat, 1);
                lemma2_to64();
                assert((0x10_0000_0000_0000 as nat) * pow2((c + 1) as nat) == (0x20_0000_0000_0000 as nat) * pow2(c as nat)) by {
                    lemma_mul_is_associative(0x10_0000_0000_0000, 2, pow2(c as nat) as int);
                    lemma_mul_is_associative(0x10_0000_0000_0000, pow2(c as nat) as int, 2);
                    lemma_mul_is_commutative(pow2(c as nat) as int, 2);
                }
            }
            finish(sign, 0x0010_0000_0000_0000, (c + 1) as u64)
        } else {
            finish(sign, mr as u64, c as u64)
        }
    }
}

/// In the exact branch the shifted window stays below 2^53.
proof fn lemma_shift_small(m: u128, bl: u32, shift: nat)
    requires
        m > 0,
        bl == spec_bitlen(m),
        shift + bl <= 53,
    ensures
        (m as nat) * pow2(shift) < 0x20_0000_0000_0000,
        (m as nat) * pow2(shift) < 0x100000000000000000000000000000000,
{
    lemma_bitlen_u128(m);
    lemma_bitlen_nat_bounds(m as nat);
    lemma_pow2_pos(shift);
    assert((m as nat) * pow2(shift) < pow2(bl as nat) * pow2(shift)) by {
        lemma_mul_strict_inequality(m as int, pow2(bl as nat) as int, pow2(shift) as int);
    }
    lemma_pow2_adds(bl as nat, shift);
    assert(pow2(bl as nat + shift) <= pow2(53)) by {
        if bl as nat + shift < 53 {
            lemma_pow2_strictly_increases(bl as nat + shift, 53);
        }
    }
    lemma2_to64();
    lemma2_to64_rest();
}

/// With the cut at least 129 bits above the scale, the window rounds to
/// zero.
proof fn lemma_far_below(m: u128, e: int, s64: int, sticky: bool)
    requires
        m > 0,
        s64 >= 129,
        s64 == (if spec_bitlen(m) as int + e > 53 { spec_bitlen(m) as int + e - 53 } else { 0 }) - e,
        e < (if spec_bitlen(m) as int + e > 53 { spec_bitlen(m) as int + e - 53 } else { 0 }),
    ensures
        spec_round_window(m, e, sticky) == 0,
{
    let bl = spec_bitlen(m) as int;
    let c: int = if bl + e > 53 {
        bl + e - 53
    } else {
        0
    };
    let s = (c - e) as nat;
    lemma_bitlen_u128(m);
    lemma_bitlen_nat_bounds(m as nat);
    // the whole window sits below half the cut: 2m < 2^129 <= 2^s
    assert((m as nat) < pow2(128)) by {
        crate::dyadic::lemma_pow2_128();
    }
    assert(2 * (m as nat) < pow2(129)) by {
        lemma_pow2_adds(128, 1);
        lemma2_to64();
        crate::dyadic::lemma_pow2_128();
    }
    assert(pow2(129) <= pow2(s)) by {
        if 129 < s {
            lemma_pow2_strictly_increases(129, s);
        }
    }
    lemma_pow2_pos(s);
    assert((m as nat) / pow2(s) == 0) by {
        vstd::arithmetic::div_mod::lemma_basic_div(m as int, pow2(s) as int);
    }
    assert((m as nat) % pow2(s) == m as nat) by {
        lemma_small_mod(m as nat, pow2(s));
    }
    lemma_mul_basics(pow2(c as nat) as int);
}

/// With the cut exactly 128 bits above the scale, only the window's top bit
/// can matter.
proof fn lemma_at_128(m: u128, e: int, sticky: bool)
    requires
        m > 0,
        128 == (if spec_bitlen(m) as int + e > 53 { spec_bitlen(m) as int + e - 53 } else { 0 }) - e,
        e < (if spec_bitlen(m) as int + e > 53 { spec_bitlen(m) as int + e - 53 } else { 0 }),
    ensures
        spec_round_window(m, e, sticky) == if m > 0x8000_0000_0000_0000_0000_0000_0000_0000 || (m
            == 0x8000_0000_0000_0000_0000_0000_0000_0000 && sticky) {
            pow2(((if spec_bitlen(m) as int + e > 53 { spec_bitlen(m) as int + e - 53 } else { 0 })) as nat)
        } else {
            0
        },
        (if spec_bitlen(m) as int + e > 53 { spec_bitlen(m) as int + e - 53 } else { 0 }) == 0,
{
    let bl = spec_bitlen(m) as int;
    let c: int = if bl + e > 53 {
        bl + e - 53
    } else {
        0
    };
    lemma_bitlen_u128(m);
    lemma_bitlen_nat_bounds(m as nat);
    assert(c == 0) by {
        if c > 0 {
            // c - e == 128 and c == bl + e - 53 would put bl at 181
            assert(bl == 181);
            assert((m as nat) >= pow2(180)) by {
                lemma_pow2_pos(180);
            }
            assert(pow2(180) >= pow2(128)) by {
                lemma_pow2_strictly_increases(128, 180);
            }
            crate::dyadic::lemma_pow2_128();
        }
    }
    let s = (c - e) as nat;
    assert(s == 128);
    assert(pow2(128) == 0x100000000000000000000000000000000) by {
        crate::dyadic::lemma_pow2_128();
    }
    assert((m as nat) / pow2(s) == 0) by {
        lemma_pow2_pos(s);
        vstd::arithmetic::div_mod::lemma_basic_div(m as int, pow2(s) as int);
    }
    assert((m as nat) % pow2(s) == m as nat) by {
        lemma_pow2_pos(s);
        lemma_small_mod(m as nat, pow2(s));
    }
    assert(pow2(129) == 2 * pow2(128)) by {
        lemma_pow2_adds(128, 1);
        lemma2_to64();
    }
    lemma_mul_basics(pow2(0nat) as int);
    lemma2_to64();
}

/// The quotient under the cut keeps at most 53 bits, and at least 52 when
/// the cut is above the unit step.
proof fn lemma_q_bounds(m: u128, e: int, c: int, s: nat)
    requires
        m > 0,
        c == (if spec_bitlen(m) as int + e > 53 { spec_bitlen(m) as int + e - 53 } else { 0 }),
        e < c,
        s == c - e,
    ensures
        (m as nat) / pow2(s) < 0x20_0000_0000_0000,
        c > 0 ==> (m as nat) / pow2(s) >= 0x10_0000_0000_0000,
{
    let bl = spec_bitlen_nat(m as nat);
    lemma_bitlen_u128(m);
    lemma_bitlen_nat_shr(m as nat, s);
    lemma_bitlen_nat_bounds((m as nat) / pow2(s));
    lemma2_to64();
    lemma2_to64_rest();
    if c > 0 {
        // bl - s == 53 exactly
        assert(bl >= s);
        assert(spec_bitlen_nat((m as nat) / pow2(s)) == 53);
        lemma_53_bits((m as nat) / pow2(s));
    } else {
        // bl + e <= 53, so the quotient has at most 53 bits
        assert(spec_bitlen_nat((m as nat) / pow2(s)) <= 53);
        assert((m as nat) / pow2(s) < pow2(spec_bitlen_nat((m as nat) / pow2(s))));
        assert(pow2(spec_bitlen_nat((m as nat) / pow2(s))) <= pow2(53)) by {
            if spec_bitlen_nat((m as nat) / pow2(s)) < 53 {
                lemma_pow2_strictly_increases(spec_bitlen_nat((m as nat) / pow2(s)), 53);
            }
        }
    }
}

/// A cut below 128 steps fits the machine word.
pub(crate) proof fn lemma_pow2_127_fits(s: nat)
    requires
        s <= 127,
    ensures
        pow2(s) <= 0x80000000000000000000000000000000,
        pow2(s) < 0x100000000000000000000000000000000,
        1 * pow2(s) < 0x100000000000000000000000000000000,
        pow2(s) > 0,
{
    assert(pow2(s) <= pow2(127)) by {
        if s < 127 {
            lemma_pow2_strictly_increases(s, 127);
        }
    }
    assert(pow2(127) == 0x80000000000000000000000000000000) by {
        lemma_pow2_adds(64, 63);
        lemma2_to64();
        lemma2_to64_rest();
    }
    lemma_pow2_pos(s);
    assert(pow2(127) < pow2(128)) by {
        lemma_pow2_strictly_increases(127, 128);
    }
    crate::dyadic::lemma_pow2_128();
    lemma_mul_basics(pow2(s) as int);
}

/// A 53-bit value lies in the normal mantissa range.
proof fn lemma_53_bits(x: nat)
    requires
        spec_bitlen_nat(x) == 53,
    ensures
        0x10_0000_0000_0000 <= x < 0x20_0000_0000_0000,
{
    lemma_bitlen_nat_bounds(x);
    if x == 0 {
        assert(spec_bitlen_nat(x) == 0);
    }
    assert(x > 0);
    assert(pow2((spec_bitlen_nat(x) - 1) as nat) <= x);
    assert(x < pow2(spec_bitlen_nat(x)));
    lemma2_to64();
    lemma2_to64_rest();
}

} // verus!
