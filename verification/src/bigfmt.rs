//! Rendering magnitudes above the precision threshold as their shortest
//! faithful decimal. Such a value is m * 2^(g - 3) for a mantissa m and a
//! non-negative g, so a thousandfold of it is the integer m * 125 * 2^g,
//! whose digits come from doubling a digit vector g times. The renderer then
//! cuts as many low digits as it can while one of the two rounding
//! directions stays within half the value's neighbour gap - the decimals
//! inside that gap are exactly the ones that read back as the value - and
//! prints the nearer candidate with the point three digits up.

use vstd::prelude::*;
use vstd::arithmetic::power2::{pow2, lemma_pow2_adds, lemma_pow2_pos, lemma_pow2_strictly_increases, lemma2_to64, lemma2_to64_rest};
use vstd::arithmetic::mul::{
    lemma_mul_basics, lemma_mul_strictly_positive, lemma_mul_inequality,
    lemma_mul_strict_inequality, lemma_mul_is_associative, lemma_mul_is_commutative,
    lemma_mul_is_distributive_add_other_way,
};
use crate::bits::{spec_sign, spec_mantissa, spec_scale, decompose};
use crate::fmt::{spec_pow10, spec_digits, spec_frac_digits, push_digit};

verus! {

/// The value of a little-endian digit vector.
pub open spec fn spec_val10(s: Seq<u8>) -> nat
    decreases s.len(),
{
    if s.len() == 0 {
        0
    } else {
        (s[0] as nat) + 10 * spec_val10(s.subrange(1, s.len() as int))
    }
}

/// Every entry is a decimal digit.
pub open spec fn all_digits(s: Seq<u8>) -> bool {
    forall|i: int| 0 <= i < s.len() ==> s[i] < 10
}

/// The vector is the canonical spelling: nonempty, digits only, no leading
/// zero.
pub open spec fn canonical10(s: Seq<u8>) -> bool {
    &&& s.len() > 0
    &&& all_digits(s)
    &&& s[s.len() - 1] != 0
}

/// Number of decimal digits of a value.
pub open spec fn spec_numdigits(y: nat) -> nat
    decreases y,
{
    if y < 10 {
        1
    } else {
        1 + spec_numdigits(y / 10)
    }
}

/// Whether cutting the bottom t digits and keeping the lower candidate stays
/// within half the value's downward step: h is four times that step at the
/// thousandfold scale, halved again right above a power of two, where the
/// step below shrinks.
pub open spec fn spec_dn_ok(y: nat, t: nat, h: nat, boundary: bool, meven: bool) -> bool {
    let r = y % spec_pow10(t);
    let l = if boundary {
        4 * r
    } else {
        2 * r
    };
    l < h || (l == h && meven)
}

/// Whether rounding the cut up to the next multiple stays within half the
/// value's upward step.
pub open spec fn spec_up_ok(y: nat, t: nat, h: nat, meven: bool) -> bool {
    let w = (spec_pow10(t) - y % spec_pow10(t)) as nat;
    2 * w < h || (2 * w == h && meven)
}

/// A cut is acceptable when either rounding direction reads back as the
/// same value.
pub open spec fn spec_accept(y: nat, t: nat, h: nat, boundary: bool, meven: bool) -> bool {
    spec_dn_ok(y, t, h, boundary, meven) || spec_up_ok(y, t, h, meven)
}

/// The deepest acceptable cut at or below t: the fewest digits that still
/// read back as the value.
pub open spec fn spec_shortest_cut(y: nat, h: nat, boundary: bool, meven: bool, t: nat) -> nat
    decreases t,
{
    if t == 0 {
        0
    } else if spec_accept(y, t, h, boundary, meven) {
        t
    } else {
        spec_shortest_cut(y, h, boundary, meven, (t - 1) as nat)
    }
}

/// The digits kept at an acceptable cut: the nearer of the two candidates,
/// ties to the even one.
pub open spec fn spec_kept(y: nat, t: nat, h: nat, boundary: bool, meven: bool) -> nat {
    let p10 = spec_pow10(t);
    let r = y % p10;
    let k0 = y / p10;
    let dn = spec_dn_ok(y, t, h, boundary, meven);
    let up_ok = spec_up_ok(y, t, h, meven);
    let up = if dn && up_ok {
        if 2 * r > p10 {
            true
        } else if 2 * r < p10 {
            false
        } else {
            k0 % 2 == 1
        }
    } else {
        up_ok
    };
    k0 + if up {
        1nat
    } else {
        0nat
    }
}

/// The shortest faithful decimal rendering of a magnitude above the
/// threshold: among the decimals that read back as the value, the one with
/// the fewest digits, the nearest and then the even one first, printed with
/// the point three digits up from the thousandfold y = m * 125 * 2^g.
pub open spec fn spec_format_big(bits: u64) -> Seq<char> {
    let m = spec_mantissa(bits) as nat;
    let g = (spec_scale(bits) - 1071) as nat;
    let y = m * 125 * pow2(g);
    let h = 125 * pow2(g);
    let boundary = spec_mantissa(bits) == 0x10_0000_0000_0000;
    let meven = spec_mantissa(bits) % 2 == 0;
    let t = spec_shortest_cut(y, h, boundary, meven, (spec_numdigits(y) - 1) as nat);
    let kept = spec_kept(y, t, h, boundary, meven);
    (if spec_sign(bits) {
        seq!['-']
    } else {
        Seq::<char>::empty()
    }) + if t >= 3 {
        spec_digits(kept) + Seq::<char>::new((t - 3) as nat, |i: int| '0')
    } else {
        spec_digits(kept / spec_pow10((3 - t) as nat)) + seq!['.'] + spec_frac_digits(
            kept % spec_pow10((3 - t) as nat),
            (3 - t) as nat,
        )
    }
}

/// The value of a one-digit vector.
proof fn lemma_val10_single(s: Seq<u8>)
    requires
        s.len() == 1,
    ensures
        spec_val10(s) == s[0] as nat,
{
    assert(s.subrange(1, 1) =~= Seq::<u8>::empty());
    assert(spec_val10(s) == (s[0] as nat) + 10 * spec_val10(s.subrange(1, 1)));
}

/// One unfolding of the digit value.
proof fn lemma_val10_unfold(s: Seq<u8>)
    requires
        s.len() > 0,
    ensures
        spec_val10(s) == (s[0] as nat) + 10 * spec_val10(s.subrange(1, s.len() as int)),
{
}

/// Appending a digit raises the value by that digit at the top.
proof fn lemma_val10_push(s: Seq<u8>, d: u8)
    ensures
        spec_val10(s.push(d)) == spec_val10(s) + (d as nat) * spec_pow10(s.len()),
    decreases s.len(),
{
    if s.len() == 0 {
        assert(s.push(d) =~= seq![d]);
        assert(spec_val10(seq![d]) == d as nat + 10 * spec_val10(seq![d].subrange(1, 1)));
        assert(seq![d].subrange(1, 1) =~= Seq::<u8>::empty());
        lemma_mul_basics(d as int);
    } else {
        assert(s.push(d).subrange(1, s.push(d).len() as int) =~= s.subrange(1, s.len() as int).push(d));
        lemma_val10_push(s.subrange(1, s.len() as int), d);
        assert(spec_val10(s.push(d)) == (s[0] as nat) + 10 * (spec_val10(s.subrange(1, s.len() as int))
            + (d as nat) * spec_pow10((s.len() - 1) as nat)));
        assert(10 * ((d as nat) * spec_pow10((s.len() - 1) as nat)) == (d as nat) * spec_pow10(s.len())) by {
            lemma_mul_is_associative(10, d as int, spec_pow10((s.len() - 1) as nat) as int);
            lemma_mul_is_commutative(10, d as int);
            lemma_mul_is_associative(d as int, 10, spec_pow10((s.len() - 1) as nat) as int);
        }
    }
}

/// A digit vector stays below the power of ten of its length.
proof fn lemma_val10_bound(s: Seq<u8>)
    requires
        all_digits(s),
    ensures
        spec_val10(s) < spec_pow10(s.len()),
    decreases s.len(),
{
    if s.len() > 0 {
        assert(all_digits(s.subrange(1, s.len() as int)));
        lemma_val10_bound(s.subrange(1, s.len() as int));
    }
}

/// A canonical vector reaches the power of ten below its length.
proof fn lemma_val10_lower(s: Seq<u8>)
    requires
        canonical10(s),
    ensures
        spec_val10(s) >= spec_pow10((s.len() - 1) as nat),
        spec_val10(s) > 0,
    decreases s.len(),
{
    if s.len() == 1 {
        assert(spec_val10(s) == (s[0] as nat) + 10 * spec_val10(s.subrange(1, 1)));
        assert(s.subrange(1, 1) =~= Seq::<u8>::empty());
    } else {
        let rest = s.subrange(1, s.len() as int);
        assert(canonical10(rest));
        lemma_val10_lower(rest);
    }
}

/// The digits of a positive machine word, least significant first.
fn digits_of_u64(n: u64) -> (r: Vec<u8>)
    requires
        n > 0,
    ensures
        spec_val10(r@) == n,
        canonical10(r@),
    decreases n,
{
    let d = (n % 10) as u8;
    if n < 10 {
        let mut v: Vec<u8> = Vec::new();
        v.push(d);
        proof {
            vstd::arithmetic::div_mod::lemma_small_mod(n as nat, 10);
            assert(v@ =~= seq![d]);
            lemma_val10_single(v@);
        }
        v
    } else {
        let rest = digits_of_u64(n / 10);
        let mut v: Vec<u8> = Vec::new();
        v.push(d);
        let mut i: usize = 0;
        while i < rest.len()
            invariant
                i <= rest.len(),
                v@.len() == i + 1,
                v@[0] == d,
                forall|k: int| 0 <= k < i ==> v@[k + 1] == rest@[k],
            decreases rest.len() - i,
        {
            let x = rest[i];
            v.push(x);
            i = i + 1;
        }
        proof {
            assert(v@.subrange(1, v@.len() as int) =~= rest@);
            lemma_val10_unfold(v@);
            assert(spec_val10(v@) == (d as nat) + 10 * spec_val10(rest@));
            assert forall|ii: int| 0 <= ii < v@.len() implies v@[ii] < 10 by {
                if ii >= 1 {
                    assert(v@[ii] == rest@[ii - 1]);
                }
            }
            assert(v@[v@.len() - 1] == rest@[rest@.len() - 1]);
        }
        v
    }
}

/// Doubles the value of a digit vector.
fn double_digits(v: &Vec<u8>) -> (r: Vec<u8>)
    requires
        canonical10(v@),
    ensures
        spec_val10(r@) == 2 * spec_val10(v@),
        canonical10(r@),
{
    let mut out: Vec<u8> = Vec::new();
    let mut carry: u8 = 0;
    let mut i: usize = 0;
    proof {
        assert(out@.subrange(0, 0) =~= Seq::<u8>::empty());
        assert(v@.subrange(0, 0) =~= Seq::<u8>::empty());
    }
    while i < v.len()
        invariant
            i <= v@.len(),
            out@.len() == i,
            carry <= 1,
            all_digits(v@),
            all_digits(out@),
            2 * spec_val10(v@.subrange(0, i as int)) == spec_val10(out@) + (carry as nat) * spec_pow10(i as nat),
            i > 0 ==> (out@[i - 1] != 0 || carry == 1 || v@[i - 1] == 0),
        decreases v@.len() - i,
    {
        let d = v[i];
        let w = 2 * d + carry;
        let nd = w % 10;
        let nc = w / 10;
        proof {
            lemma_val10_push(out@, nd);
            assert(v@.subrange(0, i + 1).drop_last() =~= v@.subrange(0, i as int));
            lemma_val10_snoc(v@.subrange(0, i + 1));
            let pi = spec_pow10(i as nat);
            assert(spec_pow10((i + 1) as nat) == 10 * pi);
            assert((w as nat) * pi == (nd as nat) * pi + (nc as nat) * (10 * pi)) by {
                assert(w == nd + 10 * nc);
                lemma_mul_is_distributive_add_other_way(pi as int, nd as int, (10 * nc) as int);
                lemma_mul_is_associative(nc as int, 10, pi as int);
                lemma_mul_is_commutative(nc as int, 10);
                lemma_mul_is_associative(10, nc as int, pi as int);
            }
            assert((w as nat) * pi == 2 * ((v@[i as int] as nat) * pi) + (carry as nat) * pi) by {
                lemma_mul_is_distributive_add_other_way(pi as int, (2 * (v@[i as int] as nat)) as int, carry as int);
                lemma_mul_is_associative(2, v@[i as int] as int, pi as int);
            }
        }
        out.push(nd);
        carry = nc;
        i = i + 1;
    }
    proof {
        assert(v@.subrange(0, v@.len() as int) =~= v@);
    }
    if carry > 0 {
        proof {
            lemma_val10_push(out@, carry);
        }
        out.push(carry);
        proof {
            assert(out@[out@.len() - 1] != 0);
        }
        out
    } else {
        proof {
            lemma_val10_lower(v@);
            // without a carry the top digit doubled stays put and nonzero
            assert(out@[out@.len() - 1] != 0) by {
                if out@[out@.len() - 1] == 0 && v@[v@.len() - 1] != 0 {
                    // value at least 2 * 10^(len-1), yet digits say less
                    lemma_val10_bound(out@.drop_last());
                    lemma_val10_snoc(out@);
                    assert(spec_val10(out@) < spec_pow10((out@.len() - 1) as nat) + 0 * spec_pow10((out@.len() - 1) as nat)) by {
                        lemma_mul_basics(spec_pow10((out@.len() - 1) as nat) as int);
                    }
                    assert(2 * spec_val10(v@) >= 2 * spec_pow10((v@.len() - 1) as nat)) by {
                        lemma_val10_lower(v@);
                    }
                }
            }
        }
        out
    }
}

/// Doubles the value of any digit vector, canonical or not.
fn double_digits_loose(v: &Vec<u8>) -> (r: Vec<u8>)
    requires
        all_digits(v@),
    ensures
        spec_val10(r@) == 2 * spec_val10(v@),
        all_digits(r@),
{
    let mut out: Vec<u8> = Vec::new();
    let mut carry: u8 = 0;
    let mut i: usize = 0;
    proof {
        assert(out@.subrange(0, 0) =~= Seq::<u8>::empty());
        assert(v@.subrange(0, 0) =~= Seq::<u8>::empty());
    }
    while i < v.len()
        invariant
            i <= v@.len(),
            out@.len() == i,
            carry <= 1,
            all_digits(v@),
            all_digits(out@),
            2 * spec_val10(v@.subrange(0, i as int)) == spec_val10(out@) + (carry as nat) * spec_pow10(i as nat),
        decreases v@.len() - i,
    {
        let d = v[i];
        let w = 2 * d + carry;
        let nd = w % 10;
        let nc = w / 10;
        proof {
            lemma_val10_push(out@, nd);
            assert(v@.subrange(0, i + 1).drop_last() =~= v@.subrange(0, i as int));
            lemma_val10_snoc(v@.subrange(0, i + 1));
            let pi = spec_pow10(i as nat);
            assert(spec_pow10((i + 1) as nat) == 10 * pi);
            assert((w as nat) * pi == (nd as nat) * pi + (nc as nat) * (10 * pi)) by {
                assert(w == nd + 10 * nc);
                lemma_mul_is_distributive_add_other_way(pi as int, nd as int, (10 * nc) as int);
                lemma_mul_is_associative(nc as int, 10, pi as int);
                lemma_mul_is_commutative(nc as int, 10);
                lemma_mul_is_associative(10, nc as int, pi as int);
            }
            assert((w as nat) * pi == 2 * ((v@[i as int] as nat) * pi) + (carry as nat) * pi) by {
                lemma_mul_is_distributive_add_other_way(pi as int, (2 * (v@[i as int] as nat)) as int, carry as int);
                lemma_mul_is_associative(2, v@[i as int] as int, pi as int);
            }
        }
        out.push(nd);
        carry = nc;
        i = i + 1;
    }
    proof {
        assert(v@.subrange(0, v@.len() as int) =~= v@);
    }
    if carry > 0 {
        proof {
            lemma_val10_push(out@, carry);
        }
        out.push(carry);
        out
    } else {
        out
    }
}

/// A digit vector is its lower part plus its top digit.
proof fn lemma_val10_snoc(s: Seq<u8>)
    requires
        s.len() > 0,
    ensures
        spec_val10(s) == spec_val10(s.drop_last()) + (s[s.len() - 1] as nat) * spec_pow10((s.len() - 1) as nat),
{
    assert(s =~= s.drop_last().push(s[s.len() - 1]));
    lemma_val10_push(s.drop_last(), s[s.len() - 1]);
}

/// Splitting a digit vector splits its value at a power of ten.
proof fn lemma_val10_split(s: Seq<u8>, t: int)
    requires
        0 <= t <= s.len(),
    ensures
        spec_val10(s) == spec_val10(s.subrange(0, t)) + spec_val10(s.subrange(t, s.len() as int)) * spec_pow10(t as nat),
    decreases t,
{
    if t == 0 {
        assert(s.subrange(0, 0) =~= Seq::<u8>::empty());
        assert(s.subrange(0, s.len() as int) =~= s);
        lemma_mul_basics(spec_val10(s) as int);
    } else {
        let body = s.subrange(1, s.len() as int);
        lemma_val10_split(body, t - 1);
        assert(body.subrange(0, t - 1) =~= s.subrange(1, t));
        assert(body.subrange(t - 1, body.len() as int) =~= s.subrange(t, s.len() as int));
        assert(s.subrange(0, t).subrange(1, t) =~= s.subrange(1, t));
        assert(spec_val10(s.subrange(0, t)) == (s[0] as nat) + 10 * spec_val10(s.subrange(1, t)));
        let hi = spec_val10(s.subrange(t, s.len() as int));
        assert(10 * (hi * spec_pow10((t - 1) as nat)) == hi * spec_pow10(t as nat)) by {
            lemma_mul_is_associative(10, hi as int, spec_pow10((t - 1) as nat) as int);
            lemma_mul_is_commutative(10, hi as int);
            lemma_mul_is_associative(hi as int, 10, spec_pow10((t - 1) as nat) as int);
        }
    }
}

/// Appends the digits s[lo..hi] of a vector, most significant first: the
/// decimal spelling of that slice's value.
fn push_slice_digits(s: &mut String, v: &Vec<u8>, lo: usize, hi: usize)
    requires
        lo < hi <= old(s)@.len() + v@.len(),
        hi <= v@.len(),
        all_digits(v@),
        v@[hi - 1] != 0 || hi - lo == 1,
    ensures
        final(s)@ == old(s)@ + spec_digits(spec_val10(v@.subrange(lo as int, hi as int))),
    decreases hi - lo,
{
    let ghost part = v@.subrange(lo as int, hi as int);
    proof {
        assert(part[0] == v@[lo as int]);
        assert(part.subrange(1, part.len() as int) =~= v@.subrange(lo + 1, hi as int));
    }
    if hi - lo == 1 {
        proof {
            assert(part =~= seq![v@[lo as int]]);
            lemma_val10_single(part);
        }
        push_digit(s, v[lo]);
    } else {
        proof {
            // the slice's value has its low digit at v[lo]
            assert(spec_val10(part) == (v@[lo as int] as nat) + 10 * spec_val10(v@.subrange(lo + 1, hi as int)));
            assert(spec_val10(part) % 10 == v@[lo as int] as nat
                && spec_val10(part) / 10 == spec_val10(v@.subrange(lo + 1, hi as int))) by {
                vstd::arithmetic::div_mod::lemma_mod_multiples_vanish(
                    spec_val10(v@.subrange(lo + 1, hi as int)) as int,
                    v@[lo as int] as int,
                    10,
                );
                vstd::arithmetic::div_mod::lemma_small_mod(v@[lo as int] as nat, 10);
                vstd::arithmetic::div_mod::lemma_fundamental_div_mod_converse_div(
                    spec_val10(part) as int,
                    10,
                    spec_val10(v@.subrange(lo + 1, hi as int)) as int,
                    v@[lo as int] as int,
                );
            }
            assert(spec_val10(part) >= 10) by {
                let up = v@.subrange(lo + 1, hi as int);
                assert(canonical10(up)) by {
                    assert(up[up.len() - 1] == v@[hi - 1]);
                }
                lemma_val10_lower(up);
                crate::fmt::lemma_pow10_pos((up.len() - 1) as nat);
            }
        }
        push_slice_digits(s, v, lo + 1, hi);
        push_digit(s, v[lo]);
        proof {
            assert(s@ =~= old(s)@ + spec_digits(spec_val10(part)));
        }
    }
}

/// Appends exactly hi - lo fraction digits from the slice, most significant
/// first.
fn push_slice_frac(s: &mut String, v: &Vec<u8>, lo: usize, hi: usize)
    requires
        lo <= hi <= v@.len(),
        all_digits(v@),
    ensures
        final(s)@ == old(s)@ + spec_frac_digits(
            spec_val10(v@.subrange(lo as int, hi as int)),
            (hi - lo) as nat,
        ),
    decreases hi - lo,
{
    if lo == hi {
        proof {
            assert(s@ =~= old(s)@ + spec_frac_digits(spec_val10(v@.subrange(lo as int, hi as int)), 0));
        }
    } else {
        let ghost part = v@.subrange(lo as int, hi as int);
        proof {
            assert(part[0] == v@[lo as int]);
            assert(part.subrange(1, part.len() as int) =~= v@.subrange(lo + 1, hi as int));
            assert(spec_val10(part) == (v@[lo as int] as nat) + 10 * spec_val10(v@.subrange(lo + 1, hi as int)));
            assert(spec_val10(part) % 10 == v@[lo as int] as nat
                && spec_val10(part) / 10 == spec_val10(v@.subrange(lo + 1, hi as int))) by {
                vstd::arithmetic::div_mod::lemma_mod_multiples_vanish(
                    spec_val10(v@.subrange(lo + 1, hi as int)) as int,
                    v@[lo as int] as int,
                    10,
                );
                vstd::arithmetic::div_mod::lemma_small_mod(v@[lo as int] as nat, 10);
                vstd::arithmetic::div_mod::lemma_fundamental_div_mod_converse_div(
                    spec_val10(part) as int,
                    10,
                    spec_val10(v@.subrange(lo + 1, hi as int)) as int,
                    v@[lo as int] as int,
                );
            }
        }
        push_slice_frac(s, v, lo + 1, hi);
        push_digit(s, v[lo]);
        proof {
            assert(s@ =~= old(s)@ + spec_frac_digits(spec_val10(part), (hi - lo) as nat));
        }
    }
}


/// A canonical vector has as many digits as its value.
proof fn lemma_numdigits_len(s: Seq<u8>)
    requires
        canonical10(s),
    ensures
        spec_numdigits(spec_val10(s)) == s.len(),
    decreases s.len(),
{
    let y = spec_val10(s);
    if s.len() == 1 {
        lemma_val10_single(s);
    } else {
        let body = s.subrange(1, s.len() as int);
        assert(canonical10(body));
        lemma_numdigits_len(body);
        lemma_val10_lower(body);
        crate::fmt::lemma_pow10_pos((body.len() - 1) as nat);
        assert(y == (s[0] as nat) + 10 * spec_val10(body));
        assert(y >= 10);
        assert(y / 10 == spec_val10(body)) by {
            vstd::arithmetic::div_mod::lemma_fundamental_div_mod_converse_div(
                y as int,
                10,
                spec_val10(body) as int,
                s[0] as int,
            );
        }
    }
}

/// The truncation of a digit vector: its low digits.
pub open spec fn spec_trunc(s: Seq<u8>, i: nat) -> Seq<u8> {
    if i <= s.len() {
        s.subrange(0, i as int)
    } else {
        s
    }
}

/// The digit of a vector at a position, zero above its end.
pub open spec fn spec_digit_at(s: Seq<u8>, i: nat) -> u8 {
    if i < s.len() {
        s[i as int]
    } else {
        0
    }
}

/// One more truncated digit adds its weight.
proof fn lemma_trunc_step(s: Seq<u8>, i: nat)
    ensures
        spec_val10(spec_trunc(s, i + 1)) == spec_val10(spec_trunc(s, i)) + (spec_digit_at(s, i) as nat) * spec_pow10(i),
{
    if i + 1 <= s.len() {
        assert(spec_trunc(s, i + 1).drop_last() =~= spec_trunc(s, i));
        lemma_val10_snoc(spec_trunc(s, i + 1));
    } else if i == s.len() {
        assert(spec_trunc(s, i + 1) =~= spec_trunc(s, i));
        lemma_mul_basics(spec_pow10(i) as int);
    } else {
        assert(spec_trunc(s, i + 1) =~= spec_trunc(s, i));
        lemma_mul_basics(spec_pow10(i) as int);
    }
}

/// Truncating at or past the end changes nothing.
proof fn lemma_trunc_all(s: Seq<u8>, i: nat)
    requires
        i >= s.len(),
    ensures
        spec_val10(spec_trunc(s, i)) == spec_val10(s),
{
    if i <= s.len() {
        assert(spec_trunc(s, i) =~= s);
    }
}

/// Compares the low i digits of two vectors, by value.
fn cmp_low_digits(a: &Vec<u8>, b: &Vec<u8>, i: usize) -> (r: i8)
    requires
        all_digits(a@),
        all_digits(b@),
    ensures
        -1 <= r <= 1,
        r == -1 <==> spec_val10(spec_trunc(a@, i as nat)) < spec_val10(spec_trunc(b@, i as nat)),
        r == 0 <==> spec_val10(spec_trunc(a@, i as nat)) == spec_val10(spec_trunc(b@, i as nat)),
        r == 1 <==> spec_val10(spec_trunc(a@, i as nat)) > spec_val10(spec_trunc(b@, i as nat)),
    decreases i,
{
    if i == 0 {
        proof {
            assert(spec_trunc(a@, 0) =~= Seq::<u8>::empty());
            assert(spec_trunc(b@, 0) =~= Seq::<u8>::empty());
        }
        return 0;
    }
    let j = i - 1;
    let da: u8 = if j < a.len() {
        a[j]
    } else {
        0
    };
    let db: u8 = if j < b.len() {
        b[j]
    } else {
        0
    };
    proof {
        lemma_trunc_step(a@, j as nat);
        lemma_trunc_step(b@, j as nat);
        lemma_trunc_bound(a@, j as nat);
        lemma_trunc_bound(b@, j as nat);
        crate::fmt::lemma_pow10_pos(j as nat);
    }
    if da > db {
        proof {
            lemma_digit_dominates(spec_val10(spec_trunc(a@, j as nat)), spec_val10(spec_trunc(b@, j as nat)), da as nat, db as nat, spec_pow10(j as nat));
        }
        1
    } else if da < db {
        proof {
            lemma_digit_dominates(spec_val10(spec_trunc(b@, j as nat)), spec_val10(spec_trunc(a@, j as nat)), db as nat, da as nat, spec_pow10(j as nat));
        }
        -1
    } else {
        cmp_low_digits(a, b, j)
    }
}

/// A truncation stays below the power of ten of its width.
proof fn lemma_trunc_bound(s: Seq<u8>, i: nat)
    requires
        all_digits(s),
    ensures
        spec_val10(spec_trunc(s, i)) < spec_pow10(i),
{
    if i <= s.len() {
        assert(all_digits(s.subrange(0, i as int)));
        lemma_val10_bound(s.subrange(0, i as int));
    } else {
        lemma_val10_bound(s);
        crate::fmt::lemma_pow10_mono(s.len(), i);
    }
}

/// A larger digit at the top outweighs everything below it.
proof fn lemma_digit_dominates(va: nat, vb: nat, da: nat, db: nat, p: nat)
    requires
        va < p,
        vb < p,
        da > db,
        p >= 1,
    ensures
        va + da * p > vb + db * p,
{
    assert(da * p >= (db + 1) * p) by {
        lemma_mul_inequality((db + 1) as int, da as int, p as int);
    }
    assert((db + 1) * p == db * p + p) by {
        lemma_mul_is_distributive_add_other_way(p as int, db as int, 1);
    }
}

/// Compares two digit vectors by value.
fn cmp_digits(a: &Vec<u8>, b: &Vec<u8>) -> (r: i8)
    requires
        all_digits(a@),
        all_digits(b@),
    ensures
        -1 <= r <= 1,
        r == -1 <==> spec_val10(a@) < spec_val10(b@),
        r == 0 <==> spec_val10(a@) == spec_val10(b@),
        r == 1 <==> spec_val10(a@) > spec_val10(b@),
{
    let i = if a.len() >= b.len() {
        a.len()
    } else {
        b.len()
    };
    proof {
        lemma_trunc_all(a@, i as nat);
        lemma_trunc_all(b@, i as nat);
    }
    cmp_low_digits(a, b, i)
}

/// Adds two digit vectors.
fn add_digits(a: &Vec<u8>, b: &Vec<u8>) -> (r: Vec<u8>)
    requires
        all_digits(a@),
        all_digits(b@),
    ensures
        spec_val10(r@) == spec_val10(a@) + spec_val10(b@),
        all_digits(r@),
        canonical10(a@) && b@.len() <= a@.len() ==> canonical10(r@),
{
    let n = if a.len() >= b.len() {
        a.len()
    } else {
        b.len()
    };
    let mut out: Vec<u8> = Vec::new();
    let mut carry: u8 = 0;
    let mut i: usize = 0;
    proof {
        assert(spec_trunc(a@, 0) =~= Seq::<u8>::empty());
        assert(spec_trunc(b@, 0) =~= Seq::<u8>::empty());
    }
    while i < n
        invariant
            i <= n,
            n == if a@.len() >= b@.len() { a@.len() } else { b@.len() },
            out@.len() == i,
            carry <= 1,
            all_digits(a@),
            all_digits(b@),
            all_digits(out@),
            spec_val10(spec_trunc(a@, i as nat)) + spec_val10(spec_trunc(b@, i as nat))
                == spec_val10(out@) + (carry as nat) * spec_pow10(i as nat),
        decreases n - i,
    {
        let da: u8 = if i < a.len() {
            a[i]
        } else {
            0
        };
        let db: u8 = if i < b.len() {
            b[i]
        } else {
            0
        };
        let w = da + db + carry;
        let nd = w % 10;
        let nc = w / 10;
        proof {
            lemma_val10_push(out@, nd);
            lemma_trunc_step(a@, i as nat);
            lemma_trunc_step(b@, i as nat);
            let pi = spec_pow10(i as nat);
            assert(spec_pow10((i + 1) as nat) == 10 * pi);
            assert((w as nat) * pi == (nd as nat) * pi + (nc as nat) * (10 * pi)) by {
                assert(w == nd + 10 * nc);
                lemma_mul_is_distributive_add_other_way(pi as int, nd as int, (10 * nc) as int);
                lemma_mul_is_associative(nc as int, 10, pi as int);
                lemma_mul_is_commutative(nc as int, 10);
                lemma_mul_is_associative(10, nc as int, pi as int);
            }
            assert((w as nat) * pi == (da as nat) * pi + (db as nat) * pi + (carry as nat) * pi) by {
                lemma_mul_is_distributive_add_other_way(pi as int, (da + db) as int, carry as int);
                lemma_mul_is_distributive_add_other_way(pi as int, da as int, db as int);
            }
        }
        out.push(nd);
        carry = nc;
        i = i + 1;
    }
    proof {
        lemma_trunc_all(a@, n as nat);
        lemma_trunc_all(b@, n as nat);
    }
    if carry > 0 {
        proof {
            lemma_val10_push(out@, carry);
        }
        out.push(carry);
        proof {
            assert(out@[out@.len() - 1] != 0);
        }
        out
    } else {
        proof {
            if canonical10(a@) && b@.len() <= a@.len() {
                lemma_val10_lower(a@);
                assert(out@[out@.len() - 1] != 0) by {
                    if out@[out@.len() - 1] == 0 {
                        lemma_val10_bound(out@.drop_last());
                        lemma_val10_snoc(out@);
                        assert(spec_val10(out@) < spec_pow10((out@.len() - 1) as nat)
                            + 0 * spec_pow10((out@.len() - 1) as nat)) by {
                            lemma_mul_basics(spec_pow10((out@.len() - 1) as nat) as int);
                        }
                        assert(spec_val10(a@) >= spec_pow10((a@.len() - 1) as nat));
                    }
                }
            }
        }
        out
    }
}

/// A single top digit over a run of zeros: the vector of d * 10^t.
fn pow10_vec(t: usize, d: u8) -> (r: Vec<u8>)
    requires
        0 < d < 10,
    ensures
        spec_val10(r@) == (d as nat) * spec_pow10(t as nat),
        canonical10(r@),
{
    let mut out: Vec<u8> = Vec::new();
    let mut i: usize = 0;
    while i < t
        invariant
            i <= t,
            out@.len() == i,
            all_digits(out@),
            spec_val10(out@) == 0,
        decreases t - i,
    {
        proof {
            lemma_val10_push(out@, 0);
            lemma_mul_basics(spec_pow10(i as nat) as int);
        }
        out.push(0);
        i = i + 1;
    }
    proof {
        lemma_val10_push(out@, d);
    }
    out.push(d);
    out
}

/// The parity of a value is the parity of its low digit.
proof fn lemma_parity(s: Seq<u8>)
    requires
        s.len() > 0,
    ensures
        spec_val10(s) % 2 == (s[0] as nat) % 2,
{
    let rest = spec_val10(s.subrange(1, s.len() as int));
    assert(spec_val10(s) == (s[0] as nat) + 10 * rest);
    assert(((s[0] as nat) + 10 * rest) % 2 == (s[0] as nat) % 2) by {
        vstd::arithmetic::div_mod::lemma_mod_multiples_vanish(
            (5 * rest) as int,
            s[0] as int,
            2,
        );
        assert(10 * rest == 2 * (5 * rest)) by {
            lemma_mul_is_associative(2, 5, rest as int);
        }
        lemma_mul_is_commutative(2, (5 * rest) as int);
    }
}

/// The low digits of a vector hold the value's remainder by the matching
/// power of ten, and the rest its quotient.
proof fn lemma_prefix_mod(s: Seq<u8>, t: nat)
    requires
        all_digits(s),
        t <= s.len(),
    ensures
        spec_val10(s.subrange(0, t as int)) == spec_val10(s) % spec_pow10(t),
        spec_val10(s.subrange(t as int, s.len() as int)) == spec_val10(s) / spec_pow10(t),
{
    lemma_val10_split(s, t as int);
    lemma_val10_bound(s.subrange(0, t as int));
    crate::fmt::lemma_pow10_pos(t);
    vstd::arithmetic::div_mod::lemma_fundamental_div_mod_converse_div(
        spec_val10(s) as int,
        spec_pow10(t) as int,
        spec_val10(s.subrange(t as int, s.len() as int)) as int,
        spec_val10(s.subrange(0, t as int)) as int,
    );
    vstd::arithmetic::div_mod::lemma_fundamental_div_mod_converse_mod(
        spec_val10(s) as int,
        spec_pow10(t) as int,
        spec_val10(s.subrange(t as int, s.len() as int)) as int,
        spec_val10(s.subrange(0, t as int)) as int,
    );
}

/// Renders a finite magnitude above the precision threshold as its exact
/// decimal expansion, the fraction stripped of trailing zeros.
#[verifier::rlimit(80)]
pub(crate) fn format_big(bits: u64) -> (r: String)
    requires
        crate::bits::spec_is_valid(bits),
        crate::bits::spec_mag(bits) > crate::fmt::threshold_mag(),
    ensures
        r@ == spec_format_big(bits),
{
    let (sign, m, e) = decompose(bits);
    proof {
        lemma_big_scale(m, e);
    }
    let g: u64 = e - 1071;
    let base: u64 = m * 125;
    let mut v = digits_of_u64(base);
    let mut i: u64 = 0;
    proof {
        lemma2_to64();
        assert((base as nat) * pow2(0nat) == base as nat) by {
            lemma_mul_basics(base as int);
        }
    }
    while i < g
        invariant
            i <= g,
            canonical10(v@),
            spec_val10(v@) == (base as nat) * pow2(i as nat),
        decreases g - i,
    {
        proof {
            lemma_pow2_adds(i as nat, 1);
            lemma2_to64();
            assert(2 * ((base as nat) * pow2(i as nat)) == (base as nat) * pow2((i + 1) as nat)) by {
                lemma_mul_is_associative(base as int, pow2(i as nat) as int, 2);
                lemma_mul_is_commutative(pow2(i as nat) as int, 2);
                lemma_mul_is_associative(base as int, 2, pow2(i as nat) as int);
                lemma_mul_is_commutative(2, (base as nat) * pow2(i as nat) as int);
            }
        }
        v = double_digits(&v);
        i = i + 1;
    }
    let ghost y = spec_val10(v@);
    proof {
        assert(y == (spec_mantissa(bits) as nat) * 125 * pow2((spec_scale(bits) - 1071) as nat));
        lemma_y_large(m, e, y);
        lemma_big_len(v@, y);
        lemma_numdigits_len(v@);
    }
    // the half-step bound at the thousandfold scale: 125 * 2^g
    let mut hv = digits_of_u64(125);
    let mut j: u64 = 0;
    proof {
        lemma2_to64();
        assert((125 as nat) * pow2(0nat) == 125) by {
            lemma_mul_basics(125 as int);
        }
    }
    while j < g
        invariant
            j <= g,
            canonical10(hv@),
            spec_val10(hv@) == 125 * pow2(j as nat),
        decreases g - j,
    {
        proof {
            lemma_pow2_adds(j as nat, 1);
            lemma2_to64();
            assert(2 * (125 * pow2(j as nat)) == 125 * pow2((j + 1) as nat)) by {
                lemma_mul_is_associative(125, pow2(j as nat) as int, 2);
                lemma_mul_is_commutative(pow2(j as nat) as int, 2);
                lemma_mul_is_associative(125, 2, pow2(j as nat) as int);
                lemma_mul_is_commutative(2, (125 * pow2(j as nat)) as int);
            }
        }
        hv = double_digits(&hv);
        j = j + 1;
    }
    let ghost h = spec_val10(hv@);
    proof {
        lemma_val10_lower(hv@);
        assert(h >= 125) by {
            lemma_pow2_pos(g as nat);
            lemma_mul_inequality(1, pow2(g as nat) as int, 125);
            lemma_mul_is_commutative(125, pow2(g as nat) as int);
        }
    }
    let boundary = m == 0x0010_0000_0000_0000;
    let meven = m % 2 == 0;
    let ghost t0 = (v@.len() - 1) as nat;
    // walk the cuts from the shallowest: the first acceptable one keeps the
    // fewest digits
    let mut t: usize = v.len() - 1;
    let mut dn_ok: bool = false;
    let mut up_ok: bool = false;
    let mut c2r: i8 = 0;
    loop
        invariant
            t < v@.len(),
            canonical10(v@),
            canonical10(hv@),
            y == spec_val10(v@),
            h == spec_val10(hv@),
            h >= 125,
            t0 == (v@.len() - 1) as nat,
            boundary == (spec_mantissa(bits) == 0x10_0000_0000_0000),
            meven == (spec_mantissa(bits) % 2 == 0),
            spec_shortest_cut(y, h, boundary, meven, t0) == spec_shortest_cut(y, h, boundary, meven, t as nat),
        ensures
            t < v@.len(),
            t as nat == spec_shortest_cut(y, h, boundary, meven, t0),
            dn_ok == spec_dn_ok(y, t as nat, h, boundary, meven),
            up_ok == spec_up_ok(y, t as nat, h, meven),
            dn_ok || up_ok,
            (c2r == -1 <==> 2 * (y % spec_pow10(t as nat)) < spec_pow10(t as nat)),
            (c2r == 0 <==> 2 * (y % spec_pow10(t as nat)) == spec_pow10(t as nat)),
            (c2r == 1 <==> 2 * (y % spec_pow10(t as nat)) > spec_pow10(t as nat)),
        decreases t,
    {
        let mut rv: Vec<u8> = Vec::new();
        let mut q: usize = 0;
        while q < t
            invariant
                q <= t,
                t < v@.len(),
                all_digits(v@),
                rv@ == v@.subrange(0, q as int),
            decreases t - q,
        {
            rv.push(v[q]);
            proof {
                assert(rv@ =~= v@.subrange(0, (q + 1) as int));
            }
            q = q + 1;
        }
        let ghost r_val = y % spec_pow10(t as nat);
        proof {
            lemma_prefix_mod(v@, t as nat);
            assert(spec_val10(rv@) == r_val);
        }
        let dn2 = double_digits_loose(&rv);
        let c_dn: i8 = if boundary {
            let dn4 = double_digits_loose(&dn2);
            cmp_digits(&dn4, &hv)
        } else {
            cmp_digits(&dn2, &hv)
        };
        dn_ok = c_dn == -1 || (c_dn == 0 && meven);
        let sum = add_digits(&hv, &dn2);
        let two_t = pow10_vec(t, 2);
        let c_up = cmp_digits(&two_t, &sum);
        up_ok = c_up == -1 || (c_up == 0 && meven);
        proof {
            // 2 * (10^t - r) compares to h as 2 * 10^t compares to h + 2r
            crate::fmt::lemma_pow10_pos(t as nat);
            vstd::arithmetic::div_mod::lemma_mod_bound(y as int, spec_pow10(t as nat) as int);
            assert(dn_ok == spec_dn_ok(y, t as nat, h, boundary, meven));
            assert(up_ok == spec_up_ok(y, t as nat, h, meven));
        }
        if dn_ok || up_ok {
            let one_t = pow10_vec(t, 1);
            c2r = cmp_digits(&dn2, &one_t);
            proof {
                lemma_mul_basics(spec_pow10(t as nat) as int);
                if t > 0 {
                    assert(spec_shortest_cut(y, h, boundary, meven, t as nat) == t as nat);
                }
            }
            break;
        }
        proof {
            // the zero cut always accepts: its remainder is zero
            assert(t > 0) by {
                if t == 0 {
                    assert(spec_pow10(0nat) == 1);
                    assert(y % 1nat == 0) by {
                        vstd::arithmetic::div_mod::lemma_mod_multiples_basic(y as int, 1);
                        lemma_mul_basics(y as int);
                    }
                }
            }
            assert(spec_shortest_cut(y, h, boundary, meven, t as nat)
                == spec_shortest_cut(y, h, boundary, meven, (t - 1) as nat));
        }
        t = t - 1;
    }
    // choose the nearer candidate, ties to the even one
    let up: bool = if dn_ok && up_ok {
        if c2r == 1 {
            true
        } else if c2r == -1 {
            false
        } else {
            proof {
                lemma_prefix_mod(v@, t as nat);
                lemma_parity(v@.subrange(t as int, v@.len() as int));
            }
            v[t] % 2 == 1
        }
    } else {
        up_ok
    };
    let mut kv: Vec<u8> = Vec::new();
    let mut q: usize = t;
    while q < v.len()
        invariant
            t <= q <= v@.len(),
            all_digits(v@),
            kv@ == v@.subrange(t as int, q as int),
        decreases v@.len() - q,
    {
        kv.push(v[q]);
        proof {
            assert(kv@ =~= v@.subrange(t as int, (q + 1) as int));
        }
        q = q + 1;
    }
    proof {
        lemma_prefix_mod(v@, t as nat);
        assert(kv@ =~= v@.subrange(t as int, v@.len() as int));
        assert(spec_val10(kv@) == y / spec_pow10(t as nat));
        assert(kv@[kv@.len() - 1] == v@[v@.len() - 1]);
    }
    let ghost kv_pre = kv@;
    proof {
        assert(canonical10(kv_pre));
    }
    if up {
        let mut one: Vec<u8> = Vec::new();
        one.push(1);
        proof {
            assert(one@ =~= seq![1u8]);
            lemma_val10_single(one@);
        }
        kv = add_digits(&kv, &one);
    }
    let ghost kept = spec_kept(y, t as nat, h, boundary, meven);
    proof {
        assert(spec_val10(kv@) == kept);
        assert(t as nat == spec_shortest_cut(y, h, boundary, meven, (spec_numdigits(y) - 1) as nat));
    }
    let mut s = String::new();
    if sign {
        proof {
            reveal_strlit("-");
        }
        s.append("-");
    }
    if t >= 3 {
        // a whole number: the kept digits and the zeros above the point
        proof {
            assert(kv@.subrange(0, kv@.len() as int) =~= kv@);
        }
        push_slice_digits(&mut s, &kv, 0, kv.len());
        let mut z: usize = 0;
        let ghost base_s = s@;
        while z < t - 3
            invariant
                z <= t - 3,
                t >= 3,
                s@ == base_s + Seq::<char>::new(z as nat, |w: int| '0'),
            decreases t - 3 - z,
        {
            push_digit(&mut s, 0);
            proof {
                assert(s@ =~= base_s + Seq::<char>::new((z + 1) as nat, |w: int| '0'));
            }
            z = z + 1;
        }
        proof {
            assert(s@ =~= spec_format_big(bits));
        }
    } else {
        // the point lands inside: integer digits, the point, the fraction
        proof {
            lemma_kv_long(v@, kv@, t as nat, y);
            lemma_prefix_mod(kv@, (3 - t) as nat);
        }
        push_slice_digits(&mut s, &kv, 3 - t, kv.len());
        proof {
            reveal_strlit(".");
        }
        s.append(".");
        push_slice_frac(&mut s, &kv, 0, 3 - t);
        proof {
            assert(s@ =~= spec_format_big(bits));
        }
    }
    s
}

/// The kept digits reach well past the point: the value has nineteen digits
/// or more and at most two were cut.
proof fn lemma_kv_long(s: Seq<u8>, kv: Seq<u8>, t: nat, y: nat)
    requires
        canonical10(s),
        canonical10(kv),
        y == spec_val10(s),
        y >= 1000000000000000000,
        t < 3,
        t < s.len(),
        s.len() >= 19,
        spec_val10(kv) >= spec_val10(s.subrange(t as int, s.len() as int)),
    ensures
        kv.len() > 3,
{
    lemma_val10_bound(kv);
    let quot = spec_val10(s.subrange(t as int, s.len() as int));
    assert(s.subrange(t as int, s.len() as int).len() == s.len() - t);
    assert(canonical10(s.subrange(t as int, s.len() as int))) by {
        assert(s.subrange(t as int, s.len() as int)[s.len() - t - 1] == s[s.len() - 1]);
    }
    lemma_val10_lower(s.subrange(t as int, s.len() as int));
    assert(quot >= spec_pow10((s.len() - t - 1) as nat));
    assert(spec_pow10((s.len() - t - 1) as nat) >= spec_pow10(16)) by {
        crate::fmt::lemma_pow10_mono(16, (s.len() - t - 1) as nat);
    }
    if kv.len() <= 3 {
        assert(spec_val10(kv) < spec_pow10(3)) by {
            crate::fmt::lemma_pow10_mono(kv.len(), 3);
            lemma_val10_bound(kv);
        }
        crate::fmt::lemma_pow10_17();
        assert(spec_pow10(16) >= spec_pow10(4)) by {
            crate::fmt::lemma_pow10_mono(4, 16);
        }
        assert(spec_pow10(4) == 10 * spec_pow10(3));
    }
}

/// Above the threshold the thousandfold reaches nineteen digits.
proof fn lemma_y_large(m: u64, e: u64, y: nat)
    requires
        m < 0x20_0000_0000_0000,
        1071 <= e <= 2045,
        (m as nat) * pow2(e as nat) > crate::fmt::threshold_mag(),
        y == (m as nat) * 125 * pow2((e - 1071) as nat),
    ensures
        y >= 1000000000000000000,
{
    let g = (e - 1071) as nat;
    // m * 2^g > 8e15, since m * 2^g * 2^1071 > 8e15 * 2^1071
    lemma_pow2_adds(g, 1071);
    lemma_pow2_pos(1071);
    lemma_pow2_pos(g);
    assert((m as nat) * pow2(e as nat) == ((m as nat) * pow2(g)) * pow2(1071)) by {
        lemma_mul_is_associative(m as int, pow2(g) as int, pow2(1071) as int);
    }
    assert((m as nat) * pow2(g) > crate::fmt::THRESHOLD_MANTISSA as nat) by {
        if (m as nat) * pow2(g) <= crate::fmt::THRESHOLD_MANTISSA as nat {
            lemma_mul_inequality(((m as nat) * pow2(g)) as int, crate::fmt::THRESHOLD_MANTISSA as int, pow2(1071) as int);
        }
    }
    // so y == 125 * (m * 2^g) > 125 * 8e15 == 1e18
    assert(y == 125 * ((m as nat) * pow2(g))) by {
        lemma_mul_is_associative(m as int, 125, pow2(g) as int);
        lemma_mul_is_commutative(m as int, 125);
        lemma_mul_is_associative(125, m as int, pow2(g) as int);
    }
    assert(125 * ((m as nat) * pow2(g)) >= 125 * (crate::fmt::THRESHOLD_MANTISSA as nat + 1)) by {
        vstd::arithmetic::mul::lemma_mul_left_inequality(125, (crate::fmt::THRESHOLD_MANTISSA as nat + 1) as int, ((m as nat) * pow2(g)) as int);
    }
}

/// Above the threshold the scale exceeds the threshold's own, and the
/// mantissa is normal.
proof fn lemma_big_scale(m: u64, e: u64)
    requires
        m < 0x20_0000_0000_0000,
        e <= 2045,
        (e > 0 ==> m >= 0x10_0000_0000_0000),
        (m as nat) * pow2(e as nat) > crate::fmt::threshold_mag(),
    ensures
        1071 <= e <= 2045,
        m >= 0x10_0000_0000_0000,
        (m as nat) * 125 < 0x8000_0000_0000_0000,
        m * 125 > 0,
{
    lemma2_to64();
    lemma2_to64_rest();
    assert(crate::fmt::threshold_mag() >= pow2(52) * pow2(1071)) by {
        lemma_pow2_pos(1071);
        lemma_mul_inequality(pow2(52) as int, crate::fmt::THRESHOLD_MANTISSA as int, pow2(1071) as int);
    }
    lemma_pow2_adds(52, 1071);
    assert((m as nat) * pow2(e as nat) < pow2(53 + e as nat)) by {
        lemma_pow2_pos(e as nat);
        lemma_pow2_adds(53, e as nat);
        if m == 0 {
            lemma_mul_basics(pow2(e as nat) as int);
            lemma_pow2_pos(53 + e as nat);
        } else {
            lemma_mul_strict_inequality(m as int, pow2(53) as int, pow2(e as nat) as int);
        }
    }
    assert(e >= 1071) by {
        if e <= 1070 {
            assert(pow2(53 + e as nat) <= pow2(52 + 1071)) by {
                if (53 + e as nat) < (52 + 1071) {
                    lemma_pow2_strictly_increases(53 + e as nat, 52 + 1071);
                }
            }
        }
    }
    assert((m as nat) * 125 < 0x8000_0000_0000_0000) by {
        lemma_mul_inequality(m as int, 0x20_0000_0000_0000, 125);
    }
    assert(m * 125 > 0) by {
        lemma_mul_strictly_positive(m as int, 125);
    }
}

/// The thousandfold of a value above the threshold has nineteen digits or
/// more.
proof fn lemma_big_len(s: Seq<u8>, y: nat)
    requires
        canonical10(s),
        y == spec_val10(s),
        y >= 1000000000000000000,
    ensures
        s.len() >= 19,
{
    if s.len() <= 18 {
        lemma_val10_bound(s);
        assert(spec_pow10(s.len()) <= spec_pow10(18)) by {
            crate::fmt::lemma_pow10_mono(s.len(), 18);
        }
        crate::fmt::lemma_pow10_17();
        assert(spec_pow10(18) == 10 * spec_pow10(17));
    }
}

} // verus!
