//! Equality and ordering of validated values. Equality is the tolerant
//! relation; the order puts tolerant-equal values together and decides the
//! rest by the raw numeric comparison, so the type can serve as a sort key.
//! The tolerant relation is reflexive and symmetric, and deliberately not
//! transitive: chains of relative-tolerance steps can drift. That is a
//! documented property of the policy, not a defect to repair.

use vstd::prelude::*;
use core::cmp::Ordering;
use crate::bits::{spec_is_nan, spec_val, exec_is_nan, decompose};
use crate::compare::{spec_tol_eq, spec_abs, spec_min_nat, tolerant_eq_bits};
use crate::dyadic::cmp_mag;
use crate::extended_float::ExtendedFloat;

verus! {

/// The raw order on patterns, NaN aside: the exact value of a is above that
/// of b. NaN compares above nothing.
pub open spec fn spec_raw_gt(a: u64, b: u64) -> bool {
    !spec_is_nan(a) && !spec_is_nan(b) && spec_val(a) > spec_val(b)
}

/// The total order: tolerant-equal patterns are Equal, the rest go by the
/// raw order.
pub open spec fn spec_cmp_bits(a: u64, b: u64) -> Ordering {
    if spec_tol_eq(a, b) {
        Ordering::Equal
    } else if spec_raw_gt(a, b) {
        Ordering::Greater
    } else {
        Ordering::Less
    }
}

/// a sorts at or below b.
pub open spec fn spec_le_ef(a: ExtendedFloat, b: ExtendedFloat) -> bool {
    spec_cmp_bits(a.bits, b.bits) != Ordering::Greater
}

/// Each element sits at or below its right neighbour.
pub open spec fn spec_sorted(s: Seq<ExtendedFloat>) -> bool {
    forall|k: int| 0 <= k < s.len() - 1 ==> #[trigger] spec_le_ef(s[k], s[k + 1])
}

/// Whether the exact value of a lies above that of b, NaN aside.
pub fn raw_gt_bits(a: u64, b: u64) -> (r: bool)
    ensures
        r == spec_raw_gt(a, b),
{
    if exec_is_nan(a) || exec_is_nan(b) {
        return false;
    }
    let (sa, ma, ea) = decompose(a);
    let (sb, mb, eb) = decompose(b);
    proof {
        vstd::arithmetic::power2::lemma_pow2_pos(ea as nat);
        vstd::arithmetic::power2::lemma_pow2_pos(eb as nat);
        if ma == 0 {
            vstd::arithmetic::mul::lemma_mul_basics(vstd::arithmetic::power2::pow2(ea as nat) as int);
        } else {
            vstd::arithmetic::mul::lemma_mul_strictly_positive(ma as int, vstd::arithmetic::power2::pow2(ea as nat) as int);
        }
        if mb == 0 {
            vstd::arithmetic::mul::lemma_mul_basics(vstd::arithmetic::power2::pow2(eb as nat) as int);
        } else {
            vstd::arithmetic::mul::lemma_mul_strictly_positive(mb as int, vstd::arithmetic::power2::pow2(eb as nat) as int);
        }
        assert(crate::bits::spec_mag(a) == 0 <==> ma == 0);
        assert(crate::bits::spec_mag(b) == 0 <==> mb == 0);
    }
    if !sa && sb {
        // a non-negative, b non-positive: above unless both are zeros
        !(ma == 0 && mb == 0)
    } else if sa && !sb {
        false
    } else {
        let c = cmp_mag(ma as u128, ea as u32, mb as u128, eb as u32);
        if sa {
            c < 0
        } else {
            c > 0
        }
    }
}

impl ExtendedFloat {
    /// Total comparison: Equal for tolerant-equal values, otherwise by the
    /// raw numeric order.
    pub fn cmp(&self, other: &Self) -> (r: Ordering)
        ensures
            r == spec_cmp_bits(self.bits, other.bits),
    {
        if tolerant_eq_bits(self.bits, other.bits) {
            Ordering::Equal
        } else if raw_gt_bits(self.bits, other.bits) {
            Ordering::Greater
        } else {
            Ordering::Less
        }
    }
}

impl PartialEq for ExtendedFloat {
    /// Tolerant equality.
    fn eq(&self, other: &Self) -> (r: bool)
        ensures
            r == spec_tol_eq(self.bits, other.bits),
    {
        tolerant_eq_bits(self.bits, other.bits)
    }
}

impl vstd::std_specs::cmp::PartialEqSpecImpl for ExtendedFloat {
    open spec fn obeys_eq_spec() -> bool {
        true
    }

    open spec fn eq_spec(&self, other: &Self) -> bool {
        spec_tol_eq(self.bits, other.bits)
    }
}

impl Eq for ExtendedFloat {

}

impl PartialOrd for ExtendedFloat {
    fn partial_cmp(&self, other: &Self) -> (r: Option<Ordering>)
        ensures
            r == Some(spec_cmp_bits(self.bits, other.bits)),
    {
        Some(self.cmp(other))
    }
}

impl vstd::std_specs::cmp::PartialOrdSpecImpl for ExtendedFloat {
    open spec fn obeys_partial_cmp_spec() -> bool {
        true
    }

    open spec fn partial_cmp_spec(&self, other: &Self) -> Option<Ordering> {
        Some(spec_cmp_bits(self.bits, other.bits))
    }
}

/// Tolerant equality lifted to optional values: two absent values are equal,
/// an absent and a present one are not.
pub fn equal_option(a: &Option<ExtendedFloat>, b: &Option<ExtendedFloat>) -> (r: bool)
    ensures
        r == match (a, b) {
            (Some(va), Some(vb)) => spec_tol_eq(va.bits, vb.bits),
            (None, None) => true,
            _ => false,
        },
{
    match (a, b) {
        (Some(va), Some(vb)) => tolerant_eq_bits(va.bits, vb.bits),
        (None, None) => true,
        _ => false,
    }
}

/// Tolerant equality holds of every value and itself.
pub proof fn lemma_tolerant_eq_reflexive(a: ExtendedFloat)
    ensures
        spec_tol_eq(a.bits, a.bits),
{
}

/// Tolerant equality is symmetric: the difference and the smaller magnitude
/// do not depend on the order of the operands.
pub proof fn lemma_tolerant_eq_symmetric(a: ExtendedFloat, b: ExtendedFloat)
    ensures
        spec_tol_eq(a.bits, b.bits) == spec_tol_eq(b.bits, a.bits),
{
    assert(spec_abs(spec_val(a.bits) - spec_val(b.bits)) == spec_abs(spec_val(b.bits) - spec_val(a.bits)));
    assert(spec_min_nat(spec_abs(spec_val(a.bits)), spec_abs(spec_val(b.bits)))
        == spec_min_nat(spec_abs(spec_val(b.bits)), spec_abs(spec_val(a.bits))));
}

/// The order is consistent with the tolerant equality: values compare Equal
/// exactly when the tolerant relation holds of them, so tolerant-equal
/// values sort together without a strict order between them.
pub proof fn lemma_cmp_consistent_with_eq(a: ExtendedFloat, b: ExtendedFloat)
    ensures
        (spec_cmp_bits(a.bits, b.bits) == Ordering::Equal) <==> spec_tol_eq(a.bits, b.bits),
        spec_le_ef(a, b) || spec_le_ef(b, a),
{
    lemma_tolerant_eq_symmetric(a, b);
}

/// A strict comparison one way puts the operands at-or-below the other way.
proof fn lemma_cmp_antisym(a: ExtendedFloat, b: ExtendedFloat)
    requires
        spec_cmp_bits(a.bits, b.bits) == Ordering::Greater,
    ensures
        spec_cmp_bits(b.bits, a.bits) != Ordering::Greater,
{
    lemma_tolerant_eq_symmetric(a, b);
}

/// Sorts the values by the total order, by adjacent swaps: the result is a
/// rearrangement of the input in which every element sits at or below its
/// right neighbour.
pub fn sort(v: &mut Vec<ExtendedFloat>)
    ensures
        spec_sorted(final(v)@),
        final(v)@.to_multiset() == old(v)@.to_multiset(),
{
    let n = v.len();
    let mut i: usize = 1;
    if n < 2 {
        return;
    }
    while i < n
        invariant
            1 <= i <= n,
            n == v@.len(),
            spec_sorted(v@.subrange(0, i as int)),
            v@.to_multiset() == old(v)@.to_multiset(),
        decreases n - i,
    {
        let mut j: usize = i;
        proof {
            assert forall|k: int| 0 <= k <= i - 1 && k != j - 1 implies #[trigger] spec_le_ef(v@[k], v@[k + 1]) by {
                assert(v@.subrange(0, i as int)[k] == v@[k]);
                assert(v@.subrange(0, i as int)[k + 1] == v@[k + 1]);
            }
        }
        loop
            invariant
                0 <= j <= i < n,
                n == v@.len(),
                v@.to_multiset() == old(v)@.to_multiset(),
                // every adjacent pair of the prefix is ordered, but for the
                // one at the insertion point
                forall|k: int| 0 <= k <= i - 1 && k != j - 1 ==> #[trigger] spec_le_ef(v@[k], v@[k + 1]),
                // the pair around the insertion point is ordered
                0 < j < i ==> spec_le_ef(v@[j - 1], v@[j + 1]),
            ensures
                0 <= j <= i < n,
                n == v@.len(),
                v@.to_multiset() == old(v)@.to_multiset(),
                forall|k: int| 0 <= k <= i - 1 ==> #[trigger] spec_le_ef(v@[k], v@[k + 1]),
            decreases j,
        {
            if j == 0 {
                break;
            }
            let a = v[j - 1];
            let b = v[j];
            let gt = match a.cmp(&b) {
                Ordering::Greater => true,
                _ => false,
            };
            if !gt {
                break;
            }
            proof {
                lemma_cmp_antisym(a, b);
                if j >= 2 {
                    let ghost k0: int = j - 2;
                    assert(0 <= k0 <= i - 1 && k0 != j - 1);
                    assert(spec_le_ef(v@[k0], v@[k0 + 1]));
                    assert(spec_le_ef(v@[j - 2], v@[j - 1]));
                }
            }
            let ghost before = v@;
            v.set(j - 1, b);
            v.set(j, a);
            proof {
                assert(v@ == before.update(j - 1, b).update(j as int, a));
                lemma_swap_multiset(before, j - 1, b, a);
                assert(spec_le_ef(v@[j - 1], v@[j as int]));
                if j < i {
                    assert(v@[j + 1] == before[j + 1]);
                    assert(spec_le_ef(v@[j as int], v@[j + 1]));
                }
                if j >= 2 {
                    assert(spec_le_ef(before[j - 2], before[j - 1]));
                    assert(v@[j - 2] == before[j - 2]);
                    assert(v@[j as int] == a && a == before[j - 1]);
                }
            }
            j = j - 1;
        }
        i = i + 1;
        proof {
            assert forall|k: int| 0 <= k < i - 1 implies #[trigger] spec_le_ef(v@.subrange(0, i as int)[k], v@.subrange(0, i as int)[k + 1]) by {
                assert(v@.subrange(0, i as int)[k] == v@[k]);
                assert(v@.subrange(0, i as int)[k + 1] == v@[k + 1]);
            }
        }
    }
    proof {
        assert(v@.subrange(0, n as int) =~= v@);
    }
}

/// Swapping two adjacent elements keeps the multiset of a sequence.
proof fn lemma_swap_multiset(s: Seq<ExtendedFloat>, p: int, x: ExtendedFloat, y: ExtendedFloat)
    requires
        0 <= p < s.len() - 1,
        x == s[p + 1],
        y == s[p],
    ensures
        s.update(p, x).update(p + 1, y).to_multiset() == s.to_multiset(),
{
    broadcast use vstd::seq_lib::to_multiset_update;
    broadcast use vstd::seq_lib::group_to_multiset_ensures;
    let s1 = s.update(p, x);
    assert(s[p] == y && s.contains(y));
    assert(s[p + 1] == x && s.contains(x));
    assert(s1[p + 1] == s[p + 1]);
    assert(s1.contains(x)) by {
        assert(s1[p + 1] == x);
    }
    assert(s1.update(p + 1, y).to_multiset() == s1.to_multiset().insert(y).remove(s1[p + 1]));
    assert(s1.to_multiset() == s.to_multiset().insert(x).remove(s[p]));
    assert(s.to_multiset().insert(x).remove(y).insert(y).remove(x) =~= s.to_multiset());
}

} // verus!
