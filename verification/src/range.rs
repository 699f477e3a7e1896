//! Range constraints on field elements: a bit mask together with a (possibly
//! wrapping) inclusive interval.
use vstd::arithmetic::power2::*;
use vstd::bits::*;
use vstd::prelude::*;

use crate::field::{fe_add, fe_neg, modulus, GoldilocksField, P};

verus! {

/// All 64 bits set.
pub const ALL_BITS: u64 = 0xffff_ffff_ffff_ffffu64;

/// The number of bits needed to write `x` in binary.
pub open spec fn bit_len(x: nat) -> nat
    decreases x,
{
    if x == 0 {
        0
    } else {
        1 + bit_len(x / 2)
    }
}

/// The mask with the lowest `bits` bits set.
pub open spec fn mask_of_bits(bits: nat) -> u64 {
    if bits >= 64 {
        ALL_BITS
    } else {
        low_bits_mask(bits) as u64
    }
}

/// Whether `f` is a power of two.
pub open spec fn is_power_of_two(f: nat) -> bool
    decreases f,
{
    if f <= 1 {
        f == 1
    } else {
        f % 2 == 0 && is_power_of_two(f / 2)
    }
}

/// Whether the field element lies in the lower half of the field ("positive").
pub open spec fn in_lower_half(v: int) -> bool {
    v <= (modulus() - 1) / 2
}

/// The number of field elements in the interval `min..=max`, which wraps around the
/// modulus when `min > max`.
pub open spec fn range_width_of(min: int, max: int) -> int {
    if min <= max {
        max - min + 1
    } else {
        modulus() - min + max + 1
    }
}

/// Whether `x` lies in the (possibly wrapping) interval `min..=max`.
pub open spec fn in_range(min: int, max: int, x: int) -> bool {
    if min <= max {
        min <= x <= max
    } else {
        x >= min || x <= max
    }
}

/// A constraint on the values of a field element: it is the conjunction of a bit
/// mask (only the bits of `mask` may be set) and an inclusive interval
/// `min..=max` that wraps around the modulus when `min > max`.
#[derive(Clone, Copy, Debug, PartialEq, Eq, Structural)]
pub struct RangeConstraint {
    pub mask: u64,
    pub min: GoldilocksField,
    pub max: GoldilocksField,
}

/// The constraint with the given fields.
pub open spec fn rc(mask: u64, min: int, max: int) -> RangeConstraint {
    RangeConstraint { mask, min: GoldilocksField(min as u64), max: GoldilocksField(max as u64) }
}

/// The constraint allowing exactly the values `x` with `x & !mask == 0`, bounded by
/// the largest field element.
pub open spec fn spec_from_mask(mask: u64) -> RangeConstraint {
    rc(mask, 0, if mask < P { mask as int } else { modulus() - 1 })
}

/// The constraint allowing the interval `min..=max` (wrapping when `min > max`).
pub open spec fn spec_from_range(min: int, max: int) -> RangeConstraint {
    rc(if min <= max { mask_of_bits(bit_len(max as nat)) } else { ALL_BITS }, min, max)
}

/// The constraint of the sum of two constrained values.
pub open spec fn spec_combine_sum(a: RangeConstraint, b: RangeConstraint) -> RangeConstraint {
    let mask = if a.mask + b.mask >= modulus() {
        ALL_BITS
    } else {
        (((a.mask + b.mask) as u64) | a.mask) | b.mask
    };
    if range_width_of(a.min.val(), a.max.val()) + range_width_of(b.min.val(), b.max.val())
        <= modulus() {
        rc(mask, fe_add(a.min.val(), b.min.val()), fe_add(a.max.val(), b.max.val()))
    } else {
        rc(mask, 0, modulus() - 1)
    }
}

/// The constraint of a constrained value times the constant `factor`.
pub open spec fn spec_multiple(a: RangeConstraint, factor: int) -> RangeConstraint {
    let mask = if is_power_of_two(factor as nat) && a.mask * factor <= ALL_BITS {
        (a.mask * factor) as u64
    } else {
        ALL_BITS
    };
    let min = a.min.val();
    let max = a.max.val();
    if min <= max && in_lower_half(factor) && max * factor < modulus() {
        rc(mask, min * factor, max * factor)
    } else if min <= max && !in_lower_half(factor) && max * (modulus() - factor) < modulus() {
        rc(mask, fe_neg(max * (modulus() - factor)), fe_neg(min * (modulus() - factor)))
    } else {
        rc(mask, 0, modulus() - 1)
    }
}

/// The interval part of the conjunction of two constraints.
pub open spec fn spec_intersection(a: RangeConstraint, b: RangeConstraint) -> (int, int) {
    let (amin, amax, bmin, bmax) = (a.min.val(), a.max.val(), b.min.val(), b.max.val());
    if range_width_of(bmin, bmax) == modulus() {
        (amin, amax)
    } else if range_width_of(amin, amax) == modulus() {
        (bmin, bmax)
    } else if amin <= amax && bmin <= bmax && (if amin < bmin { bmin } else { amin }) <= (
    if amax < bmax {
        amax
    } else {
        bmax
    }) {
        (if amin < bmin { bmin } else { amin }, if amax < bmax { amax } else { bmax })
    } else {
        (amin, amax)
    }
}

/// The conjunction of two constraints.
pub open spec fn spec_conjunction(a: RangeConstraint, b: RangeConstraint) -> RangeConstraint {
    let (min, max) = spec_intersection(a, b);
    let mask = if min <= max {
        (a.mask & b.mask) & mask_of_bits(bit_len(max as nat))
    } else {
        a.mask & b.mask
    };
    rc(mask, min, max)
}

fn bits_of(x: u64) -> (r: u64)
    ensures
        r == bit_len(x as nat),
        r <= 64,
{
    proof {
        lemma_bit_len_u64(x as nat);
    }
    let mut n: u64 = x;
    let mut count: u64 = 0;
    while n > 0
        invariant
            count + bit_len(n as nat) == bit_len(x as nat),
            count + bit_len(n as nat) <= 64,
        decreases n,
    {
        n = n / 2;
        count = count + 1;
    }
    count
}

proof fn lemma_bit_len_u64(x: nat)
    requires
        x <= ALL_BITS,
    ensures
        bit_len(x) <= 64,
{
    lemma_bit_len_bound(x, 64);
    lemma2_to64_rest();
}

/// `x < 2^n` implies `bit_len(x) <= n`.
proof fn lemma_bit_len_bound(x: nat, n: nat)
    requires
        x < pow2(n) || (n == 64 && x <= ALL_BITS),
    ensures
        bit_len(x) <= n,
    decreases n,
{
    lemma2_to64_rest();
    if x > 0 {
        if n == 0 {
            lemma2_to64();
        } else {
            lemma_pow2_unfold(n);
            lemma_bit_len_bound(x / 2, (n - 1) as nat);
        }
    }
}

fn low_mask(bits: u64) -> (r: u64)
    ensures
        r == mask_of_bits(bits as nat),
{
    if bits >= 64 {
        ALL_BITS
    } else {
        proof {
            lemma_u64_pow2_no_overflow(bits as nat);
            lemma_u64_shl_is_mul(1, bits);
        }
        let r = (1u64 << bits) - 1;
        r
    }
}

/// The full product of two 64-bit numbers.
pub(crate) fn wide_mul(a: u64, b: u64) -> (r: u128)
    ensures
        r == a * b,
        r <= 0xffff_ffff_ffff_fffe_0000_0000_0000_0001u128,
{
    assert(a * b <= 0xffff_ffff_ffff_ffffu128 * 0xffff_ffff_ffff_ffffu128) by (nonlinear_arith)
        requires
            a <= 0xffff_ffff_ffff_ffffu64,
            b <= 0xffff_ffff_ffff_ffffu64,
    ;
    (a as u128) * (b as u128)
}

fn is_pow2(f: u64) -> (r: bool)
    ensures
        r == is_power_of_two(f as nat),
{
    if f == 0 {
        return false;
    }
    let mut n: u64 = f;
    while n > 1 && n % 2 == 0
        invariant
            n > 0,
            is_power_of_two(n as nat) == is_power_of_two(f as nat),
        decreases n,
    {
        n = n / 2;
    }
    n == 1
}

impl RangeConstraint {
    /// Both interval ends are canonical field elements.
    pub open spec fn wf(self) -> bool {
        self.min.wf() && self.max.wf()
    }

    /// Whether the constraint allows the field element `x`.
    pub open spec fn allows(self, x: int) -> bool {
        &&& 0 <= x < modulus()
        &&& (x as u64) & !self.mask == 0
        &&& in_range(self.min.val(), self.max.val(), x)
    }

    /// Constraint that allows no higher bits set than the one given (counting from zero).
    pub fn from_max_bit(max_bit: u64) -> (r: Self)
        ensures
            r.wf(),
            r == spec_from_mask(mask_of_bits(max_bit as nat + 1)),
    {
        let bits = if max_bit >= 64 {
            64
        } else {
            max_bit + 1
        };
        Self::from_mask(low_mask(bits))
    }

    /// Constraint that forces all bits outside of `mask` to be zero.
    pub fn from_mask(mask: u64) -> (r: Self)
        ensures
            r.wf(),
            r == spec_from_mask(mask),
    {
        let max = if mask < P {
            mask
        } else {
            P - 1
        };
        RangeConstraint { mask, min: GoldilocksField(0), max: GoldilocksField(max) }
    }

    /// Constraint that only allows this exact value.
    pub fn from_value(value: GoldilocksField) -> (r: Self)
        requires
            value.wf(),
        ensures
            r.wf(),
            r == rc(value.0, value.val(), value.val()),
    {
        RangeConstraint { mask: value.0, min: value, max: value }
    }

    /// Constraint that allows the values `min..=max`; if `min > max`, the interval
    /// wraps around the modulus, i.e. allows `min..P` and `0..=max`.
    pub fn from_range(min: GoldilocksField, max: GoldilocksField) -> (r: Self)
        requires
            min.wf(),
            max.wf(),
        ensures
            r.wf(),
            r == spec_from_range(min.val(), max.val()),
    {
        let mask = if min.0 <= max.0 {
            low_mask(bits_of(max.0))
        } else {
            ALL_BITS
        };
        RangeConstraint { mask, min, max }
    }

    /// The constraint that allows every field element.
    pub fn unconstrained() -> (r: Self)
        ensures
            r.wf(),
            r == rc(ALL_BITS, 0, modulus() - 1),
    {
        RangeConstraint { mask: ALL_BITS, min: GoldilocksField(0), max: GoldilocksField(P - 1) }
    }

    /// The bit mask.
    pub fn mask(&self) -> (r: u64)
        ensures
            r == self.mask,
    {
        self.mask
    }

    /// The interval ends.
    pub fn range(&self) -> (r: (GoldilocksField, GoldilocksField))
        ensures
            r == (self.min, self.max),
    {
        (self.min, self.max)
    }

    /// The number of values in the interval.
    pub fn range_width(&self) -> (r: u64)
        requires
            self.wf(),
        ensures
            r == range_width_of(self.min.val(), self.max.val()),
    {
        if self.min.0 <= self.max.0 {
            self.max.0 - self.min.0 + 1
        } else {
            P - self.min.0 + self.max.0 + 1
        }
    }

    /// The constraint of the sum of two constrained values.
    pub fn combine_sum(&self, other: &Self) -> (r: Self)
        requires
            self.wf(),
            other.wf(),
        ensures
            r.wf(),
            r == spec_combine_sum(*self, *other),
    {
        let total: u128 = self.mask as u128 + other.mask as u128;
        let mask = if total >= P as u128 {
            ALL_BITS
        } else {
            ((self.mask + other.mask) | self.mask) | other.mask
        };
        let widths: u128 = self.range_width() as u128 + other.range_width() as u128;
        if widths <= P as u128 {
            RangeConstraint {
                mask,
                min: self.min.add(other.min),
                max: self.max.add(other.max),
            }
        } else {
            RangeConstraint { mask, min: GoldilocksField(0), max: GoldilocksField(P - 1) }
        }
    }

    /// The constraint of this value multiplied by the constant `factor`.
    pub fn multiple(&self, factor: GoldilocksField) -> (r: Self)
        requires
            self.wf(),
            factor.wf(),
        ensures
            r.wf(),
            r == spec_multiple(*self, factor.val()),
    {
        let f = factor.0;
        let mask = if is_pow2(f) && wide_mul(self.mask, f) <= ALL_BITS as u128 {
            self.mask * f
        } else {
            ALL_BITS
        };
        let min = self.min.0;
        let max = self.max.0;
        let half = (P - 1) / 2;
        if min <= max && f <= half && wide_mul(max, f) < P as u128 {
            assert(min * f <= max * f) by (nonlinear_arith)
                requires
                    min <= max,
            ;
            RangeConstraint {
                mask,
                min: GoldilocksField(min * f),
                max: GoldilocksField(max * f),
            }
        } else if min <= max && f > half && wide_mul(max, P - f) < P as u128 {
            let g = P - f;
            assert(min * g <= max * g) by (nonlinear_arith)
                requires
                    min <= max,
            ;
            let lo = GoldilocksField(max * g).neg();
            let hi = GoldilocksField(min * g).neg();
            RangeConstraint { mask, min: lo, max: hi }
        } else {
            RangeConstraint { mask, min: GoldilocksField(0), max: GoldilocksField(P - 1) }
        }
    }

    /// The conjunction of the two constraints. The interval part is the intersection
    /// where it is again an interval; otherwise this constraint's interval is kept.
    pub fn conjunction(&self, other: &Self) -> (r: Self)
        requires
            self.wf(),
            other.wf(),
        ensures
            r.wf(),
            r == spec_conjunction(*self, *other),
    {
        let (amin, amax, bmin, bmax) = (self.min.0, self.max.0, other.min.0, other.max.0);
        let (min, max) = if other.range_width() == P {
            (amin, amax)
        } else if self.range_width() == P {
            (bmin, bmax)
        } else {
            let lo = if amin < bmin {
                bmin
            } else {
                amin
            };
            let hi = if amax < bmax {
                amax
            } else {
                bmax
            };
            if amin <= amax && bmin <= bmax && lo <= hi {
                (lo, hi)
            } else {
                (amin, amax)
            }
        };
        let mask = if min <= max {
            (self.mask & other.mask) & low_mask(bits_of(max))
        } else {
            self.mask & other.mask
        };
        RangeConstraint { mask, min: GoldilocksField(min), max: GoldilocksField(max) }
    }

    /// The constraint of the negated value.
    pub fn neg(&self) -> (r: Self)
        requires
            self.wf(),
        ensures
            r.wf(),
            r == spec_from_range(fe_neg(self.max.val()), fe_neg(self.min.val())),
    {
        Self::from_range(self.max.neg(), self.min.neg())
    }
}


/// A source of known range constraints on variables.
pub trait RangeConstraintSet {
    /// The known constraint of variable `id`, if any.
    spec fn constraint_of(&self, id: u64) -> Option<RangeConstraint>;

    /// Looks up the constraint of variable `id`.
    fn range_constraint(&self, id: u64) -> (r: Option<RangeConstraint>)
        ensures
            r == self.constraint_of(id),
            r matches Some(c) ==> c.wf(),
    ;
}

/// Range constraints of variables, each variable at most once.
pub struct RangeConstraintMap {
    entries: Vec<(u64, RangeConstraint)>,
}

/// The constraint stored for `k`, if any.
pub open spec fn lookup_constraint(s: Seq<(u64, RangeConstraint)>, k: u64) -> Option<RangeConstraint>
    decreases s.len(),
{
    if s.len() == 0 {
        None
    } else if s.last().0 == k {
        Some(s.last().1)
    } else {
        lookup_constraint(s.drop_last(), k)
    }
}

impl RangeConstraintMap {
    /// All stored constraints are well formed.
    #[verifier::type_invariant]
    closed spec fn wf(self) -> bool {
        forall|i: int| 0 <= i < self.entries@.len() ==> (#[trigger] self.entries@[i]).1.wf()
    }

    /// The constraint stored for `k`, if any.
    pub closed spec fn get_spec(self, k: u64) -> Option<RangeConstraint> {
        lookup_constraint(self.entries@, k)
    }

    /// The empty map.
    pub fn new() -> (r: Self)
        ensures
            forall|k: u64| r.get_spec(k) is None,
    {
        RangeConstraintMap { entries: Vec::new() }
    }

    /// Sets the constraint of variable `k`.
    pub fn insert(&mut self, k: u64, c: RangeConstraint)
        requires
            c.wf(),
        ensures
            final(self).get_spec(k) == Some(c),
            forall|j: u64| j != k ==> final(self).get_spec(j) == old(self).get_spec(j),
    {
        proof {
            use_type_invariant(&*self);
        }
        let ghost prev = self.entries@;
        let mut entries = Vec::new();
        std::mem::swap(&mut entries, &mut self.entries);
        entries.push((k, c));
        proof {
            assert(entries@.drop_last() == prev);
        }
        self.entries = entries;
    }
}

impl RangeConstraintSet for RangeConstraintMap {
    closed spec fn constraint_of(&self, id: u64) -> Option<RangeConstraint> {
        self.get_spec(id)
    }

    fn range_constraint(&self, id: u64) -> (r: Option<RangeConstraint>) {
        proof {
            use_type_invariant(self);
        }
        let n = self.entries.len();
        let mut i = n;
        proof {
            assert(self.entries@.subrange(0, n as int) =~= self.entries@);
        }
        while i > 0
            invariant
                i <= n,
                n == self.entries@.len(),
                forall|j: int| 0 <= j < n ==> (#[trigger] self.entries@[j]).1.wf(),
                lookup_constraint(self.entries@, id) == lookup_constraint(
                    self.entries@.subrange(0, i as int),
                    id,
                ),
            decreases i,
        {
            let e = self.entries[i - 1];
            proof {
                assert(self.entries@.subrange(0, i - 1) =~= self.entries@.subrange(
                    0,
                    i as int,
                ).drop_last());
            }
            if e.0 == id {
                proof {
                    assert(self.entries@[i - 1].1.wf());
                }
                return Some(e.1);
            }
            i = i - 1;
        }
        proof {
            assert(self.entries@.subrange(0, 0) =~= Seq::<(u64, RangeConstraint)>::empty());
        }
        None
    }
}

} // verus!
