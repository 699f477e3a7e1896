//! The Goldilocks prime field, `p = 2^64 - 2^32 + 1`.
use p3_field::{Field, PrimeField64};
use vstd::arithmetic::div_mod::*;
use vstd::arithmetic::mul::*;
use vstd::prelude::*;

use crate::text::{decimal, push_decimal, string_push};

verus! {

/// The modulus of the Goldilocks field.
pub const P: u64 = 0xffff_ffff_0000_0001u64;

/// The modulus as a mathematical integer.
pub open spec fn modulus() -> int {
    P as int
}

/// Field addition on canonical representatives.
pub open spec fn fe_add(a: int, b: int) -> int {
    (a + b) % modulus()
}

/// Field negation on canonical representatives.
pub open spec fn fe_neg(a: int) -> int {
    (modulus() - a) % modulus()
}

/// Field multiplication on canonical representatives.
pub open spec fn fe_mul(a: int, b: int) -> int {
    (a * b) % modulus()
}

/// Field division by a nonzero canonical `b`: multiplication by its inverse.
pub open spec fn fe_div(a: int, b: u64) -> int {
    fe_mul(a, fe_inv(b))
}

/// The multiplicative inverse of a nonzero canonical `b`: the canonical `r` with
/// `b * r = 1`.
pub open spec fn fe_inv(b: u64) -> int {
    choose|r: int| #[trigger] inverts(b as int, r)
}

/// Whether the canonical `r` is an inverse of `b`.
pub open spec fn inverts(b: int, r: int) -> bool {
    0 <= r < modulus() && (b * r) % modulus() == 1
}

/// The inverse is unique among canonical representatives.
pub proof fn lemma_inverse_unique(b: int, r1: int, r2: int)
    requires
        0 <= r1 < modulus(),
        0 <= r2 < modulus(),
        (b * r1) % modulus() == 1,
        (b * r2) % modulus() == 1,
    ensures
        r1 == r2,
{
    let p = modulus();
    lemma_mul_mod_noop_right(r1, b * r2, p);
    lemma_mul_is_associative(r1, b, r2);
    lemma_mul_is_commutative(r1, b);
    lemma_mul_mod_noop_left(r1 * b, r2, p);
    lemma_small_mod(r1 as nat, p as nat);
    lemma_small_mod(r2 as nat, p as nat);
}

/// An element of the Goldilocks field, stored as its canonical representative.
#[derive(Clone, Copy, Debug, PartialEq, Eq, Structural)]
pub struct GoldilocksField(pub u64);

impl GoldilocksField {
    /// The representative is canonical, i.e. below the modulus.
    pub open spec fn wf(self) -> bool {
        self.0 < P
    }

    /// The canonical representative as a mathematical integer.
    pub open spec fn val(self) -> int {
        self.0 as int
    }

    /// The element `0`.
    pub fn zero() -> (r: Self)
        ensures
            r.wf(),
            r.0 == 0,
    {
        GoldilocksField(0)
    }

    /// The element `1`.
    pub fn one() -> (r: Self)
        ensures
            r.wf(),
            r.0 == 1,
    {
        GoldilocksField(1)
    }

    /// The element `-1`.
    pub fn minus_one() -> (r: Self)
        ensures
            r.wf(),
            r.0 == P - 1,
    {
        GoldilocksField(P - 1)
    }

    /// Reduces an arbitrary `u64` into the field.
    pub fn from_u64(x: u64) -> (r: Self)
        ensures
            r.wf(),
            r.0 == x % P,
    {
        GoldilocksField(x % P)
    }

    /// Maps a signed integer into the field (negative values wrap around the modulus).
    pub fn from_i64(x: i64) -> (r: Self)
        ensures
            r.wf(),
            r.0 == (x as int) % modulus(),
    {
        if x >= 0 {
            let u: u64 = x as u64;
            GoldilocksField(u % P)
        } else {
            // |x| <= 2^63 < P
            let m: u64 = if x == i64::MIN {
                0x8000_0000_0000_0000u64
            } else {
                (-x) as u64
            };
            proof {
                assert(m == -x);
                assert(0 < m < P);
                lemma_fundamental_div_mod_converse(x as int, modulus(), -1, modulus() - m);
            }
            GoldilocksField(P - m)
        }
    }

    /// The canonical representative as an integer.
    pub fn to_integer(self) -> (r: u64)
        ensures
            r == self.0,
    {
        self.0
    }

    pub fn is_zero(self) -> (r: bool)
        ensures
            r == (self.0 == 0),
    {
        self.0 == 0
    }

    pub fn is_one(self) -> (r: bool)
        ensures
            r == (self.0 == 1),
    {
        self.0 == 1
    }

    /// Whether the element is `-1`.
    pub fn is_minus_one(self) -> (r: bool)
        ensures
            r == (self.0 == P - 1),
    {
        self.0 == P - 1
    }

    pub fn add(self, other: Self) -> (r: Self)
        requires
            self.wf(),
            other.wf(),
        ensures
            r.wf(),
            r.val() == fe_add(self.val(), other.val()),
    {
        let s: u128 = self.0 as u128 + other.0 as u128;
        let p: u128 = P as u128;
        if s >= p {
            proof {
                lemma_fundamental_div_mod_converse(s as int, modulus(), 1, s - modulus());
            }
            GoldilocksField((s - p) as u64)
        } else {
            proof {
                lemma_small_mod(s as nat, modulus() as nat);
            }
            GoldilocksField(s as u64)
        }
    }

    pub fn neg(self) -> (r: Self)
        requires
            self.wf(),
        ensures
            r.wf(),
            r.val() == fe_neg(self.val()),
    {
        if self.0 == 0 {
            proof {
                lemma_mod_self_0(modulus());
            }
            self
        } else {
            proof {
                lemma_small_mod((modulus() - self.val()) as nat, modulus() as nat);
            }
            GoldilocksField(P - self.0)
        }
    }

    pub fn sub(self, other: Self) -> (r: Self)
        requires
            self.wf(),
            other.wf(),
        ensures
            r.wf(),
            r.val() == fe_add(self.val(), fe_neg(other.val())),
    {
        self.add(other.neg())
    }

    pub fn mul(self, other: Self) -> (r: Self)
        requires
            self.wf(),
            other.wf(),
        ensures
            r.wf(),
            r.val() == fe_mul(self.val(), other.val()),
    {
        let a: u128 = self.0 as u128;
        let b: u128 = other.0 as u128;
        assert(a * b <= 0xffff_ffff_ffff_ffffu128 * 0xffff_ffff_ffff_ffffu128) by (nonlinear_arith)
            requires
                a <= 0xffff_ffff_ffff_ffffu128,
                b <= 0xffff_ffff_ffff_ffffu128,
        ;
        let prod: u128 = a * b;
        let m: u128 = prod % (P as u128);
        proof {
            lemma_mod_bound(prod as int, modulus());
        }
        GoldilocksField(m as u64)
    }

    /// Division by a nonzero element: the unique `r` with `r * other == self`,
    /// computed as `self` times the inverse of `other`.
    pub fn div(self, other: Self) -> (r: Self)
        requires
            self.wf(),
            other.wf(),
            other.0 != 0,
        ensures
            r.wf(),
            fe_mul(r.val(), other.val()) == self.val(),
            r.val() == fe_div(self.val(), other.0),
    {
        let inv = goldilocks_inverse(other.0);
        let r = self.mul(GoldilocksField(inv));
        proof {
            let w = fe_inv(other.0);
            assert(inverts(other.0 as int, inv as int));
            lemma_inverse_unique(other.0 as int, w, inv as int);
            let a = self.val();
            let b = other.val();
            let i = inv as int;
            let p = modulus();
            // r * b = (a * i % p) * b = a * (i * b) = a * 1 = a (mod p)
            lemma_mul_mod_noop_left(a * i, b, p);
            lemma_mul_is_associative(a, i, b);
            lemma_mul_is_commutative(i, b);
            lemma_mul_mod_noop_right(a, i * b, p);
            lemma_small_mod(a as nat, p as nat);
        }
        r
    }

    /// Ordering of canonical representatives, as on integers.
    pub fn lt(self, other: Self) -> (r: bool)
        ensures
            r == (self.0 < other.0),
    {
        self.0 < other.0
    }

    /// Appends the decimal text of the element, using a minus sign for the upper half
    /// of the field.
    pub fn write_to(self, out: &mut String)
        requires
            self.wf(),
        ensures
            final(out)@ == old(out)@ + fe_text(self.val()),
    {
        if self.0 > (P - 1) / 2 {
            string_push(out, '-');
            push_decimal(out, P - self.0);
            proof {
                assert(final(out)@ =~= old(out)@ + seq!['-'] + decimal((P - self.0) as nat));
            }
        } else {
            push_decimal(out, self.0);
        }
    }

    /// The decimal text of the element.
    pub fn to_string(self) -> (r: String)
        requires
            self.wf(),
        ensures
            r@ == fe_text(self.val()),
    {
        let mut s = String::new();
        self.write_to(&mut s);
        proof {
            assert(s@ =~= fe_text(self.val()));
        }
        s
    }
}

/// The text of a field element: elements in the upper half of the field are written
/// as the negation of their additive inverse.
pub open spec fn fe_text(v: int) -> Seq<char> {
    if v > (modulus() - 1) / 2 {
        seq!['-'] + decimal((modulus() - v) as nat)
    } else {
        decimal(v as nat)
    }
}

/// Calls `p3_field::Field::inverse` on a `p3_goldilocks::Goldilocks` element, then
/// `PrimeField64::as_canonical_u64`: the multiplicative inverse of a nonzero element
/// of the same prime field, as its canonical representative.
#[verifier::external_body]
fn goldilocks_inverse(a: u64) -> (r: u64)
    requires
        0 < a < P,
    ensures
        r < P,
        (a as int * r as int) % modulus() == 1,
{
    p3_goldilocks::Goldilocks::new(a).inverse().as_canonical_u64()
}

/// `x + 0 == x` and the neutral elements behave as expected on canonical values.
pub proof fn lemma_fe_basics(a: int)
    requires
        0 <= a < modulus(),
    ensures
        fe_add(a, 0) == a,
        fe_mul(a, 1) == a,
        fe_mul(a, 0) == 0,
        fe_add(a, fe_neg(a)) == 0,
        fe_neg(fe_neg(a)) == a,
        0 <= fe_neg(a) < modulus(),
{
    let p = modulus();
    lemma_small_mod(a as nat, p as nat);
    if a == 0 {
        lemma_mod_self_0(p);
        lemma_small_mod(0, p as nat);
    } else {
        lemma_small_mod((p - a) as nat, p as nat);
        lemma_mod_self_0(p);
    }
}


/// Subtracting what was added gives back the start: `(a + b) - b == a`.
pub proof fn law_sub_undoes_add(a: GoldilocksField, b: GoldilocksField)
    requires
        a.wf(),
        b.wf(),
    ensures
        fe_add(fe_add(a.val(), b.val()), fe_neg(b.val())) == a.val(),
{
    let p = modulus();
    let x = a.val();
    let y = b.val();
    lemma_add_mod_noop(x + y, p - y, p);
    lemma_mod_twice(x + y, p);
    lemma_add_mod_noop(x + y, fe_neg(y), p);
    lemma_mod_twice(p - y, p);
    assert((x + y) + (p - y) == x + p);
    lemma_mod_add_multiples_vanish(x, p);
    lemma_small_mod(x as nat, p as nat);
}

} // verus!
