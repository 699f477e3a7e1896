//! Arbitrary precision unsigned numbers, given by their little-endian bytes, and the
//! exact base-2 logarithm.
use vstd::arithmetic::power2::{lemma2_to64, lemma_pow2_adds, lemma_pow2_pos, lemma_pow2_strictly_increases, pow2};
use vstd::prelude::*;

verus! {

/// The number whose little-endian bytes are `b`.
pub open spec fn le_value(b: Seq<u8>) -> nat
    decreases b.len(),
{
    if b.len() == 0 {
        0
    } else {
        (b[0] as nat) + 256 * le_value(b.drop_first())
    }
}

/// An unsigned number of any size, as its little-endian bytes (trailing zero bytes
/// are allowed).
pub struct BigUint {
    pub bytes: Vec<u8>,
}

/// The largest number of bytes that the number library takes on every platform.
pub open spec fn max_bytes() -> nat {
    0x1000_0000
}

proof fn lemma_le_value_bound(b: Seq<u8>)
    ensures
        le_value(b) < pow2(8 * b.len()),
    decreases b.len(),
{
    lemma_pow2_pos(8 * b.len());
    if b.len() > 0 {
        let r = b.drop_first();
        lemma_le_value_bound(r);
        lemma2_to64();
        lemma_pow2_adds(8, 8 * r.len());
        assert(8 * b.len() == 8 + 8 * r.len());
        assert(le_value(b) <= 255 + 256 * (pow2(8 * r.len()) - 1));
    }
}

proof fn lemma_le_value_push(b: Seq<u8>, d: u8)
    ensures
        le_value(b.push(d)) == le_value(b) + d * pow2(8 * b.len()),
    decreases b.len(),
{
    lemma2_to64();
    if b.len() == 0 {
        assert(b.push(d).drop_first() =~= Seq::<u8>::empty());
        assert(le_value(b.push(d).drop_first()) == 0);
        assert(pow2(0) == 1);
        assert(le_value(b.push(d)) == d);
        assert(d * pow2(0) == d) by (nonlinear_arith)
            requires
                pow2(0) == 1,
        ;
    } else {
        let r = b.drop_first();
        assert(b.push(d).drop_first() =~= r.push(d));
        assert(b.push(d)[0] == b[0]);
        lemma_le_value_push(r, d);
        lemma_pow2_adds(8, 8 * r.len());
        assert(8 * b.len() == 8 + 8 * r.len());
        let p = pow2(8 * r.len());
        assert(pow2(8 * b.len()) == 256 * p);
        assert(256 * (le_value(r) + d * p) == 256 * le_value(r) + d * (256 * p)) by (nonlinear_arith);
        assert(le_value(b.push(d)) == b[0] + 256 * le_value(r.push(d)));
    }
}

/// `UBig::trailing_zeros` of ibig on the number with the little-endian bytes
/// `bytes`: the exponent of the largest power of two that divides it, and `None`
/// for zero.
#[verifier::external_body]
fn ubig_trailing_zeros(bytes: &Vec<u8>) -> (r: Option<usize>)
    requires
        bytes@.len() < max_bytes(),
    ensures
        match r {
            None => le_value(bytes@) == 0,
            Some(k) => le_value(bytes@) > 0 && le_value(bytes@) % pow2(k as nat) == 0 && (le_value(bytes@)
                / pow2(k as nat)) % 2 == 1,
        },
{
    ibig::UBig::from_le_bytes(bytes.as_slice()).trailing_zeros()
}

/// Whether the number with the little-endian bytes `bytes` equals
/// `UBig::from(1u32) << k` in ibig, that is two to the power `k`.
#[verifier::external_body]
fn ubig_equals_shifted_one(bytes: &Vec<u8>, k: usize) -> (r: bool)
    requires
        bytes@.len() < max_bytes(),
        k < 8 * bytes@.len(),
    ensures
        r == (le_value(bytes@) == pow2(k as nat)),
{
    ibig::UBig::from_le_bytes(bytes.as_slice()) == (ibig::UBig::from(1u32) << k)
}

impl BigUint {
    /// The number.
    pub open spec fn value(&self) -> nat {
        le_value(self.bytes@)
    }

    /// The number `v`.
    pub fn from_u64(v: u64) -> (r: BigUint)
        ensures
            r.value() == v,
            r.bytes@.len() <= 8,
    {
        let mut bytes: Vec<u8> = Vec::new();
        let mut x = v;
        proof {
            lemma2_to64();
            assert(le_value(bytes@) == 0);
            assert(v * pow2(0) == v) by (nonlinear_arith)
                requires
                    pow2(0) == 1,
            ;
        }
        while x > 0
            invariant
                v == le_value(bytes@) + x * pow2(8 * bytes@.len()),
                bytes@.len() <= 8,
                x < pow2((64 - 8 * bytes@.len()) as nat),
            decreases x,
        {
            let d = (x % 256) as u8;
            proof {
                lemma_le_value_push(bytes@, d);
                lemma2_to64();
                let n = bytes@.len();
                lemma_pow2_adds(8, 8 * n);
                assert(8 * (n + 1) == 8 + 8 * n);
                let p = pow2(8 * n);
                assert(x * p == (x % 256) * p + (x / 256) * (256 * p)) by (nonlinear_arith);
                if n == 8 {
                    assert(x < 1);
                }
                if n < 8 {
                    lemma_pow2_adds(8, (64 - 8 * (n + 1)) as nat);
                    assert(64 - 8 * n == 8 + (64 - 8 * (n + 1)));
                    assert(x / 256 < pow2((64 - 8 * (n + 1)) as nat)) by (nonlinear_arith)
                        requires
                            x < 256 * pow2((64 - 8 * (n + 1)) as nat),
                    ;
                }
            }
            bytes.push(d);
            x = x / 256;
        }
        proof {
            lemma2_to64();
        }
        BigUint { bytes }
    }
}

/// Returns `Some(i)` if `n == 2**i` and `None` otherwise.
pub fn log2_exact(n: &BigUint) -> (r: Option<usize>)
    requires
        n.bytes@.len() < max_bytes(),
    ensures
        match r {
            Some(i) => n.value() == pow2(i as nat),
            None => forall|i: nat| n.value() != #[trigger] pow2(i),
        },
{
    match ubig_trailing_zeros(&n.bytes) {
        None => {
            proof {
                assert forall|i: nat| n.value() != #[trigger] pow2(i) by {
                    lemma_pow2_pos(i);
                }
            }
            None
        },
        Some(zeros) => {
            let ghost v = n.value();
            proof {
                lemma_pow2_pos(zeros as nat);
                lemma_le_value_bound(n.bytes@);
                assert(pow2(zeros as nat) <= v) by {
                    let p = pow2(zeros as nat);
                    assert(v == p * (v / p)) by {
                        vstd::arithmetic::div_mod::lemma_fundamental_div_mod(v as int, p as int);
                    }
                    assert(v / p >= 1) by {
                        assert((v / p) % 2 == 1);
                    }
                    assert(p * (v / p) >= p) by (nonlinear_arith)
                        requires
                            v / p >= 1,
                            p > 0,
                    ;
                }
                if zeros >= 8 * n.bytes@.len() {
                    if zeros > 8 * n.bytes@.len() {
                        lemma_pow2_strictly_increases(8 * n.bytes@.len(), zeros as nat);
                    }
                }
            }
            if ubig_equals_shifted_one(&n.bytes, zeros) {
                Some(zeros)
            } else {
                proof {
                    assert forall|i: nat| v != #[trigger] pow2(i) by {
                        if v == pow2(i) {
                            let z = zeros as nat;
                            if i > z {
                                lemma_pow2_adds(z, (i - z) as nat);
                                lemma_pow2_pos((i - z) as nat);
                                let q = pow2((i - z) as nat);
                                assert(q >= 2) by {
                                    vstd::arithmetic::power2::lemma_pow2_unfold((i - z) as nat);
                                    lemma_pow2_pos((i - z - 1) as nat);
                                }
                                assert(v / pow2(z) == q) by {
                                    vstd::arithmetic::div_mod::lemma_div_by_multiple(q as int, pow2(z) as int);
                                    assert(v == q * pow2(z)) by (nonlinear_arith)
                                        requires
                                            v == pow2(z) * q,
                                    ;
                                }
                                assert(q % 2 == 0) by {
                                    vstd::arithmetic::power2::lemma_pow2_unfold((i - z) as nat);
                                }
                            } else if i < z {
                                lemma_pow2_strictly_increases(i, z);
                                lemma_pow2_pos(i);
                                vstd::arithmetic::div_mod::lemma_small_mod(v, pow2(z));
                            }
                        }
                    }
                }
                None
            }
        },
    }
}

} // verus!
