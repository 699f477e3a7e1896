//! Expressions affine in symbolic variables over the Goldilocks field, and how to
//! solve them.
use vstd::arithmetic::div_mod::*;
use vstd::arithmetic::power2::{lemma2_to64, lemma_pow2_strictly_increases, lemma_pow2_unfold, pow2};
use vstd::bits::{lemma_u64_low_bits_mask_is_mod, low_bits_mask};
use vstd::prelude::*;

use crate::eval::{Constraint, EvalError, EvalStatus, EvalValue, IncompleteCause};
use crate::field::{
    fe_add, fe_mul, fe_neg, fe_text, lemma_fe_basics, modulus, GoldilocksField, P,
};
use crate::range::{
    is_power_of_two, range_width_of, rc, spec_combine_sum, spec_conjunction, spec_from_range, spec_multiple,
    wide_mul, RangeConstraint, RangeConstraintSet,
};
use crate::text::{decimal, join_with, lemma_join_push, push_decimal, string_push};

verus! {

/// A coefficient list entry: variable and coefficient.
pub type Term = (u64, GoldilocksField);

/// The sum (over the integers) of all coefficients of `k` in the list.
pub open spec fn coeff_sum(s: Seq<Term>, k: u64) -> int
    decreases s.len(),
{
    if s.len() == 0 {
        0
    } else {
        coeff_sum(s.drop_last(), k) + if s.last().0 == k {
            s.last().1.val()
        } else {
            0
        }
    }
}

/// The coefficient of `k` in the field: the sum of all its coefficients.
pub open spec fn coeff_of(s: Seq<Term>, k: u64) -> int {
    coeff_sum(s, k) % modulus()
}

/// All coefficients are canonical field elements.
pub open spec fn all_wf(s: Seq<Term>) -> bool {
    forall|i: int| 0 <= i < s.len() ==> (#[trigger] s[i]).1.wf()
}

/// No coefficient is zero and no variable occurs twice.
pub open spec fn is_clean(s: Seq<Term>) -> bool {
    &&& forall|i: int| 0 <= i < s.len() ==> (#[trigger] s[i]).1.0 != 0
    &&& forall|i: int, j: int| 0 <= i < s.len() && 0 <= j < s.len() && i != j ==> s[i].0 != s[j].0
}

/// The variables occur in strictly increasing order.
pub open spec fn is_sorted(s: Seq<Term>) -> bool {
    forall|i: int, j: int| 0 <= i < j < s.len() ==> s[i].0 < s[j].0
}

/// Two coefficient lists denote the same linear form.
pub open spec fn same_coeffs(s: Seq<Term>, t: Seq<Term>) -> bool {
    forall|k: u64| coeff_of(s, k) == coeff_of(t, k)
}

/// The cleaned form of a single term.
pub open spec fn spec_clean_one(k: u64, v: GoldilocksField) -> Seq<Term> {
    if v.0 == 0 {
        seq![]
    } else {
        seq![(k, v)]
    }
}

/// The cleaned form of two terms.
pub open spec fn spec_clean_two(a: Term, b: Term) -> Seq<Term> {
    if a.1.0 == 0 {
        spec_clean_one(b.0, b.1)
    } else if b.1.0 == 0 {
        spec_clean_one(a.0, a.1)
    } else if a.0 == b.0 {
        spec_clean_one(a.0, GoldilocksField(fe_add(a.1.val(), b.1.val()) as u64))
    } else {
        seq![a, b]
    }
}

/// The canonical form of a linear form: sorted by variable, without zero coefficients.
pub open spec fn canonical(s: Seq<Term>) -> Seq<Term> {
    choose|t: Seq<Term>| is_clean(t) && is_sorted(t) && all_wf(t) && same_coeffs(t, s)
}

// ---------------------------------------------------------------------------
// Lemmas on coefficient lists
// ---------------------------------------------------------------------------
pub proof fn lemma_coeff_sum_append(s: Seq<Term>, t: Seq<Term>, k: u64)
    ensures
        coeff_sum(s + t, k) == coeff_sum(s, k) + coeff_sum(t, k),
    decreases t.len(),
{
    if t.len() == 0 {
        assert(s + t =~= s);
    } else {
        lemma_coeff_sum_append(s, t.drop_last(), k);
        assert((s + t).drop_last() =~= s + t.drop_last());
    }
}

pub proof fn lemma_coeff_sum_single(e: Term, k: u64)
    ensures
        coeff_sum(seq![e], k) == if e.0 == k {
            e.1.val()
        } else {
            0
        },
{
    assert(coeff_sum(Seq::<Term>::empty(), k) == 0);
    assert(seq![e].drop_last() =~= Seq::<Term>::empty());
}

/// A list that does not mention `k` contributes nothing to it.
pub proof fn lemma_coeff_sum_absent(s: Seq<Term>, k: u64)
    requires
        forall|i: int| 0 <= i < s.len() ==> (#[trigger] s[i]).0 != k,
    ensures
        coeff_sum(s, k) == 0,
    decreases s.len(),
{
    if s.len() > 0 {
        assert(s.last() == s[s.len() - 1]);
        lemma_coeff_sum_absent(s.drop_last(), k);
    }
}

/// In a list with distinct variables, the coefficient of a variable is its entry.
pub proof fn lemma_coeff_sum_present(s: Seq<Term>, i: int)
    requires
        0 <= i < s.len(),
        forall|a: int, b: int| 0 <= a < s.len() && 0 <= b < s.len() && a != b ==> s[a].0 != s[b].0,
    ensures
        coeff_sum(s, s[i].0) == s[i].1.val(),
{
    let k = s[i].0;
    let pre = s.subrange(0, i);
    let post = s.subrange(i + 1, s.len() as int);
    assert(s =~= pre + seq![s[i]] + post);
    assert forall|j: int| 0 <= j < pre.len() implies (#[trigger] pre[j]).0 != k by {
        assert(pre[j] == s[j]);
    }
    assert forall|j: int| 0 <= j < post.len() implies (#[trigger] post[j]).0 != k by {
        assert(post[j] == s[i + 1 + j]);
    }
    lemma_coeff_sum_absent(pre, k);
    lemma_coeff_sum_absent(post, k);
    lemma_coeff_sum_append(pre + seq![s[i]], post, k);
    lemma_coeff_sum_append(pre, seq![s[i]], k);
    lemma_coeff_sum_single(s[i], k);
}

/// The coefficients of a clean list are its entries, and zero for absent variables.
pub proof fn lemma_clean_coeff(s: Seq<Term>, k: u64)
    requires
        is_clean(s),
        all_wf(s),
    ensures
        (forall|i: int| 0 <= i < s.len() && s[i].0 == k ==> coeff_of(s, k) == s[i].1.val()),
        (forall|i: int| 0 <= i < s.len() ==> s[i].0 != k) ==> coeff_of(s, k) == 0,
{
    assert forall|i: int| 0 <= i < s.len() && s[i].0 == k implies coeff_of(s, k) == s[i].1.val() by {
        lemma_coeff_sum_present(s, i);
        assert(s[i].1.wf());
        lemma_small_mod(s[i].1.val() as nat, modulus() as nat);
    }
    if forall|i: int| 0 <= i < s.len() ==> s[i].0 != k {
        lemma_coeff_sum_absent(s, k);
        assert(0int % modulus() == 0);
    }
}

/// Replacing the coefficient at `i` changes the sum of its variable accordingly.
pub proof fn lemma_coeff_sum_update(s: Seq<Term>, i: int, v: GoldilocksField, k: u64)
    requires
        0 <= i < s.len(),
    ensures
        coeff_sum(s.update(i, (s[i].0, v)), k) == coeff_sum(s, k) + if s[i].0 == k {
            v.val() - s[i].1.val()
        } else {
            0
        },
{
    let pre = s.subrange(0, i);
    let post = s.subrange(i + 1, s.len() as int);
    assert(s =~= pre + seq![s[i]] + post);
    assert(s.update(i, (s[i].0, v)) =~= pre + seq![(s[i].0, v)] + post);
    lemma_coeff_sum_append(pre + seq![s[i]], post, k);
    lemma_coeff_sum_append(pre, seq![s[i]], k);
    lemma_coeff_sum_append(pre + seq![(s[i].0, v)], post, k);
    lemma_coeff_sum_append(pre, seq![(s[i].0, v)], k);
    lemma_coeff_sum_single(s[i], k);
    lemma_coeff_sum_single((s[i].0, v), k);
}

/// Inserting an entry adds its coefficient.
pub proof fn lemma_coeff_sum_insert(s: Seq<Term>, i: int, e: Term, k: u64)
    requires
        0 <= i <= s.len(),
    ensures
        coeff_sum(s.insert(i, e), k) == coeff_sum(s, k) + if e.0 == k {
            e.1.val()
        } else {
            0
        },
{
    let pre = s.subrange(0, i);
    let post = s.subrange(i, s.len() as int);
    assert(s =~= pre + post);
    assert(s.insert(i, e) =~= pre + seq![e] + post);
    lemma_coeff_sum_append(pre, post, k);
    lemma_coeff_sum_append(pre + seq![e], post, k);
    lemma_coeff_sum_append(pre, seq![e], k);
    lemma_coeff_sum_single(e, k);
}

/// `(x + y % m) % m == (x + y) % m`.
pub proof fn lemma_mod_add_right(x: int, y: int)
    ensures
        (x + y % modulus()) % modulus() == (x + y) % modulus(),
{
    lemma_add_mod_noop_right(x, y, modulus());
}

/// Two sorted clean lists denoting the same linear form are equal.
pub proof fn lemma_canonical_unique(s: Seq<Term>, t: Seq<Term>)
    requires
        is_clean(s),
        is_sorted(s),
        all_wf(s),
        is_clean(t),
        is_sorted(t),
        all_wf(t),
        same_coeffs(s, t),
    ensures
        s == t,
    decreases s.len() + t.len(),
{
    if s.len() == 0 && t.len() == 0 {
        assert(s =~= t);
        return;
    }
    if s.len() == 0 {
        lemma_clean_coeff(t, t[0].0);
        lemma_clean_coeff(s, t[0].0);
        assert(coeff_of(s, t[0].0) == coeff_of(t, t[0].0));
        assert(false);
    }
    if t.len() == 0 {
        lemma_clean_coeff(t, s[0].0);
        lemma_clean_coeff(s, s[0].0);
        assert(coeff_of(s, s[0].0) == coeff_of(t, s[0].0));
        assert(false);
    }
    let ks = s[0].0;
    let kt = t[0].0;
    lemma_clean_coeff(s, ks);
    lemma_clean_coeff(t, ks);
    lemma_clean_coeff(s, kt);
    lemma_clean_coeff(t, kt);
    assert(coeff_of(s, ks) == coeff_of(t, ks));
    assert(coeff_of(s, kt) == coeff_of(t, kt));
    if ks < kt {
        assert(forall|i: int| 0 <= i < t.len() ==> t[i].0 != ks) by {
            assert forall|i: int| 0 <= i < t.len() implies t[i].0 != ks by {
                if i > 0 {
                    assert(t[0].0 < t[i].0);
                }
            }
        }
        assert(false);
    }
    if kt < ks {
        assert(forall|i: int| 0 <= i < s.len() ==> s[i].0 != kt) by {
            assert forall|i: int| 0 <= i < s.len() implies s[i].0 != kt by {
                if i > 0 {
                    assert(s[0].0 < s[i].0);
                }
            }
        }
        assert(false);
    }
    assert(s[0] == t[0]);
    let s1 = s.drop_first();
    let t1 = t.drop_first();
    assert forall|k: u64| coeff_of(s1, k) == coeff_of(t1, k) by {
        assert(s =~= seq![s[0]] + s1);
        assert(t =~= seq![t[0]] + t1);
        lemma_coeff_sum_append(seq![s[0]], s1, k);
        lemma_coeff_sum_append(seq![t[0]], t1, k);
        assert(coeff_of(s, k) == coeff_of(t, k));
        assert(coeff_sum(s1, k) == coeff_sum(s, k) - coeff_sum(seq![s[0]], k));
        assert(coeff_sum(t1, k) == coeff_sum(t, k) - coeff_sum(seq![s[0]], k));
        lemma_sub_mod_noop(coeff_sum(s, k), coeff_sum(seq![s[0]], k), modulus());
        lemma_sub_mod_noop(coeff_sum(t, k), coeff_sum(seq![s[0]], k), modulus());
    }
    assert(is_clean(s1) && is_sorted(s1) && all_wf(s1)) by {
        assert forall|i: int| 0 <= i < s1.len() implies (#[trigger] s1[i]).1.0 != 0 && s1[i].1.wf() by {
            assert(s1[i] == s[i + 1]);
        }
    }
    assert(is_clean(t1) && is_sorted(t1) && all_wf(t1)) by {
        assert forall|i: int| 0 <= i < t1.len() implies (#[trigger] t1[i]).1.0 != 0 && t1[i].1.wf() by {
            assert(t1[i] == t[i + 1]);
        }
    }
    lemma_canonical_unique(s1, t1);
    assert(s =~= seq![s[0]] + s1);
    assert(t =~= seq![t[0]] + t1);
}

/// The canonical form exists (given a witness) and is the witness.
pub proof fn lemma_canonical_is(s: Seq<Term>, t: Seq<Term>)
    requires
        is_clean(t),
        is_sorted(t),
        all_wf(t),
        same_coeffs(t, s),
    ensures
        canonical(s) == t,
{
    let c = canonical(s);
    assert(is_clean(c) && is_sorted(c) && all_wf(c) && same_coeffs(c, s));
    assert(same_coeffs(c, t));
    lemma_canonical_unique(c, t);
}

// ---------------------------------------------------------------------------
// Normalisation
// ---------------------------------------------------------------------------
/// A copy of a coefficient list.
fn copy_terms(v: &Vec<Term>) -> (r: Vec<Term>)
    ensures
        r@ == v@,
{
    let mut r: Vec<Term> = Vec::new();
    let n = v.len();
    for i in 0..n
        invariant
            n == v@.len(),
            r@ == v@.subrange(0, i as int),
    {
        r.push(v[i]);
        proof {
            assert(v@.subrange(0, i + 1) =~= v@.subrange(0, i as int).push(v@[i as int]));
        }
    }
    proof {
        assert(v@.subrange(0, n as int) =~= v@);
    }
    r
}

/// The cleaned form of a single term.
fn clean_one(k: u64, v: GoldilocksField) -> (r: Vec<Term>)
    ensures
        r@ == spec_clean_one(k, v),
{
    if v.is_zero() {
        Vec::new()
    } else {
        let mut r = Vec::new();
        r.push((k, v));
        assert(r@ =~= seq![(k, v)]);
        r
    }
}

/// The cleaned form of two terms.
fn clean_two(a: Term, b: Term) -> (r: Vec<Term>)
    requires
        a.1.wf(),
        b.1.wf(),
    ensures
        r@ == spec_clean_two(a, b),
{
    if a.1.is_zero() {
        clean_one(b.0, b.1)
    } else if b.1.is_zero() {
        clean_one(a.0, a.1)
    } else if a.0 == b.0 {
        clean_one(a.0, a.1.add(b.1))
    } else {
        let mut r = Vec::new();
        r.push(a);
        r.push(b);
        assert(r@ =~= seq![a, b]);
        r
    }
}

/// The sorted list of nonzero coefficients denoting the same linear form as `s`.
fn normalize(s: &Vec<Term>) -> (r: Vec<Term>)
    requires
        all_wf(s@),
    ensures
        is_clean(r@),
        is_sorted(r@),
        all_wf(r@),
        same_coeffs(r@, s@),
{
    let mut acc: Vec<Term> = Vec::new();
    let n = s.len();
    for i in 0..n
        invariant
            n == s@.len(),
            all_wf(s@),
            is_sorted(acc@),
            all_wf(acc@),
            forall|k: u64| coeff_of(acc@, k) == coeff_of(s@.subrange(0, i as int), k),
    {
        let e = s[i];
        let ghost before = acc@;
        let mut pos: usize = 0;
        while pos < acc.len() && acc[pos].0 < e.0
            invariant
                0 <= pos <= acc@.len(),
                acc@ == before,
                forall|j: int| 0 <= j < pos ==> acc@[j].0 < e.0,
            decreases acc@.len() - pos,
        {
            pos = pos + 1;
        }
        proof {
            assert(s@.subrange(0, i + 1) =~= s@.subrange(0, i as int) + seq![e]);
        }
        if pos < acc.len() && acc[pos].0 == e.0 {
            let merged = acc[pos].1.add(e.1);
            let key = acc[pos].0;
            acc.set(pos, (key, merged));
            proof {
                assert(acc@ == before.update(pos as int, (before[pos as int].0, merged)));
                assert forall|k: u64| coeff_of(acc@, k) == coeff_of(s@.subrange(0, i + 1), k) by {
                    assert(coeff_of(before, k) == coeff_of(s@.subrange(0, i as int), k));
                    lemma_coeff_sum_update(before, pos as int, merged, k);
                    lemma_coeff_sum_append(s@.subrange(0, i as int), seq![e], k);
                    lemma_coeff_sum_single(e, k);
                    let x = coeff_sum(before, k);
                    let y = coeff_sum(s@.subrange(0, i as int), k);
                    lemma_add_mod_noop(x, if e.0 == k { e.1.val() } else { 0 }, modulus());
                    lemma_add_mod_noop(y, if e.0 == k { e.1.val() } else { 0 }, modulus());
                    if e.0 == k {
                        let a = before[pos as int].1.val();
                        lemma_mod_add_right(x - a, a + e.1.val());
                    }
                }
                assert forall|a: int, b: int| 0 <= a < b < acc@.len() implies acc@[a].0 < acc@[b].0 by {
                    assert(before[a].0 < before[b].0);
                }
            }
        } else {
            acc.insert(pos, e);
            proof {
                assert(acc@ == before.insert(pos as int, e));
                assert forall|k: u64| coeff_of(acc@, k) == coeff_of(s@.subrange(0, i + 1), k) by {
                    assert(coeff_of(before, k) == coeff_of(s@.subrange(0, i as int), k));
                    lemma_coeff_sum_insert(before, pos as int, e, k);
                    lemma_coeff_sum_append(s@.subrange(0, i as int), seq![e], k);
                    lemma_coeff_sum_single(e, k);
                    let x = coeff_sum(before, k);
                    let y = coeff_sum(s@.subrange(0, i as int), k);
                    lemma_add_mod_noop(x, if e.0 == k { e.1.val() } else { 0 }, modulus());
                    lemma_add_mod_noop(y, if e.0 == k { e.1.val() } else { 0 }, modulus());
                }
                assert forall|a: int, b: int| 0 <= a < b < acc@.len() implies acc@[a].0 < acc@[b].0 by {
                    if b < pos {
                        assert(before[a].0 < before[b].0);
                    } else if b == pos {
                        assert(acc@[a] == before[a]);
                    } else if a < pos {
                        assert(acc@[b] == before[b - 1]);
                        assert(before[a].0 < e.0);
                        if pos < before.len() {
                            assert(e.0 < before[pos as int].0);
                            if b - 1 > pos {
                                assert(before[pos as int].0 < before[b - 1].0);
                            }
                        }
                    } else if a == pos {
                        assert(acc@[b] == before[b - 1]);
                        assert(e.0 < before[pos as int].0);
                        if b - 1 > pos {
                            assert(before[pos as int].0 < before[b - 1].0);
                        }
                    } else {
                        assert(before[a - 1].0 < before[b - 1].0);
                    }
                }
            }
        }
    }
    proof {
        assert(s@.subrange(0, n as int) =~= s@);
    }
    // Drop the zero coefficients.
    let mut out: Vec<Term> = Vec::new();
    let m = acc.len();
    for j in 0..m
        invariant
            m == acc@.len(),
            is_sorted(acc@),
            all_wf(acc@),
            is_sorted(out@),
            all_wf(out@),
            forall|x: int| 0 <= x < out@.len() ==> (#[trigger] out@[x]).1.0 != 0,
            forall|x: int, y: int| 0 <= x < out@.len() && j <= y < m ==> out@[x].0 < acc@[y].0,
            forall|k: u64| coeff_sum(out@, k) == coeff_sum(acc@.subrange(0, j as int), k),
    {
        let e = acc[j];
        proof {
            assert(acc@.subrange(0, j + 1) =~= acc@.subrange(0, j as int) + seq![e]);
        }
        if !e.1.is_zero() {
            let ghost prev = out@;
            out.push(e);
            proof {
                assert forall|k: u64| coeff_sum(out@, k) == coeff_sum(acc@.subrange(0, j + 1), k) by {
                    lemma_coeff_sum_append(prev, seq![e], k);
                    lemma_coeff_sum_append(acc@.subrange(0, j as int), seq![e], k);
                    assert(out@ =~= prev + seq![e]);
                }
                assert forall|x: int, y: int| 0 <= x < out@.len() && j + 1 <= y < m implies out@[x].0 < acc@[y].0 by {
                    if x < prev.len() {
                        assert(prev[x].0 < acc@[y].0);
                    } else {
                        assert(acc@[j as int].0 < acc@[y].0);
                    }
                }
                assert forall|a: int, b: int| 0 <= a < b < out@.len() implies out@[a].0 < out@[b].0 by {
                    if b == prev.len() {
                        assert(prev[a].0 < acc@[j as int].0);
                    } else {
                        assert(prev[a].0 < prev[b].0);
                    }
                }
            }
        } else {
            proof {
                assert forall|k: u64| coeff_sum(out@, k) == coeff_sum(acc@.subrange(0, j + 1), k) by {
                    lemma_coeff_sum_append(acc@.subrange(0, j as int), seq![e], k);
                    lemma_coeff_sum_single(e, k);
                }
            }
        }
    }
    proof {
        assert(acc@.subrange(0, m as int) =~= acc@);
        assert forall|k: u64| coeff_of(out@, k) == coeff_of(s@, k) by {
            assert(coeff_sum(out@, k) == coeff_sum(acc@.subrange(0, m as int), k));
            assert(coeff_of(acc@, k) == coeff_of(s@, k));
        }
    }
    out
}


// ---------------------------------------------------------------------------
// Affine expressions
// ---------------------------------------------------------------------------
/// The coefficient list of a sum: how the two lists are combined.
pub open spec fn spec_add_terms(a: Seq<Term>, b: Seq<Term>) -> Seq<Term> {
    if b.len() == 0 {
        a
    } else if a.len() == 0 {
        b
    } else if a.len() == 1 {
        b.push(a[0])
    } else if b.len() == 1 {
        a.push(b[0])
    } else {
        a + b
    }
}

/// Whether the variable `k` occurs in the list.
pub open spec fn mentions(s: Seq<Term>, k: u64) -> bool {
    exists|i: int| 0 <= i < s.len() && (#[trigger] s[i]).0 == k
}

/// The list with every coefficient negated.
pub open spec fn spec_neg_terms(s: Seq<Term>) -> Seq<Term> {
    s.map_values(|e: Term| (e.0, GoldilocksField(fe_neg(e.1.val()) as u64)))
}

/// The list with every coefficient multiplied by `f`.
pub open spec fn spec_scale_terms(s: Seq<Term>, f: int) -> Seq<Term> {
    s.map_values(|e: Term| (e.0, GoldilocksField(fe_mul(e.1.val(), f) as u64)))
}

/// The list with the coefficients of `k` set to zero.
pub open spec fn spec_zero_out(s: Seq<Term>, k: u64) -> Seq<Term> {
    s.map_values(|e: Term| if e.0 == k { (e.0, GoldilocksField(0)) } else { e })
}

/// An expression affine in the variables: the sum of `coefficient * variable` over the
/// coefficient list, plus the offset. A variable may occur several times; its
/// coefficient is then the sum of its entries.
pub struct AffineExpression {
    coefficients: Vec<Term>,
    offset: GoldilocksField,
    /// If set, all coefficients are nonzero and no variable occurs twice.
    clean: bool,
}

impl AffineExpression {
    /// All field elements are canonical, and the list is clean if it is marked so.
    pub closed spec fn wf(self) -> bool {
        &&& all_wf(self.coefficients@)
        &&& self.offset.wf()
        &&& self.clean ==> is_clean(self.coefficients@)
    }

    /// The coefficient list.
    pub closed spec fn terms(self) -> Seq<Term> {
        self.coefficients@
    }

    /// The offset.
    pub closed spec fn offset_fe(self) -> GoldilocksField {
        self.offset
    }

    /// Whether the expression is marked as clean.
    pub closed spec fn is_marked_clean(self) -> bool {
        self.clean
    }

    /// The coefficient of variable `k`.
    pub open spec fn coeff(self, k: u64) -> int {
        coeff_of(self.terms(), k)
    }

    /// The list of nonzero coefficients as `nonzero_coefficients` returns it: the list
    /// itself when marked clean, the cleaned list for up to two entries, and otherwise
    /// the list sorted by variable.
    pub closed spec fn spec_nonzero(self) -> Seq<Term> {
        let s = self.terms();
        if self.clean {
            s
        } else if s.len() == 0 {
            seq![]
        } else if s.len() == 1 {
            spec_clean_one(s[0].0, s[0].1)
        } else if s.len() == 2 {
            spec_clean_two(s[0], s[1])
        } else {
            canonical(s)
        }
    }

    /// The constant expression `value`.
    pub fn from_value(value: GoldilocksField) -> (r: Self)
        requires
            value.wf(),
        ensures
            r.wf(),
            r.is_marked_clean(),
            r.terms() == Seq::<Term>::empty(),
            r.offset_fe() == value,
    {
        AffineExpression { coefficients: Vec::new(), offset: value, clean: true }
    }

    /// The expression consisting of the single variable `var_id`.
    pub fn from_variable_id(var_id: u64) -> (r: Self)
        ensures
            r.wf(),
            r.is_marked_clean(),
            r.terms() == seq![(var_id, GoldilocksField(1))],
            r.offset_fe() == GoldilocksField(0),
    {
        let mut coefficients = Vec::new();
        coefficients.push((var_id, GoldilocksField::one()));
        proof {
            assert(coefficients@ =~= seq![(var_id, GoldilocksField(1))]);
        }
        AffineExpression { coefficients, offset: GoldilocksField::zero(), clean: true }
    }

    /// An expression with the given coefficients and offset, not marked clean.
    pub fn new(coefficients: Vec<Term>, offset: GoldilocksField) -> (r: Self)
        requires
            all_wf(coefficients@),
            offset.wf(),
        ensures
            r.wf(),
            !r.is_marked_clean(),
            r.terms() == coefficients@,
            r.offset_fe() == offset,
    {
        AffineExpression { coefficients, offset, clean: false }
    }

    /// The nonzero coefficients with their variables (not the offset). Each variable
    /// occurs once. A clean expression returns its list as it is; otherwise up to two
    /// entries keep their order and longer lists come out sorted by variable.
    pub fn nonzero_coefficients(&self) -> (r: Vec<Term>)
        requires
            self.wf(),
        ensures
            r@ == self.spec_nonzero(),
            is_clean(r@),
            all_wf(r@),
            same_coeffs(r@, self.terms()),
            !self.is_marked_clean() && self.terms().len() > 2 ==> is_sorted(r@),
    {
        if self.clean {
            return copy_terms(&self.coefficients);
        }
        let n = self.coefficients.len();
        if n == 0 {
            let r: Vec<Term> = Vec::new();
            proof {
                assert(r@ =~= self.spec_nonzero());
            }
            r
        } else if n == 1 {
            let (k, v) = self.coefficients[0];
            let r = clean_one(k, v);
            proof {
                let s = self.terms();
                assert(s =~= seq![s[0]]);
                assert(s[0].1.wf());
                assert forall|key: u64| coeff_of(r@, key) == coeff_of(s, key) by {
                    lemma_coeff_sum_single(s[0], key);
                    if v.0 != 0 {
                        lemma_coeff_sum_single((k, v), key);
                    } else {
                        assert(coeff_sum(r@, key) == 0);
                    }
                }
            }
            r
        } else if n == 2 {
            let a = self.coefficients[0];
            let b = self.coefficients[1];
            let r = clean_two(a, b);
            proof {
                let s = self.terms();
                assert(s[0].1.wf() && s[1].1.wf());
                lemma_clean_two(a, b);
                assert(s =~= seq![a, b]);
            }
            r
        } else {
            let r = normalize(&self.coefficients);
            proof {
                lemma_canonical_is(self.terms(), r@);
            }
            r
        }
    }

    /// The variables with nonzero coefficients, in the order of `nonzero_coefficients`.
    pub fn nonzero_variables(&self) -> (r: Vec<u64>)
        requires
            self.wf(),
        ensures
            r@ == self.spec_nonzero().map_values(|e: Term| e.0),
            forall|k: u64| r@.contains(k) <==> self.coeff(k) != 0,
    {
        let nz = self.nonzero_coefficients();
        let mut r: Vec<u64> = Vec::new();
        let n = nz.len();
        for i in 0..n
            invariant
                n == nz@.len(),
                r@ == nz@.subrange(0, i as int).map_values(|e: Term| e.0),
        {
            r.push(nz[i].0);
            proof {
                assert(nz@.subrange(0, i + 1).map_values(|e: Term| e.0) =~= nz@.subrange(
                    0,
                    i as int,
                ).map_values(|e: Term| e.0).push(nz@[i as int].0));
            }
        }
        proof {
            assert(nz@.subrange(0, n as int) =~= nz@);
            assert forall|k: u64| r@.contains(k) <==> self.coeff(k) != 0 by {
                lemma_clean_coeff(nz@, k);
                assert(coeff_of(nz@, k) == self.coeff(k));
                if r@.contains(k) {
                    let i = choose|i: int| 0 <= i < r@.len() && r@[i] == k;
                    assert(nz@[i].0 == k);
                    assert(nz@[i].1.0 != 0);
                }
                if self.coeff(k) != 0 {
                    let i = choose|i: int| 0 <= i < nz@.len() && nz@[i].0 == k;
                    assert(r@[i] == k);
                }
            }
        }
        r
    }

    /// Whether all coefficients are zero.
    pub fn is_constant(&self) -> (r: bool)
        requires
            self.wf(),
        ensures
            r == (self.spec_nonzero().len() == 0),
            r == (forall|k: u64| self.coeff(k) == 0),
    {
        let nz = self.nonzero_coefficients();
        proof {
            if nz@.len() != 0 {
                lemma_clean_coeff(nz@, nz@[0].0);
                assert(self.coeff(nz@[0].0) != 0);
            } else {
                assert forall|k: u64| self.coeff(k) == 0 by {
                    lemma_clean_coeff(nz@, k);
                }
            }
        }
        nz.len() == 0
    }

    /// The value of the expression if it is constant.
    pub fn constant_value(&self) -> (r: Option<GoldilocksField>)
        requires
            self.wf(),
        ensures
            r == if forall|k: u64| self.coeff(k) == 0 {
                Some(self.offset_fe())
            } else {
                None::<GoldilocksField>
            },
    {
        if self.is_constant() {
            Some(self.offset)
        } else {
            None
        }
    }

    /// The same expression with a clean coefficient list.
    pub fn clean(&self) -> (r: Self)
        requires
            self.wf(),
        ensures
            r.wf(),
            r.is_marked_clean(),
            r.terms() == self.spec_nonzero(),
            r.offset_fe() == self.offset_fe(),
            same_coeffs(r.terms(), self.terms()),
    {
        AffineExpression {
            offset: self.offset,
            coefficients: self.nonzero_coefficients(),
            clean: true,
        }
    }

    /// Incorporates that the variable `key` has the value `value`: its coefficient
    /// times `value` moves into the offset.
    pub fn assign(&mut self, key: u64, value: GoldilocksField)
        requires
            old(self).wf(),
            value.wf(),
        ensures
            final(self).wf(),
            !final(self).is_marked_clean(),
            final(self).terms() == spec_zero_out(old(self).terms(), key),
            final(self).offset_fe().val() == fe_add(
                old(self).offset_fe().val(),
                fe_mul(old(self).coeff(key), value.val()),
            ),
            final(self).coeff(key) == 0,
            forall|k: u64| k != key ==> final(self).coeff(k) == old(self).coeff(k),
    {
        self.clean = false;
        let ghost orig = self.coefficients@;
        let ghost o = self.offset.val();
        let n = self.coefficients.len();
        proof {
            assert(orig.subrange(0, 0) =~= Seq::<Term>::empty());
            assert(coeff_sum(Seq::<Term>::empty(), key) == 0);
            lemma_small_mod(o as nat, modulus() as nat);
        }
        for i in 0..n
            invariant
                n == orig.len(),
                !self.clean,
                self.coefficients@.len() == n,
                all_wf(orig),
                o < modulus(),
                value.wf(),
                self.offset.wf(),
                forall|j: int| 0 <= j < i ==> self.coefficients@[j] == (if orig[j].0 == key {
                    (orig[j].0, GoldilocksField(0))
                } else {
                    orig[j]
                }),
                forall|j: int| i <= j < n ==> self.coefficients@[j] == orig[j],
                self.offset.val() == (o + coeff_sum(orig.subrange(0, i as int), key) * value.val())
                    % modulus(),
        {
            let (k, c) = self.coefficients[i];
            proof {
                assert(orig.subrange(0, i + 1) =~= orig.subrange(0, i as int) + seq![orig[i as int]]);
                lemma_coeff_sum_append(orig.subrange(0, i as int), seq![orig[i as int]], key);
                lemma_coeff_sum_single(orig[i as int], key);
                assert(orig[i as int].1.wf());
            }
            if k == key {
                let ghost prev = self.offset.val();
                let prod = c.mul(value);
                self.offset = self.offset.add(prod);
                self.coefficients.set(i, (k, GoldilocksField::zero()));
                proof {
                    let s = coeff_sum(orig.subrange(0, i as int), key);
                    lemma_fe_step(o, s, c.val(), value.val());
                }
            }
        }
        proof {
            assert(orig.subrange(0, n as int) =~= orig);
            assert(self.coefficients@ =~= spec_zero_out(orig, key));
            lemma_mul_mod_noop_left(coeff_sum(orig, key), value.val(), modulus());
            lemma_add_mod_noop_right(o, coeff_sum(orig, key) * value.val(), modulus());
            assert forall|k: u64| #![trigger coeff_sum(self.coefficients@, k)]
                coeff_sum(self.coefficients@, k) == if k == key {
                    0
                } else {
                    coeff_sum(orig, k)
                } by {
                lemma_zero_out_sum(orig, key, k);
            }
            assert(0int % modulus() == 0);
        }
    }
}

/// Whether the sum of two expressions stays marked clean.
pub open spec fn spec_add_clean(ac: bool, bc: bool, a: Seq<Term>, b: Seq<Term>) -> bool {
    if b.len() == 0 {
        ac
    } else if a.len() == 0 {
        bc
    } else if a.len() == 1 {
        ac && bc && !mentions(b, a[0].0)
    } else if b.len() == 1 {
        ac && bc && !mentions(a, b[0].0)
    } else {
        false
    }
}

/// Whether the variable `k` occurs in the list.
fn contains_key(v: &Vec<Term>, k: u64) -> (r: bool)
    ensures
        r == mentions(v@, k),
{
    let n = v.len();
    for i in 0..n
        invariant
            n == v@.len(),
            forall|j: int| 0 <= j < i ==> v@[j].0 != k,
    {
        if v[i].0 == k {
            return true;
        }
    }
    false
}

/// Whether two coefficient lists are equal entry by entry.
fn terms_equal(a: &Vec<Term>, b: &Vec<Term>) -> (r: bool)
    ensures
        r == (a@ == b@),
{
    if a.len() != b.len() {
        return false;
    }
    let n = a.len();
    for i in 0..n
        invariant
            n == a@.len(),
            n == b@.len(),
            forall|j: int| 0 <= j < i ==> a@[j] == b@[j],
    {
        if a[i].0 != b[i].0 || a[i].1.0 != b[i].1.0 {
            return false;
        }
    }
    proof {
        assert(a@ =~= b@);
    }
    true
}

/// If `x1 ~ y1` and `x2 ~ y2` modulo the field size, then `x1 + x2 ~ y1 + y2`.
proof fn lemma_mod_add_congruent(x1: int, y1: int, x2: int, y2: int)
    requires
        x1 % modulus() == y1 % modulus(),
        x2 % modulus() == y2 % modulus(),
    ensures
        (x1 + x2) % modulus() == (y1 + y2) % modulus(),
{
    lemma_add_mod_noop(x1, x2, modulus());
    lemma_add_mod_noop(y1, y2, modulus());
}

/// The coefficient sums of a sum list are the sums of the coefficient sums.
proof fn lemma_add_terms_sum(a: Seq<Term>, b: Seq<Term>, k: u64)
    ensures
        coeff_sum(spec_add_terms(a, b), k) == coeff_sum(a, k) + coeff_sum(b, k),
{
    lemma_coeff_sum_append(a, b, k);
    lemma_coeff_sum_append(b, a, k);
    if b.len() != 0 && a.len() == 1 {
        assert(a =~= seq![a[0]]);
        assert(b.push(a[0]) =~= b + a);
    } else if b.len() == 1 && a.len() > 1 {
        assert(b =~= seq![b[0]]);
        assert(a.push(b[0]) =~= a + b);
    } else if b.len() == 0 {
        assert(a + b =~= a);
    } else if a.len() == 0 {
        assert(a + b =~= b);
    }
}

/// Negating every coefficient negates every coefficient sum.
proof fn lemma_neg_terms_sum(s: Seq<Term>, k: u64)
    requires
        all_wf(s),
    ensures
        coeff_sum(spec_neg_terms(s), k) % modulus() == (-coeff_sum(s, k)) % modulus(),
    decreases s.len(),
{
    let p = modulus();
    if s.len() == 0 {
        assert(coeff_sum(spec_neg_terms(s), k) == 0);
    } else {
        let t = s.drop_last();
        assert(all_wf(t)) by {
            assert forall|i: int| 0 <= i < t.len() implies (#[trigger] t[i]).1.wf() by {
                assert(t[i] == s[i]);
            }
        }
        lemma_neg_terms_sum(t, k);
        assert(spec_neg_terms(s).drop_last() =~= spec_neg_terms(t));
        let e = s.last();
        assert(e == s[s.len() - 1]);
        assert(e.1.wf());
        let c = e.1.val();
        lemma_mod_bound(p - c, p);
        assert(spec_neg_terms(s).last() == (e.0, GoldilocksField(fe_neg(c) as u64)));
        if e.0 == k {
            lemma_mod_twice(p - c, p);
            lemma_mod_add_multiples_vanish(-c, p);
            lemma_mod_add_congruent(
                coeff_sum(spec_neg_terms(t), k),
                -coeff_sum(t, k),
                fe_neg(c),
                -c,
            );
        }
    }
}

/// Scaling every coefficient scales every coefficient sum.
proof fn lemma_scale_terms_sum(s: Seq<Term>, f: int, k: u64)
    requires
        all_wf(s),
        0 <= f < modulus(),
    ensures
        coeff_sum(spec_scale_terms(s, f), k) % modulus() == (coeff_sum(s, k) * f) % modulus(),
    decreases s.len(),
{
    let p = modulus();
    if s.len() == 0 {
        assert(coeff_sum(spec_scale_terms(s, f), k) == 0);
    } else {
        let t = s.drop_last();
        assert(all_wf(t)) by {
            assert forall|i: int| 0 <= i < t.len() implies (#[trigger] t[i]).1.wf() by {
                assert(t[i] == s[i]);
            }
        }
        lemma_scale_terms_sum(t, f, k);
        assert(spec_scale_terms(s, f).drop_last() =~= spec_scale_terms(t, f));
        let e = s.last();
        assert(e == s[s.len() - 1]);
        assert(e.1.wf());
        let c = e.1.val();
        lemma_mod_bound(c * f, p);
        assert(spec_scale_terms(s, f).last() == (e.0, GoldilocksField(fe_mul(c, f) as u64)));
        if e.0 == k {
            lemma_mod_twice(c * f, p);
            lemma_mod_add_congruent(
                coeff_sum(spec_scale_terms(t, f), k),
                coeff_sum(t, k) * f,
                fe_mul(c, f),
                c * f,
            );
            assert((coeff_sum(t, k) + c) * f == coeff_sum(t, k) * f + c * f) by (nonlinear_arith);
        }
    }
}

/// `-(x mod p) == -x` in the field.
proof fn lemma_fe_neg_of_mod(x: int)
    ensures
        fe_neg(x % modulus()) == (-x) % modulus(),
{
    let p = modulus();
    lemma_mod_add_multiples_vanish(-(x % p), p);
    lemma_sub_mod_noop(0, x, p);
    lemma_small_mod(0, p as nat);
    lemma_mod_twice(x, p);
    lemma_sub_mod_noop(0, x % p, p);
}

impl AffineExpression {
    /// The coefficient list.
    pub fn coefficients(&self) -> (r: &Vec<Term>)
        ensures
            r@ == self.terms(),
    {
        &self.coefficients
    }

    /// The offset.
    pub fn offset(&self) -> (r: GoldilocksField)
        ensures
            r == self.offset_fe(),
    {
        self.offset
    }

    /// The sum of two expressions.
    pub fn add(self, rhs: Self) -> (r: Self)
        requires
            self.wf(),
            rhs.wf(),
        ensures
            r.wf(),
            r.terms() == spec_add_terms(self.terms(), rhs.terms()),
            r.offset_fe().val() == fe_add(self.offset_fe().val(), rhs.offset_fe().val()),
            r.is_marked_clean() == spec_add_clean(
                self.is_marked_clean(),
                rhs.is_marked_clean(),
                self.terms(),
                rhs.terms(),
            ),
            forall|k: u64| #[trigger] r.coeff(k) == fe_add(self.coeff(k), rhs.coeff(k)),
    {
        let ghost a = self.coefficients@;
        let ghost b = rhs.coefficients@;
        let offset = self.offset.add(rhs.offset);
        let r = if rhs.coefficients.len() == 0 {
            AffineExpression { coefficients: self.coefficients, offset, clean: self.clean }
        } else if self.coefficients.len() == 0 {
            AffineExpression { coefficients: rhs.coefficients, offset, clean: rhs.clean }
        } else if self.coefficients.len() == 1 {
            let (lk, lv) = self.coefficients[0];
            let clean = self.clean && rhs.clean && !contains_key(&rhs.coefficients, lk);
            let mut coefficients = rhs.coefficients;
            coefficients.push((lk, lv));
            proof {
                if clean {
                    assert(a[0].1.0 != 0);
                    assert forall|i: int, j: int|
                        0 <= i < coefficients@.len() && 0 <= j < coefficients@.len() && i != j
                        implies coefficients@[i].0 != coefficients@[j].0 by {
                        if i == b.len() {
                            assert(coefficients@[j] == b[j]);
                        } else if j == b.len() {
                            assert(coefficients@[i] == b[i]);
                        }
                    }
                }
            }
            AffineExpression { coefficients, offset, clean }
        } else if rhs.coefficients.len() == 1 {
            let (rk, rv) = rhs.coefficients[0];
            let clean = self.clean && rhs.clean && !contains_key(&self.coefficients, rk);
            let mut coefficients = self.coefficients;
            coefficients.push((rk, rv));
            proof {
                if clean {
                    assert(b[0].1.0 != 0);
                    assert forall|i: int, j: int|
                        0 <= i < coefficients@.len() && 0 <= j < coefficients@.len() && i != j
                        implies coefficients@[i].0 != coefficients@[j].0 by {
                        if i == a.len() {
                            assert(coefficients@[j] == a[j]);
                        } else if j == a.len() {
                            assert(coefficients@[i] == a[i]);
                        }
                    }
                }
            }
            AffineExpression { coefficients, offset, clean }
        } else {
            let mut coefficients = self.coefficients;
            let mut other = rhs.coefficients;
            coefficients.append(&mut other);
            AffineExpression { coefficients, offset, clean: false }
        };
        proof {
            assert(r.coefficients@ =~= spec_add_terms(a, b));
            assert forall|k: u64| #[trigger] r.coeff(k) == fe_add(self.coeff(k), rhs.coeff(k)) by {
                lemma_add_terms_sum(a, b, k);
                lemma_add_mod_noop(coeff_sum(a, k), coeff_sum(b, k), modulus());
            }
        }
        r
    }

    /// The negated expression.
    pub fn neg(self) -> (r: Self)
        requires
            self.wf(),
        ensures
            r.wf(),
            r.terms() == spec_neg_terms(self.terms()),
            r.offset_fe().val() == fe_neg(self.offset_fe().val()),
            r.is_marked_clean() == self.is_marked_clean(),
            forall|k: u64| #[trigger] r.coeff(k) == fe_neg(self.coeff(k)),
    {
        let ghost orig = self.coefficients@;
        let mut coefficients = self.coefficients;
        let n = coefficients.len();
        for i in 0..n
            invariant
                n == orig.len(),
                all_wf(orig),
                coefficients@.len() == n,
                forall|j: int| 0 <= j < i ==> coefficients@[j] == spec_neg_terms(orig)[j],
                forall|j: int| i <= j < n ==> coefficients@[j] == orig[j],
        {
            let (k, v) = coefficients[i];
            proof {
                assert(orig[i as int].1.wf());
            }
            coefficients.set(i, (k, v.neg()));
        }
        let r = AffineExpression { coefficients, offset: self.offset.neg(), clean: self.clean };
        proof {
            assert(r.coefficients@ =~= spec_neg_terms(orig));
            assert(all_wf(r.coefficients@)) by {
                assert forall|i: int| 0 <= i < n implies (#[trigger] r.coefficients@[i]).1.wf() by {
                    assert(orig[i].1.wf());
                    lemma_fe_basics(orig[i].1.val());
                }
            }
            if self.clean {
                assert forall|i: int| 0 <= i < n implies (#[trigger] r.coefficients@[i]).1.0 != 0 by {
                    assert(orig[i].1.0 != 0);
                    assert(orig[i].1.wf());
                    lemma_small_mod((modulus() - orig[i].1.val()) as nat, modulus() as nat);
                }
                assert forall|i: int, j: int| 0 <= i < n && 0 <= j < n && i != j implies
                    r.coefficients@[i].0 != r.coefficients@[j].0 by {
                    assert(orig[i].0 != orig[j].0);
                }
            }
            assert forall|k: u64| #[trigger] r.coeff(k) == fe_neg(self.coeff(k)) by {
                lemma_neg_terms_sum(orig, k);
                lemma_fe_neg_of_mod(coeff_sum(orig, k));
            }
        }
        r
    }

    /// The difference of two expressions.
    pub fn sub(self, rhs: Self) -> (r: Self)
        requires
            self.wf(),
            rhs.wf(),
        ensures
            r.wf(),
            r.offset_fe().val() == fe_add(self.offset_fe().val(), fe_neg(rhs.offset_fe().val())),
            forall|k: u64| #[trigger] r.coeff(k) == fe_add(self.coeff(k), fe_neg(rhs.coeff(k))),
    {
        let n = rhs.neg();
        let r = self.add(n);
        proof {
            assert forall|k: u64| #[trigger] r.coeff(k) == fe_add(self.coeff(k), fe_neg(rhs.coeff(k))) by {
                assert(r.coeff(k) == fe_add(self.coeff(k), n.coeff(k)));
            }
        }
        r
    }

    /// The expression multiplied by a constant. Multiplying by zero gives the zero
    /// constant.
    pub fn mul(self, factor: GoldilocksField) -> (r: Self)
        requires
            self.wf(),
            factor.wf(),
        ensures
            r.wf(),
            factor.0 == 0 ==> r.terms() == Seq::<Term>::empty() && r.offset_fe() == factor,
            factor.0 != 0 ==> r.terms() == spec_scale_terms(self.terms(), factor.val()),
            r.offset_fe().val() == fe_mul(self.offset_fe().val(), factor.val()),
            forall|k: u64| #[trigger] r.coeff(k) == fe_mul(self.coeff(k), factor.val()),
    {
        if factor.is_zero() {
            let r = Self::from_value(factor);
            proof {
                assert forall|k: u64| #[trigger] r.coeff(k) == fe_mul(self.coeff(k), factor.val()) by {
                    assert(coeff_sum(Seq::<Term>::empty(), k) == 0);
                    assert(0int % modulus() == 0);
                }
            }
            return r;
        }
        let ghost orig = self.coefficients@;
        let mut coefficients = self.coefficients;
        let mut clean = self.clean;
        let n = coefficients.len();
        for i in 0..n
            invariant
                n == orig.len(),
                all_wf(orig),
                factor.wf(),
                coefficients@.len() == n,
                forall|j: int| 0 <= j < i ==> coefficients@[j] == spec_scale_terms(orig, factor.val())[j],
                forall|j: int| i <= j < n ==> coefficients@[j] == orig[j],
                clean ==> is_clean(orig),
                clean ==> forall|j: int| 0 <= j < i ==> (#[trigger] coefficients@[j]).1.0 != 0,
        {
            let (k, v) = coefficients[i];
            proof {
                assert(orig[i as int].1.wf());
            }
            let scaled = v.mul(factor);
            if scaled.is_zero() {
                clean = false;
            }
            coefficients.set(i, (k, scaled));
        }
        let r = AffineExpression { coefficients, offset: self.offset.mul(factor), clean };
        proof {
            assert(r.coefficients@ =~= spec_scale_terms(orig, factor.val()));
            assert(all_wf(r.coefficients@)) by {
                assert forall|i: int| 0 <= i < n implies (#[trigger] r.coefficients@[i]).1.wf() by {
                    lemma_mod_bound(orig[i].1.val() * factor.val(), modulus());
                }
            }
            if clean {
                assert forall|i: int, j: int| 0 <= i < n && 0 <= j < n && i != j implies
                    r.coefficients@[i].0 != r.coefficients@[j].0 by {
                    assert(orig[i].0 != orig[j].0);
                }
            }
            assert forall|k: u64| #[trigger] r.coeff(k) == fe_mul(self.coeff(k), factor.val()) by {
                lemma_scale_terms_sum(orig, factor.val(), k);
                lemma_mul_mod_noop_left(coeff_sum(orig, k), factor.val(), modulus());
            }
        }
        r
    }

    /// Whether two expressions denote the same affine function: equal offsets and equal
    /// coefficients for every variable.
    pub fn eq(&self, other: &Self) -> (r: bool)
        requires
            self.wf(),
            other.wf(),
        ensures
            r == (self.offset_fe() == other.offset_fe() && same_coeffs(self.terms(), other.terms())),
    {
        if self.offset.0 != other.offset.0 {
            return false;
        }
        let a = normalize(&self.coefficients);
        let b = normalize(&other.coefficients);
        let r = terms_equal(&a, &b);
        proof {
            if same_coeffs(self.coefficients@, other.coefficients@) {
                assert(same_coeffs(a@, b@));
                lemma_canonical_unique(a@, b@);
            }
            if a@ == b@ {
                assert(same_coeffs(self.coefficients@, other.coefficients@));
            }
        }
        r
    }
}

/// The separator between summands.
pub open spec fn plus_sep() -> Seq<char> {
    seq![' ', '+', ' ']
}

/// The text of one summand `c * k`.
pub open spec fn term_text(k: u64, c: int) -> Seq<char> {
    if c == 1 {
        decimal(k as nat)
    } else if c == modulus() - 1 {
        seq!['-'] + decimal(k as nat)
    } else {
        fe_text(c) + seq![' ', '*', ' '] + decimal(k as nat)
    }
}

/// The text of the summands of a coefficient list.
pub open spec fn terms_texts(nz: Seq<Term>) -> Seq<Seq<char>> {
    nz.map_values(|e: Term| term_text(e.0, e.1.val()))
}

/// The text of an affine expression with nonzero coefficients `nz` and the offset:
/// the summands joined by ` + `, the offset last and only if nonzero; a constant is
/// written as its value.
pub open spec fn affine_text(nz: Seq<Term>, offset: int) -> Seq<char> {
    if nz.len() == 0 {
        fe_text(offset)
    } else if offset != 0 {
        join_with(terms_texts(nz).push(fe_text(offset)), plus_sep())
    } else {
        join_with(terms_texts(nz), plus_sep())
    }
}

/// Appends the text of the summand `c * k`.
fn write_term(out: &mut String, k: u64, c: GoldilocksField)
    requires
        c.wf(),
    ensures
        final(out)@ == old(out)@ + term_text(k, c.val()),
{
    if c.is_one() {
        push_decimal(out, k);
    } else if c.is_minus_one() {
        string_push(out, '-');
        push_decimal(out, k);
    } else {
        c.write_to(out);
        string_push(out, ' ');
        string_push(out, '*');
        string_push(out, ' ');
        push_decimal(out, k);
    }
    proof {
        assert(final(out)@ =~= old(out)@ + term_text(k, c.val()));
    }
}

/// Appends ` + `.
fn write_plus(out: &mut String)
    ensures
        final(out)@ == old(out)@ + plus_sep(),
{
    string_push(out, ' ');
    string_push(out, '+');
    string_push(out, ' ');
    proof {
        assert(final(out)@ =~= old(out)@ + plus_sep());
    }
}

/// `-1 * x == -x`.
proof fn lemma_mul_minus_one(x: int)
    requires
        0 <= x < modulus(),
    ensures
        fe_mul(modulus() - 1, x) == fe_neg(x),
{
    let p = modulus();
    assert((p - 1) * x == p * x + (-x)) by (nonlinear_arith);
    vstd::arithmetic::div_mod::lemma_mod_multiples_vanish(x, -x, p);
    lemma_mod_add_multiples_vanish(-x, p);
}

impl AffineExpression {
    /// The text of the expression: nonzero summands as `k`, `-k` or `c * k`, joined
    /// by ` + `, followed by the offset if it is nonzero; a constant is its value.
    pub fn to_string(&self) -> (r: String)
        requires
            self.wf(),
        ensures
            r@ == affine_text(self.spec_nonzero(), self.offset_fe().val()),
    {
        let nz = self.nonzero_coefficients();
        if nz.len() == 0 {
            return self.offset.to_string();
        }
        let mut out = String::new();
        let n = nz.len();
        let ghost texts = terms_texts(nz@);
        for i in 0..n
            invariant
                n == nz@.len(),
                n > 0,
                all_wf(nz@),
                texts == terms_texts(nz@),
                out@ == join_with(texts.subrange(0, i as int), plus_sep()),
        {
            proof {
                assert(texts.subrange(0, i + 1) =~= texts.subrange(0, i as int).push(texts[i as int]));
                lemma_join_push(texts.subrange(0, i as int), texts[i as int], plus_sep());
                assert(nz@[i as int].1.wf());
            }
            if i > 0 {
                write_plus(&mut out);
            } else {
                proof {
                    assert(join_with(texts.subrange(0, 0), plus_sep()) =~= Seq::<char>::empty());
                    assert(out@ =~= Seq::<char>::empty());
                }
            }
            write_term(&mut out, nz[i].0, nz[i].1);
            proof {
                if i == 0 {
                    assert(out@ =~= texts[0]);
                }
            }
        }
        proof {
            assert(texts.subrange(0, n as int) =~= texts);
        }
        if !self.offset.is_zero() {
            write_plus(&mut out);
            self.offset.write_to(&mut out);
            proof {
                lemma_join_push(texts, fe_text(self.offset.val()), plus_sep());
                assert(out@ =~= join_with(texts.push(fe_text(self.offset.val())), plus_sep()));
            }
        }
        out
    }

    /// Solves `self = 0` if the expression has a single variable with nonzero
    /// coefficient: the result assigns the value that makes the expression zero. With
    /// several variables the result is incomplete; a constant is either trivially
    /// satisfied or unsatisfiable.
    pub fn solve(&self) -> (r: Result<EvalValue, EvalError>)
        requires
            self.wf(),
        ensures
            solve_spec(self.spec_nonzero(), self.offset_fe(), r),
        decreases
            if self.is_marked_clean() {
                0int
            } else {
                1int
            },
    {
        if !self.clean {
            let c = self.clean();
            return c.solve();
        }
        let n = self.coefficients.len();
        if n == 1 {
            let (i, c) = self.coefficients[0];
            proof {
                assert(self.coefficients@[0].1.wf());
                assert(self.coefficients@[0].1.0 != 0);
                lemma_fe_basics(self.offset.val());
            }
            let value = if c.is_one() {
                proof {
                    lemma_fe_basics(fe_neg(self.offset.val()));
                    assert(fe_mul(1, fe_neg(self.offset.val())) == fe_neg(self.offset.val())) by {
                        vstd::arithmetic::div_mod::lemma_small_mod(
                            fe_neg(self.offset.val()) as nat,
                            modulus() as nat,
                        );
                    }
                    assert(fe_add(fe_neg(self.offset.val()), self.offset.val()) == fe_add(
                        self.offset.val(),
                        fe_neg(self.offset.val()),
                    ));
                }
                self.offset.neg()
            } else if c.is_minus_one() {
                proof {
                    lemma_mul_minus_one(self.offset.val());
                    assert(fe_add(fe_neg(self.offset.val()), self.offset.val()) == fe_add(
                        self.offset.val(),
                        fe_neg(self.offset.val()),
                    ));
                }
                self.offset
            } else {
                let v = self.offset.neg().div(c);
                proof {
                    assert(fe_mul(v.val(), c.val()) == fe_mul(c.val(), v.val())) by {
                        vstd::arithmetic::mul::lemma_mul_is_commutative(v.val(), c.val());
                    }
                    assert(fe_add(fe_neg(self.offset.val()), self.offset.val()) == fe_add(
                        self.offset.val(),
                        fe_neg(self.offset.val()),
                    ));
                }
                v
            };
            let mut constraints = Vec::new();
            constraints.push((i, Constraint::Assignment(value)));
            Ok(EvalValue::complete(constraints))
        } else if n >= 2 {
            Ok(EvalValue::incomplete(IncompleteCause::MultipleLinearSolutions))
        } else if self.offset.is_zero() {
            Ok(EvalValue::complete(Vec::new()))
        } else {
            Err(EvalError::ConstraintUnsatisfiable(self.to_string()))
        }
    }
}

/// What `solve` returns for nonzero coefficients `nz` and offset `o`.
pub open spec fn solve_spec(nz: Seq<Term>, o: GoldilocksField, r: Result<EvalValue, EvalError>) -> bool {
    if nz.len() == 0 {
        if o.0 == 0 {
            r matches Ok(v) && v.constraints@.len() == 0 && v.status == EvalStatus::Complete
        } else {
            r matches Err(EvalError::ConstraintUnsatisfiable(s)) && s@ == fe_text(o.val())
        }
    } else if nz.len() == 1 {
        &&& r matches Ok(v)
        &&& v.status == EvalStatus::Complete
        &&& v.constraints@.len() == 1
        &&& v.constraints@[0].0 == nz[0].0
        &&& v.constraints@[0].1 matches Constraint::Assignment(x)
        &&& x.wf()
        &&& fe_add(fe_mul(nz[0].1.val(), x.val()), o.val()) == 0
    } else {
        &&& r matches Ok(v)
        &&& v.constraints@.len() == 0
        &&& v.status == EvalStatus::Incomplete(IncompleteCause::MultipleLinearSolutions)
    }
}

// ---------------------------------------------------------------------------
// Solving with range constraints
// ---------------------------------------------------------------------------
/// Outcome of matching `dividend = remainder + divisor * quotient`: no match, a
/// contradiction with the range constraints, or the values of quotient and remainder.
pub enum DivisionOutcome {
    NoMatch,
    Conflict,
    /// Quotient variable and value, remainder variable and value.
    Solved(u64, u64, u64, u64),
}

/// The division-with-remainder pattern on a clean list with two entries, one of them
/// with coefficient one (the remainder), and the offset: both variables must have
/// known range constraints, the remainder must be below the divisor and the
/// combination must not overflow the field.
pub open spec fn division_outcome<R: RangeConstraintSet>(
    t: Seq<Term>,
    o: GoldilocksField,
    known: &R,
) -> DivisionOutcome {
    if t.len() != 2 || (t[0].1.0 != 1 && t[1].1.0 != 1) {
        DivisionOutcome::NoMatch
    } else {
        let first_one = t[0].1.0 == 1;
        let divisor: u64 = if first_one { t[1].1.0 } else { t[0].1.0 };
        let quotient = if first_one { t[1].0 } else { t[0].0 };
        let remainder = if first_one { t[0].0 } else { t[1].0 };
        let dividend: u64 = fe_neg(o.val()) as u64;
        match known.constraint_of(remainder) {
            None => DivisionOutcome::NoMatch,
            Some(rr) => if rr.min.0 > rr.max.0 || rr.max.0 >= divisor {
                DivisionOutcome::NoMatch
            } else {
                match known.constraint_of(quotient) {
                    None => DivisionOutcome::NoMatch,
                    Some(rq) => if rq.min.0 > rq.max.0 || rq.max.0 * divisor + rr.max.0
                        >= modulus() {
                        DivisionOutcome::NoMatch
                    } else {
                        let qv = dividend / divisor;
                        let rv = dividend % divisor;
                        if qv < rq.min.0 || qv > rq.max.0 || rv < rr.min.0 || rv > rr.max.0 {
                            DivisionOutcome::Conflict
                        } else {
                            DivisionOutcome::Solved(quotient, qv, remainder, rv)
                        }
                    },
                }
            },
        }
    }
}

/// The result of the division step for a given outcome.
pub open spec fn division_matches(
    out: DivisionOutcome,
    r: Option<Result<EvalValue, EvalError>>,
) -> bool {
    match out {
        DivisionOutcome::NoMatch => r is None,
        DivisionOutcome::Conflict => r == Some(
            Err::<EvalValue, EvalError>(EvalError::ConflictingRangeConstraints),
        ),
        DivisionOutcome::Solved(q, qv, rem, rv) => {
            &&& r matches Some(Ok(v))
            &&& v.status == EvalStatus::Complete
            &&& v.constraints@ == seq![
                (q, Constraint::Assignment(GoldilocksField(qv))),
                (rem, Constraint::Assignment(GoldilocksField(rv))),
            ]
        },
    }
}

/// The variables of the list without a known range constraint, in order.
pub open spec fn unconstrained_keys<R: RangeConstraintSet>(t: Seq<Term>, known: &R) -> Seq<u64>
    decreases t.len(),
{
    if t.len() == 0 {
        seq![]
    } else {
        let r = unconstrained_keys(t.drop_last(), known);
        if known.constraint_of(t.last().0) is None {
            r.push(t.last().0)
        } else {
            r
        }
    }
}

/// The bit mask of `coefficient * variable` under the variable's known constraint.
pub open spec fn term_mask<R: RangeConstraintSet>(e: Term, known: &R) -> u64 {
    spec_multiple(known.constraint_of(e.0).unwrap(), e.1.val()).mask
}

/// Walking the first `i` entries with disjoint bit masks: whether two masks overlapped,
/// the bits covered so far, the bits of the offset not yet covered, and the values
/// assigned so far (the offset bits under a mask, divided by the coefficient).
pub open spec fn bits_walk<R: RangeConstraintSet>(
    t: Seq<Term>,
    i: nat,
    start: u64,
    known: &R,
) -> (bool, u64, u64, Seq<(u64, u64)>)
    decreases i,
{
    if i == 0 || i > t.len() {
        (false, 0, start, seq![])
    } else {
        let (ov, cov, off, asg) = bits_walk(t, (i - 1) as nat, start, known);
        if ov {
            (true, cov, off, asg)
        } else {
            let e = t[i - 1];
            let m = term_mask(e, known);
            if m & cov != 0 {
                (true, cov, off, asg)
            } else {
                (false, cov | m, off & !m, asg.push((e.0, (off & m) / e.1.0)))
            }
        }
    }
}

/// Assignments as constraints.
pub open spec fn assignments_of(a: Seq<(u64, u64)>) -> Seq<(u64, Constraint)> {
    a.map_values(|x: (u64, u64)| (x.0, Constraint::Assignment(GoldilocksField(x.1))))
}

/// The result of solving through bit constraints.
pub open spec fn bits_matches<R: RangeConstraintSet>(
    t: Seq<Term>,
    o: GoldilocksField,
    known: &R,
    r: Result<EvalValue, EvalError>,
) -> bool {
    let unc = unconstrained_keys(t, known);
    let (ov, cov, off, asg) = bits_walk(t, t.len(), fe_neg(o.val()) as u64, known);
    if unc.len() > 0 {
        &&& r matches Ok(v)
        &&& v.constraints@.len() == 0
        &&& v.status matches EvalStatus::Incomplete(IncompleteCause::BitUnconstrained(x))
        &&& x@ == unc
    } else if ov {
        &&& r matches Ok(v)
        &&& v.constraints@.len() == 0
        &&& v.status == EvalStatus::Incomplete(IncompleteCause::OverlappingBitConstraints)
    } else if off != 0 {
        r == Err::<EvalValue, EvalError>(EvalError::ConflictingRangeConstraints)
    } else {
        &&& r matches Ok(v)
        &&& v.status == EvalStatus::Complete
        &&& v.constraints@ == assignments_of(asg)
    }
}

/// Whether solving through bit constraints decides the equation (a contradiction or
/// values for all variables).
pub open spec fn bits_decide<R: RangeConstraintSet>(
    t: Seq<Term>,
    o: GoldilocksField,
    known: &R,
) -> bool {
    unconstrained_keys(t, known).len() == 0 && !bits_walk(
        t,
        t.len(),
        fe_neg(o.val()) as u64,
        known,
    ).0
}

/// The width of the known constraint of `k`, the field size if there is none.
pub open spec fn width_of<R: RangeConstraintSet>(known: &R, k: u64) -> int {
    match known.constraint_of(k) {
        Some(c) => range_width_of(c.min.val(), c.max.val()),
        None => modulus(),
    }
}

/// Whether the coefficient is one or minus one.
pub open spec fn is_unit(c: GoldilocksField) -> bool {
    c.0 == 1 || c.0 == P - 1
}

/// Among the first `n` entries with coefficient one or minus one, the index of the
/// last one whose variable is least constrained; `-1` if there is none.
pub open spec fn best_unit<R: RangeConstraintSet>(t: Seq<Term>, n: nat, known: &R) -> int
    decreases n,
{
    if n == 0 || n > t.len() {
        -1
    } else {
        let b = best_unit(t, (n - 1) as nat, known);
        if !is_unit(t[n - 1].1) {
            b
        } else if b < 0 || width_of(known, t[n - 1].0) >= width_of(known, t[b].0) {
            n - 1
        } else {
            b
        }
    }
}

/// The constraints of `coefficient * variable` for the first `n` entries except the
/// variable `skip`; none if one of them has no known constraint.
pub open spec fn summands<R: RangeConstraintSet>(
    t: Seq<Term>,
    n: nat,
    skip: u64,
    known: &R,
) -> Option<Seq<RangeConstraint>>
    decreases n,
{
    if n == 0 || n > t.len() {
        Some(seq![])
    } else {
        match summands(t, (n - 1) as nat, skip, known) {
            None => None,
            Some(s) => if t[n - 1].0 == skip {
                Some(s)
            } else {
                match known.constraint_of(t[n - 1].0) {
                    None => None,
                    Some(c) => Some(s.push(spec_multiple(c, t[n - 1].1.val()))),
                }
            },
        }
    }
}

/// The constraint of a sum, folding from the left.
pub open spec fn sum_all(s: Seq<RangeConstraint>) -> RangeConstraint
    decreases s.len(),
{
    if s.len() <= 1 {
        s[0]
    } else {
        spec_combine_sum(sum_all(s.drop_last()), s.last())
    }
}

/// The constraint transferred to the least constrained variable with coefficient one
/// or minus one from the other summands, unless it adds nothing to what is known.
pub open spec fn transfer_spec<R: RangeConstraintSet>(
    t: Seq<Term>,
    o: GoldilocksField,
    known: &R,
) -> Option<(u64, RangeConstraint)> {
    let b = best_unit(t, t.len(), known);
    if b < 0 {
        None
    } else {
        let k = t[b].0;
        let c = t[b].1;
        match summands(t, t.len(), k, known) {
            None => None,
            Some(s0) => {
                let s = if o.0 != 0 {
                    s0.push(rc(o.0, o.val(), o.val()))
                } else {
                    s0
                };
                if s.len() == 0 {
                    None
                } else {
                    let sum = sum_all(s);
                    let con = if c.0 == 1 {
                        spec_from_range(fe_neg(sum.max.val()), fe_neg(sum.min.val()))
                    } else {
                        sum
                    };
                    match known.constraint_of(k) {
                        Some(prev) => if spec_conjunction(prev, con) == prev {
                            None
                        } else {
                            Some((k, con))
                        },
                        None => Some((k, con)),
                    }
                }
            },
        }
    }
}

/// The range constraints derived from the transfers of an equation and its negation.
pub open spec fn transfer_pair(
    a: Option<(u64, RangeConstraint)>,
    b: Option<(u64, RangeConstraint)>,
) -> Seq<(u64, RangeConstraint)> {
    match (a, b) {
        (None, None) => seq![],
        (Some(x), None) => seq![x],
        (None, Some(y)) => seq![y],
        (Some(x), Some(y)) => if x.0 == y.0 {
            seq![(x.0, spec_conjunction(x.1, y.1))]
        } else {
            seq![x, y]
        },
    }
}

/// The result of solving with range constraints, for the nonzero coefficients `t` and
/// the offset `o`: direct solving for at most one variable; otherwise the division
/// pattern on the equation and on its negation, then bit constraints on both, then
/// transferring range constraints.
pub open spec fn range_solve_matches<R: RangeConstraintSet>(
    t: Seq<Term>,
    o: GoldilocksField,
    known: &R,
    r: Result<EvalValue, EvalError>,
) -> bool {
    if t.len() <= 1 {
        solve_spec(t, o, r)
    } else {
        let nt = spec_neg_terms(t);
        let no = GoldilocksField(fe_neg(o.val()) as u64);
        let d1 = division_outcome(t, o, known);
        let d2 = division_outcome(nt, no, known);
        if !(d1 is NoMatch) {
            division_matches(d1, Some(r))
        } else if !(d2 is NoMatch) {
            division_matches(d2, Some(r))
        } else if bits_decide(t, o, known) {
            bits_matches(t, o, known, r)
        } else if bits_decide(nt, no, known) {
            bits_matches(nt, no, known, r)
        } else {
            let cs = transfer_pair(transfer_spec(t, o, known), transfer_spec(nt, no, known));
            if cs.len() == 0 {
                &&& r matches Ok(v)
                &&& v.constraints@.len() == 0
                &&& v.status == EvalStatus::Incomplete(IncompleteCause::NoProgressTransferring)
            } else {
                &&& r matches Ok(v)
                &&& v.status == EvalStatus::Incomplete(IncompleteCause::NotConcrete)
                &&& v.constraints@ == cs.map_values(
                    |x: (u64, RangeConstraint)| (x.0, Constraint::RangeConstraint(x.1)),
                )
            }
        }
    }
}

/// Once two masks overlapped, the walk stays overlapped; without overlap, one value
/// was assigned per entry.
proof fn lemma_bits_walk_mono<R: RangeConstraintSet>(
    t: Seq<Term>,
    i: nat,
    j: nat,
    start: u64,
    known: &R,
)
    requires
        i <= j <= t.len(),
    ensures
        bits_walk(t, i, start, known).0 ==> bits_walk(t, j, start, known).0,
        !bits_walk(t, i, start, known).0 ==> bits_walk(t, i, start, known).3.len() == i,
    decreases j,
{
    if i < j {
        lemma_bits_walk_mono(t, i, (j - 1) as nat, start, known);
        let prev = bits_walk(t, (j - 1) as nat, start, known);
        if prev.0 {
            assert(bits_walk(t, j, start, known).0);
        }
    } else if i > 0 {
        lemma_bits_walk_mono(t, (i - 1) as nat, (i - 1) as nat, start, known);
        let prev = bits_walk(t, (i - 1) as nat, start, known);
        let cur = bits_walk(t, i, start, known);
        if !cur.0 {
            assert(!prev.0);
            assert(prev.3.len() == i - 1);
            let x = (t[i - 1].0, (prev.2 & term_mask(t[i - 1], known)) / t[i - 1].1.0);
            assert(cur.3 == prev.3.push(x));
            vstd::seq::axiom_seq_push_len(prev.3, x);
        }
    } else {
        assert(bits_walk(t, 0, start, known).3.len() == 0);
    }
}

impl AffineExpression {
    /// A copy of the expression.
    pub fn clone(&self) -> (r: Self)
        requires
            self.wf(),
        ensures
            r.wf(),
            r.terms() == self.terms(),
            r.offset_fe() == self.offset_fe(),
            r.is_marked_clean() == self.is_marked_clean(),
    {
        AffineExpression {
            coefficients: copy_terms(&self.coefficients),
            offset: self.offset,
            clean: self.clean,
        }
    }

    /// Tries to read the equation as `dividend = remainder + divisor * quotient`.
    fn try_solve_division<R: RangeConstraintSet>(&self, known: &R) -> (r: Option<
        Result<EvalValue, EvalError>,
    >)
        requires
            self.wf(),
            self.is_marked_clean(),
        ensures
            division_matches(division_outcome(self.terms(), self.offset_fe(), known), r),
    {
        if self.coefficients.len() != 2 {
            return None;
        }
        let first = self.coefficients[0];
        let second = self.coefficients[1];
        if !first.1.is_one() && !second.1.is_one() {
            return None;
        }
        proof {
            assert(self.coefficients@[0].1.wf() && self.coefficients@[1].1.wf());
            assert(self.coefficients@[0].1.0 != 0 && self.coefficients@[1].1.0 != 0);
        }
        let dividend = self.offset.neg();
        let (divisor, quotient, remainder) = if first.1.is_one() {
            (second.1, second.0, first.0)
        } else {
            (first.1, first.0, second.0)
        };
        let rr = match known.range_constraint(remainder) {
            None => {
                return None;
            },
            Some(c) => c,
        };
        let (rlo, rhi) = rr.range();
        if rlo.0 > rhi.0 || rhi.0 >= divisor.0 {
            return None;
        }
        let rq = match known.range_constraint(quotient) {
            None => {
                return None;
            },
            Some(c) => c,
        };
        let (qlo, qhi) = rq.range();
        let upper: u128 = wide_mul(qhi.0, divisor.0) + rhi.0 as u128;
        if qlo.0 > qhi.0 || upper >= P as u128 {
            return None;
        }
        let qv = dividend.0 / divisor.0;
        let rv = dividend.0 % divisor.0;
        if qv < qlo.0 || qv > qhi.0 || rv < rlo.0 || rv > rhi.0 {
            Some(Err(EvalError::ConflictingRangeConstraints))
        } else {
            let mut cs = Vec::new();
            cs.push((quotient, Constraint::Assignment(GoldilocksField(qv))));
            cs.push((remainder, Constraint::Assignment(GoldilocksField(rv))));
            proof {
                assert(cs@ =~= seq![
                    (quotient, Constraint::Assignment(GoldilocksField(qv))),
                    (remainder, Constraint::Assignment(GoldilocksField(rv))),
                ]);
            }
            Some(Ok(EvalValue::complete(cs)))
        }
    }

    /// Tries to determine all variables from disjoint bit constraints: each variable
    /// takes the bits of the offset under its mask.
    fn try_solve_through_constraints<R: RangeConstraintSet>(&self, known: &R) -> (r: Result<
        EvalValue,
        EvalError,
    >)
        requires
            self.wf(),
            self.is_marked_clean(),
        ensures
            bits_matches(self.terms(), self.offset_fe(), known, r),
    {
        let ghost t = self.coefficients@;
        let n = self.coefficients.len();
        let mut unconstrained: Vec<u64> = Vec::new();
        for i in 0..n
            invariant
                n == t.len(),
                t == self.coefficients@,
                unconstrained@ == unconstrained_keys(t.subrange(0, i as int), known),
        {
            let k = self.coefficients[i].0;
            proof {
                assert(t.subrange(0, i + 1).drop_last() =~= t.subrange(0, i as int));
            }
            if known.range_constraint(k).is_none() {
                unconstrained.push(k);
            }
        }
        proof {
            assert(t.subrange(0, n as int) =~= t);
        }
        if unconstrained.len() > 0 {
            return Ok(EvalValue::incomplete(IncompleteCause::BitUnconstrained(unconstrained)));
        }
        proof {
            lemma_all_constrained(t, known);
        }
        let start = self.offset.neg().0;
        let mut covered: u64 = 0;
        let mut offset: u64 = start;
        let mut assignments: Vec<(u64, Constraint)> = Vec::new();
        for i in 0..n
            invariant
                n == t.len(),
                t == self.coefficients@,
                all_wf(t),
                is_clean(t),
                start == fe_neg(self.offset.val()) as u64,
                unconstrained_keys(t, known).len() == 0,
                forall|j: int| 0 <= j < n ==> known.constraint_of(#[trigger] t[j].0) is Some,
                bits_walk(t, i as nat, start, known) == (
                    false,
                    covered,
                    offset,
                    bits_walk(t, i as nat, start, known).3,
                ),
                assignments@ == assignments_of(bits_walk(t, i as nat, start, known).3),
        {
            let (k, coeff) = self.coefficients[i];
            proof {
                assert(t[i as int].1.wf() && t[i as int].1.0 != 0);
                assert(known.constraint_of(t[i as int].0) is Some);
            }
            let c = known.range_constraint(k).unwrap();
            let mask = c.multiple(coeff).mask();
            proof {
                assert(mask == term_mask(t[i as int], known));
            }
            if mask & covered != 0 {
                proof {
                    assert(bits_walk(t, (i + 1) as nat, start, known).0);
                    lemma_bits_walk_mono(t, (i + 1) as nat, n as nat, start, known);
                }
                return Ok(EvalValue::incomplete(IncompleteCause::OverlappingBitConstraints));
            }
            covered = covered | mask;
            let value = (offset & mask) / coeff.0;
            assignments.push((k, Constraint::Assignment(GoldilocksField(value))));
            offset = offset & !mask;
            proof {
                assert(assignments@ =~= assignments_of(bits_walk(t, (i + 1) as nat, start, known).3));
            }
        }
        if offset != 0 {
            Err(EvalError::ConflictingRangeConstraints)
        } else {
            Ok(EvalValue::complete(assignments))
        }
    }
}

impl AffineExpression {
    /// Tries to transfer range constraints to the least constrained variable with
    /// coefficient one or minus one, from the constraints of all other summands.
    fn try_transfer_constraints<R: RangeConstraintSet>(&self, known: &R) -> (r: Option<
        (u64, RangeConstraint),
    >)
        requires
            self.wf(),
            self.is_marked_clean(),
        ensures
            r == transfer_spec(self.terms(), self.offset_fe(), known),
            r matches Some(x) ==> x.1.wf(),
    {
        let ghost t = self.coefficients@;
        let n = self.coefficients.len();
        let mut best: Option<usize> = None;
        let mut best_width: u64 = 0;
        for i in 0..n
            invariant
                n == t.len(),
                t == self.coefficients@,
                all_wf(t),
                best is None <==> best_unit(t, i as nat, known) < 0,
                best matches Some(b) ==> b == best_unit(t, i as nat, known) && b < i && best_width
                    == width_of(known, t[b as int].0),
        {
            let (k, c) = self.coefficients[i];
            proof {
                assert(t[i as int].1.wf());
            }
            if c.is_one() || c.is_minus_one() {
                let w = match known.range_constraint(k) {
                    Some(con) => con.range_width(),
                    None => P,
                };
                let replace = match best {
                    None => true,
                    Some(_) => w >= best_width,
                };
                if replace {
                    best = Some(i);
                    best_width = w;
                }
            }
        }
        let b = match best {
            None => {
                return None;
            },
            Some(b) => b,
        };
        let (solve_for, solve_for_coefficient) = self.coefficients[b];
        let mut parts: Vec<RangeConstraint> = Vec::new();
        for i in 0..n
            invariant
                n == t.len(),
                t == self.coefficients@,
                all_wf(t),
                b < n,
                b as int == best_unit(t, n as nat, known),
                solve_for == t[b as int].0,
                summands(t, i as nat, solve_for, known) == Some(parts@),
                forall|j: int| 0 <= j < parts@.len() ==> (#[trigger] parts@[j]).wf(),
        {
            let (k, c) = self.coefficients[i];
            proof {
                assert(t[i as int].1.wf());
            }
            if k != solve_for {
                match known.range_constraint(k) {
                    None => {
                        proof {
                            assert(known.constraint_of(t[i as int].0) is None);
                            assert(summands(t, (i + 1) as nat, solve_for, known) is None);
                            lemma_summands_none(t, (i + 1) as nat, n as nat, solve_for, known);
                            assert(best_unit(t, t.len(), known) == b);
                            assert(t[b as int].0 == solve_for);
                            assert(summands(t, t.len(), solve_for, known) is None);
                            assert(transfer_spec(t, self.offset, known) is None);
                        }
                        return None;
                    },
                    Some(con) => {
                        parts.push(con.multiple(c));
                    },
                }
            }
        }
        if !self.offset.is_zero() {
            parts.push(RangeConstraint::from_value(self.offset));
        }
        if parts.len() == 0 {
            return None;
        }
        let mut constraint = parts[0];
        let m = parts.len();
        for j in 1..m
            invariant
                m == parts@.len(),
                m > 0,
                forall|x: int| 0 <= x < parts@.len() ==> (#[trigger] parts@[x]).wf(),
                constraint == sum_all(parts@.subrange(0, j as int)),
                constraint.wf(),
        {
            proof {
                assert(parts@.subrange(0, j + 1).drop_last() =~= parts@.subrange(0, j as int));
            }
            constraint = constraint.combine_sum(&parts[j]);
        }
        proof {
            assert(parts@.subrange(0, m as int) =~= parts@);
            assert(parts@.subrange(0, 1).len() == 1);
        }
        if solve_for_coefficient.is_one() {
            constraint = constraint.neg();
        }
        match known.range_constraint(solve_for) {
            Some(previous) => {
                if previous.conjunction(&constraint) == previous {
                    return None;
                }
            },
            None => {},
        }
        Some((solve_for, constraint))
    }

    /// Tries to solve `self = 0` using known range constraints: directly if there is a
    /// single variable; otherwise through the division-with-remainder pattern, through
    /// disjoint bit constraints, and finally by transferring range constraints to a
    /// variable from the other summands.
    pub fn solve_with_range_constraints<R: RangeConstraintSet>(&self, known: &R) -> (r: Result<
        EvalValue,
        EvalError,
    >)
        requires
            self.wf(),
        ensures
            range_solve_matches(self.spec_nonzero(), self.offset_fe(), known, r),
        decreases
            if self.is_marked_clean() {
                0int
            } else {
                1int
            },
    {
        if !self.clean {
            let c = self.clean();
            return c.solve_with_range_constraints(known);
        }
        match self.solve() {
            Err(e) => {
                return Err(e);
            },
            Ok(v) => {
                if v.is_complete() {
                    return Ok(v);
                }
            },
        }
        let negated = self.clone().neg();
        proof {
            lemma_fe_basics(self.offset.val());
            assert(negated.offset_fe() == GoldilocksField(fe_neg(self.offset.val()) as u64));
        }
        match self.try_solve_division(known) {
            Some(Err(e)) => {
                return Err(e);
            },
            Some(Ok(res)) => {
                if !res.is_empty() {
                    return Ok(res);
                }
            },
            None => {},
        }
        match negated.try_solve_division(known) {
            Some(Err(e)) => {
                return Err(e);
            },
            Some(Ok(res)) => {
                if !res.is_empty() {
                    return Ok(res);
                }
            },
            None => {},
        }
        let ghost t = self.coefficients@;
        proof {
            lemma_bits_walk_mono(t, t.len(), t.len(), fe_neg(self.offset.val()) as u64, known);
            lemma_bits_walk_mono(
                spec_neg_terms(t),
                t.len(),
                t.len(),
                fe_neg(negated.offset.val()) as u64,
                known,
            );
        }
        match self.try_solve_through_constraints(known) {
            Err(e) => {
                return Err(e);
            },
            Ok(res) => {
                if !res.is_empty() {
                    return Ok(res);
                }
            },
        }
        match negated.try_solve_through_constraints(known) {
            Err(e) => {
                return Err(e);
            },
            Ok(res) => {
                if !res.is_empty() {
                    return Ok(res);
                }
            },
        }
        let a = self.try_transfer_constraints(known);
        let b = negated.try_transfer_constraints(known);
        let mut constraints: Vec<(u64, Constraint)> = Vec::new();
        match (a, b) {
            (None, None) => {},
            (Some((p, c)), None) => {
                constraints.push((p, Constraint::RangeConstraint(c)));
            },
            (None, Some((p, c))) => {
                constraints.push((p, Constraint::RangeConstraint(c)));
            },
            (Some((p1, c1)), Some((p2, c2))) => {
                if p1 == p2 {
                    constraints.push((p1, Constraint::RangeConstraint(c1.conjunction(&c2))));
                } else {
                    constraints.push((p1, Constraint::RangeConstraint(c1)));
                    constraints.push((p2, Constraint::RangeConstraint(c2)));
                }
            },
        }
        proof {
            let cs = transfer_pair(
                transfer_spec(t, self.offset_fe(), known),
                transfer_spec(negated.terms(), negated.offset_fe(), known),
            );
            assert(constraints@ =~= cs.map_values(
                |x: (u64, RangeConstraint)| (x.0, Constraint::RangeConstraint(x.1)),
            ));
        }
        if constraints.len() == 0 {
            Ok(EvalValue::incomplete(IncompleteCause::NoProgressTransferring))
        } else {
            Ok(EvalValue::incomplete_with_constraints(constraints, IncompleteCause::NotConcrete))
        }
    }
}

/// A missing constraint in a prefix makes all longer summand lists missing too.
proof fn lemma_summands_none<R: RangeConstraintSet>(
    t: Seq<Term>,
    i: nat,
    j: nat,
    skip: u64,
    known: &R,
)
    requires
        i <= j <= t.len(),
        summands(t, i, skip, known) is None,
    ensures
        summands(t, j, skip, known) is None,
    decreases j,
{
    if i < j {
        lemma_summands_none(t, i, (j - 1) as nat, skip, known);
    }
}

/// Without unconstrained variables, every variable has a known constraint.
proof fn lemma_all_constrained<R: RangeConstraintSet>(t: Seq<Term>, known: &R)
    requires
        unconstrained_keys(t, known).len() == 0,
    ensures
        forall|j: int| 0 <= j < t.len() ==> known.constraint_of(#[trigger] t[j].0) is Some,
    decreases t.len(),
{
    if t.len() > 0 {
        lemma_all_constrained(t.drop_last(), known);
        assert forall|j: int| 0 <= j < t.len() implies known.constraint_of(#[trigger] t[j].0) is Some by {
            if j < t.len() - 1 {
                assert(t.drop_last()[j] == t[j]);
            }
        }
    }
}

/// The cleaned form of two terms denotes the same linear form and is clean.
proof fn lemma_clean_two(a: Term, b: Term)
    requires
        a.1.wf(),
        b.1.wf(),
    ensures
        is_clean(spec_clean_two(a, b)),
        all_wf(spec_clean_two(a, b)),
        same_coeffs(spec_clean_two(a, b), seq![a, b]),
{
    let r = spec_clean_two(a, b);
    let p = modulus();
    assert(seq![a, b] =~= seq![a] + seq![b]);
    assert forall|k: u64| coeff_of(r, k) == coeff_of(seq![a, b], k) by {
        lemma_coeff_sum_append(seq![a], seq![b], k);
        lemma_coeff_sum_single(a, k);
        lemma_coeff_sum_single(b, k);
        let ca = if a.0 == k { a.1.val() } else { 0 };
        let cb = if b.0 == k { b.1.val() } else { 0 };
        assert(coeff_sum(seq![a, b], k) == ca + cb);
        assert(coeff_sum(Seq::<Term>::empty(), k) == 0);
        if a.1.0 == 0 {
            if b.1.0 == 0 {
                assert(r =~= Seq::<Term>::empty());
            } else {
                assert(r =~= seq![b]);
            }
        } else if b.1.0 == 0 {
            assert(r =~= seq![a]);
        } else if a.0 == b.0 {
            lemma_mod_bound(a.1.val() + b.1.val(), p);
            let m = GoldilocksField(fe_add(a.1.val(), b.1.val()) as u64);
            lemma_mod_twice(a.1.val() + b.1.val(), p);
            if m.0 == 0 {
                assert(r =~= Seq::<Term>::empty());
            } else {
                assert(r =~= seq![(a.0, m)]);
                lemma_coeff_sum_single((a.0, m), k);
            }
        } else {
            assert(r =~= seq![a, b]);
        }
    }
}

/// One step of accumulating `c * v` into the offset.
proof fn lemma_fe_step(o: int, s: int, c: int, v: int)
    ensures
        fe_add((o + s * v) % modulus(), fe_mul(c, v)) == (o + (s + c) * v) % modulus(),
{
    let p = modulus();
    lemma_add_mod_noop(o + s * v, c * v, p);
    lemma_mod_twice(o + s * v, p);
    lemma_mod_twice(c * v, p);
    lemma_add_mod_noop((o + s * v) % p, (c * v) % p, p);
    assert((s + c) * v == s * v + c * v) by (nonlinear_arith);
}

/// Zeroing the entries of `key` removes exactly its coefficient.
proof fn lemma_zero_out_sum(s: Seq<Term>, key: u64, k: u64)
    ensures
        coeff_sum(spec_zero_out(s, key), k) == if k == key {
            0
        } else {
            coeff_sum(s, k)
        },
    decreases s.len(),
{
    if s.len() > 0 {
        lemma_zero_out_sum(s.drop_last(), key, k);
        assert(spec_zero_out(s, key).drop_last() =~= spec_zero_out(s.drop_last(), key));
    }
}


// ---------------------------------------------------------------------------
// Laws
// ---------------------------------------------------------------------------
/// Adding the negation of an expression to itself gives zero: every coefficient
/// of `x + (-x)` is zero, and so is its offset.
pub proof fn law_add_negation_is_zero(s: Seq<Term>, o: GoldilocksField, k: u64)
    requires
        all_wf(s),
        o.wf(),
    ensures
        coeff_of(spec_add_terms(s, spec_neg_terms(s)), k) == 0,
        fe_add(o.val(), fe_neg(o.val())) == 0,
{
    let p = modulus();
    lemma_add_terms_sum(s, spec_neg_terms(s), k);
    lemma_neg_terms_sum(s, k);
    lemma_mod_add_congruent(coeff_sum(s, k), coeff_sum(s, k), coeff_sum(spec_neg_terms(s), k), -coeff_sum(s, k));
    assert(coeff_sum(s, k) + -coeff_sum(s, k) == 0);
    lemma_small_mod(0, p as nat);
    lemma_fe_basics(o.val());
    if o.val() == 0 {
        lemma_small_mod(0, p as nat);
    } else {
        lemma_small_mod((p - o.val()) as nat, p as nat);
        lemma_mod_self_0(p);
    }
}

/// Negating twice gives back the coefficients and the offset.
pub proof fn law_negation_involutive(s: Seq<Term>, o: GoldilocksField, k: u64)
    requires
        all_wf(s),
        o.wf(),
    ensures
        coeff_of(spec_neg_terms(spec_neg_terms(s)), k) == coeff_of(s, k),
        fe_neg(fe_neg(o.val())) == o.val(),
{
    let p = modulus();
    let n = spec_neg_terms(s);
    assert(all_wf(n)) by {
        assert forall|i: int| 0 <= i < n.len() implies (#[trigger] n[i]).1.wf() by {
            assert(s[i].1.wf());
            lemma_mod_bound(p - s[i].1.val(), p);
        }
    }
    lemma_neg_terms_sum(s, k);
    lemma_neg_terms_sum(n, k);
    // -(coeff_sum(n)) ≡ -(-(coeff_sum(s))) ≡ coeff_sum(s)
    lemma_fe_neg_of_mod(coeff_sum(n, k));
    lemma_fe_neg_of_mod(-coeff_sum(s, k));
    assert(fe_neg(coeff_sum(n, k) % p) == fe_neg((-coeff_sum(s, k)) % p));
    lemma_fe_basics(o.val());
    if o.val() == 0 {
        lemma_small_mod(0, p as nat);
        lemma_mod_self_0(p);
    } else {
        lemma_small_mod((p - o.val()) as nat, p as nat);
        lemma_small_mod(o.val() as nat, p as nat);
    }
}

/// Solving and then assigning: when the only nonzero coefficient of an expression
/// is `c` for the variable `x` and `v` solves `c * v + o = 0` (what `solve`
/// returns), assigning `v` to `x` leaves no coefficient and the offset zero.
pub proof fn law_assigning_the_solution_gives_zero(
    s: Seq<Term>,
    nz: Seq<Term>,
    o: GoldilocksField,
    v: GoldilocksField,
    k: u64,
)
    requires
        all_wf(s),
        all_wf(nz),
        o.wf(),
        v.wf(),
        same_coeffs(nz, s),
        nz.len() == 1,
        fe_add(fe_mul(nz[0].1.val(), v.val()), o.val()) == 0,
    ensures
        fe_add(o.val(), fe_mul(coeff_of(s, nz[0].0), v.val())) == 0,
        coeff_of(spec_zero_out(s, nz[0].0), k) == 0,
{
    let p = modulus();
    let x = nz[0].0;
    assert(nz =~= seq![nz[0]]);
    assert(nz[0].1.wf());
    lemma_coeff_sum_single(nz[0], x);
    lemma_coeff_sum_single(nz[0], k);
    lemma_small_mod(nz[0].1.val() as nat, p as nat);
    assert(coeff_of(nz, x) == coeff_of(s, x));
    assert(coeff_of(nz, k) == coeff_of(s, k));
    assert(coeff_of(s, x) == nz[0].1.val());
    lemma_zero_out_sum(s, x, k);
    if k != x {
        assert(coeff_sum(nz, k) == 0);
        lemma_small_mod(0, p as nat);
    } else {
        lemma_small_mod(0, p as nat);
    }
}

/// An expression marked clean has each variable once and no zero coefficient;
/// this holds of every result marked clean, sums and products included.
pub proof fn law_clean_expression_has_distinct_nonzero_terms(e: AffineExpression)
    requires
        e.wf(),
        e.is_marked_clean(),
    ensures
        forall|i: int| 0 <= i < e.terms().len() ==> (#[trigger] e.terms()[i]).1.0 != 0,
        forall|i: int, j: int|
            0 <= i < e.terms().len() && 0 <= j < e.terms().len() && i != j ==> e.terms()[i].0
                != e.terms()[j].0,
{
}

/// Solving with range constraints keeps what plain solving decides: where `solve`
/// fails, or returns a complete result, on the nonzero coefficients `t` and the
/// offset `o`, `solve_with_range_constraints` meets the same statement, whatever
/// the range constraints are.
pub proof fn law_range_solving_keeps_what_solving_decides<R: RangeConstraintSet>(
    t: Seq<Term>,
    o: GoldilocksField,
    known: &R,
    r: Result<EvalValue, EvalError>,
    plain: Result<EvalValue, EvalError>,
)
    requires
        solve_spec(t, o, plain),
        range_solve_matches(t, o, known, r),
        plain is Err || (plain matches Ok(v) && v.status == EvalStatus::Complete),
    ensures
        solve_spec(t, o, r),
{
}

// ---------------------------------------------------------------------------
// What a complete answer assigns
// ---------------------------------------------------------------------------
/// The value that the first entry for `k` among the constraints assigns to it, if
/// that entry is an assignment.
pub open spec fn assigned(cs: Seq<(u64, Constraint)>, k: u64) -> Option<int>
    decreases cs.len(),
{
    if cs.len() == 0 {
        None
    } else if cs[0].0 == k {
        match cs[0].1 {
            Constraint::Assignment(x) => Some(x.0 as int),
            _ => None,
        }
    } else {
        assigned(cs.drop_first(), k)
    }
}

/// Every variable of the coefficient list has an assigned value.
pub open spec fn assigns_all(t: Seq<Term>, cs: Seq<(u64, Constraint)>) -> bool {
    forall|i: int| 0 <= i < t.len() ==> (#[trigger] assigned(cs, t[i].0)) is Some
}

/// The value of the linear form under the assignments (unassigned variables count
/// as zero).
pub open spec fn form_value(t: Seq<Term>, cs: Seq<(u64, Constraint)>) -> int
    decreases t.len(),
{
    if t.len() == 0 {
        0
    } else {
        form_value(t.drop_last(), cs) + t.last().1.val() * match assigned(cs, t.last().0) {
            Some(v) => v,
            None => 0,
        }
    }
}

/// Each coefficient is a power of two, and the bit mask of each term lies above
/// the coefficient's own bits, so that dividing the offset bits under the mask by
/// the coefficient is exact.
pub open spec fn bits_exact<R: RangeConstraintSet>(t: Seq<Term>, known: &R) -> bool {
    forall|i: int|
        0 <= i < t.len() ==> is_power_of_two((#[trigger] t[i]).1.0 as nat) && term_mask(t[i], known) % t[i].1.0
            == 0
}

/// Whether the answer of solving with range constraints comes from the bit
/// constraints of the equation (`negated == false`) or of its negation.
pub open spec fn answered_by_bits<R: RangeConstraintSet>(t: Seq<Term>, o: GoldilocksField, known: &R, negated: bool) -> bool {
    let nt = spec_neg_terms(t);
    let no = GoldilocksField(fe_neg(o.val()) as u64);
    &&& t.len() > 1
    &&& division_outcome(t, o, known) is NoMatch
    &&& division_outcome(nt, no, known) is NoMatch
    &&& if negated {
        !bits_decide(t, o, known) && bits_decide(nt, no, known)
    } else {
        bits_decide(t, o, known)
    }
}

/// A complete answer of solving with range constraints assigns a value to every
/// variable with a nonzero coefficient, and these values make the expression zero.
/// Solving through bit constraints divides offset bits by the coefficients, which
/// is exact only when the coefficients are powers of two below the masks' bits;
/// answers of that kind are covered under that condition.
pub proof fn law_complete_solution_zeroes_expression<R: RangeConstraintSet>(
    t: Seq<Term>,
    o: GoldilocksField,
    known: &R,
    r: Result<EvalValue, EvalError>,
)
    requires
        all_wf(t),
        is_clean(t),
        o.wf(),
        range_solve_matches(t, o, known, r),
        answered_by_bits(t, o, known, false) ==> bits_exact(t, known),
        answered_by_bits(t, o, known, true) ==> bits_exact(spec_neg_terms(t), known),
    ensures
        r matches Ok(v) ==> (v.status == EvalStatus::Complete ==> assigns_all(t, v.constraints@) && (
        form_value(t, v.constraints@) + o.val()) % modulus() == 0),
{
    if let Ok(v) = r {
        if v.status != EvalStatus::Complete {
            return;
        }
        let cs = v.constraints@;
        let p = modulus();
        if t.len() == 0 {
            lemma_small_mod(0, p as nat);
        } else if t.len() == 1 {
            let x = cs[0].1->Assignment_0;
            reveal_with_fuel(assigned, 2);
            assert(assigned(cs, t[0].0) == Some(x.0 as int));
            assert(t.drop_last().len() == 0);
            assert(form_value(t.drop_last(), cs) == 0);
            assert(t.last() == t[0]);
            assert(form_value(t, cs) == t[0].1.val() * x.0);
            lemma_add_mod_noop(t[0].1.val() * x.0, o.val(), p);
            lemma_small_mod(o.val() as nat, p as nat);
        } else {
            let nt = spec_neg_terms(t);
            let no = GoldilocksField(fe_neg(o.val()) as u64);
            lemma_fe_basics(o.val());
            assert(all_wf(nt)) by {
                assert forall|i: int| 0 <= i < nt.len() implies (#[trigger] nt[i]).1.wf() by {
                    assert(t[i].1.wf());
                    lemma_fe_basics(t[i].1.val());
                }
            }
            assert(no.wf());
            let d1 = division_outcome(t, o, known);
            let d2 = division_outcome(nt, no, known);
            if !(d1 is NoMatch) {
                lemma_division_zeroes(t, o, known, cs);
            } else if !(d2 is NoMatch) {
                lemma_division_zeroes(nt, no, known, cs);
                lemma_negated_zero(t, o, cs);
            } else if bits_decide(t, o, known) {
                lemma_bits_zeroes(t, o, known, cs);
            } else if bits_decide(nt, no, known) {
                assert(is_clean_keys(nt)) by {
                    assert forall|i: int, j: int|
                        0 <= i < nt.len() && 0 <= j < nt.len() && i != j implies nt[i].0 != nt[j].0 by {
                        assert(nt[i].0 == t[i].0 && nt[j].0 == t[j].0);
                    }
                }
                lemma_bits_zeroes(nt, no, known, cs);
                lemma_negated_zero(t, o, cs);
            }
        }
    }
}

/// No variable occurs twice.
pub open spec fn is_clean_keys(t: Seq<Term>) -> bool {
    forall|i: int, j: int| 0 <= i < t.len() && 0 <= j < t.len() && i != j ==> t[i].0 != t[j].0
}

/// From a zero of the negated equation to a zero of the equation.
proof fn lemma_negated_zero(t: Seq<Term>, o: GoldilocksField, cs: Seq<(u64, Constraint)>)
    requires
        all_wf(t),
        o.wf(),
        assigns_all(spec_neg_terms(t), cs),
        (form_value(spec_neg_terms(t), cs) + fe_neg(o.val())) % modulus() == 0,
    ensures
        assigns_all(t, cs),
        (form_value(t, cs) + o.val()) % modulus() == 0,
{
    let p = modulus();
    let nt = spec_neg_terms(t);
    assert forall|i: int| 0 <= i < t.len() implies (#[trigger] assigned(cs, t[i].0)) is Some by {
        assert(nt[i].0 == t[i].0);
        assert(assigned(cs, nt[i].0) is Some);
    }
    lemma_form_neg(t, cs);
    let a = form_value(t, cs) + o.val();
    let b = form_value(nt, cs) + fe_neg(o.val());
    // o + fe_neg(o) is 0 or p.
    lemma_fe_basics(o.val());
    assert((o.val() + fe_neg(o.val())) % p == 0) by {
        if o.val() == 0 {
            lemma_small_mod(0, p as nat);
            lemma_mod_self_0(p);
        } else {
            lemma_small_mod((p - o.val()) as nat, p as nat);
            lemma_mod_self_0(p);
        }
    }
    lemma_mod_sum_zero(form_value(t, cs) + form_value(nt, cs), o.val() + fe_neg(o.val()));
    assert(a + b == (form_value(t, cs) + form_value(nt, cs)) + (o.val() + fe_neg(o.val())));
    lemma_mod_cancel(a, b);
}

/// Adding two multiples of the modulus gives a multiple.
proof fn lemma_mod_sum_zero(a: int, b: int)
    requires
        a % modulus() == 0,
        b % modulus() == 0,
    ensures
        (a + b) % modulus() == 0,
{
    let p = modulus();
    lemma_add_mod_noop(a, b, p);
    lemma_small_mod(0, p as nat);
}

/// If `a + b` and `b` are multiples of the modulus, so is `a`.
proof fn lemma_mod_cancel(a: int, b: int)
    requires
        (a + b) % modulus() == 0,
        b % modulus() == 0,
    ensures
        a % modulus() == 0,
{
    let p = modulus();
    lemma_add_mod_noop(a, b, p);
    lemma_mod_bound(a, p);
    lemma_small_mod((a % p) as nat, p as nat);
}

/// The negated coefficients give the negated value of the form.
proof fn lemma_form_neg(t: Seq<Term>, cs: Seq<(u64, Constraint)>)
    requires
        all_wf(t),
    ensures
        (form_value(spec_neg_terms(t), cs) + form_value(t, cs)) % modulus() == 0,
    decreases t.len(),
{
    let p = modulus();
    if t.len() == 0 {
        lemma_small_mod(0, p as nat);
    } else {
        let nt = spec_neg_terms(t);
        assert(nt.drop_last() =~= spec_neg_terms(t.drop_last()));
        assert(all_wf(t.drop_last())) by {
            assert forall|i: int| 0 <= i < t.drop_last().len() implies (#[trigger] t.drop_last()[i]).1.wf() by {
                assert(t.drop_last()[i] == t[i]);
            }
        }
        lemma_form_neg(t.drop_last(), cs);
        let c = t.last().1.val();
        assert(t.last().1.wf());
        let a = match assigned(cs, t.last().0) {
            Some(v) => v,
            None => 0,
        };
        assert(nt.last().0 == t.last().0);
        let rest = form_value(nt.drop_last(), cs) + form_value(t.drop_last(), cs);
        if c == 0 {
            lemma_mod_self_0(p);
            assert(fe_neg(c) == 0);
            assert(form_value(nt, cs) + form_value(t, cs) == rest);
        } else {
            lemma_small_mod((p - c) as nat, p as nat);
            assert(nt.last().1.val() == p - c);
            assert((p - c) * a + c * a == p * a) by (nonlinear_arith);
            assert(form_value(nt, cs) + form_value(t, cs) == p * a + rest);
            lemma_mod_multiples_vanish(a, rest, p);
        }
    }
}

/// Where the entries' variables are distinct and each entry assigns a value, the
/// first assignment to the variable of entry `j` is that entry's.
proof fn lemma_assigned_at(cs: Seq<(u64, Constraint)>, j: int)
    requires
        0 <= j < cs.len(),
        forall|a: int, b: int| 0 <= a < b < cs.len() ==> cs[a].0 != cs[b].0,
        cs[j].1 is Assignment,
    ensures
        assigned(cs, cs[j].0) == Some(cs[j].1->Assignment_0.0 as int),
    decreases j,
{
    if j > 0 {
        assert(cs[0].0 != cs[j].0);
        let d = cs.drop_first();
        assert forall|a: int, b: int| 0 <= a < b < d.len() implies d[a].0 != d[b].0 by {
            assert(d[a] == cs[a + 1] && d[b] == cs[b + 1]);
        }
        assert(d[j - 1] == cs[j]);
        lemma_assigned_at(d, j - 1);
    }
}

/// The division pattern: quotient times divisor plus remainder is the dividend.
#[verifier::spinoff_prover]
proof fn lemma_division_zeroes<R: RangeConstraintSet>(
    t: Seq<Term>,
    o: GoldilocksField,
    known: &R,
    cs: Seq<(u64, Constraint)>,
)
    requires
        all_wf(t),
        is_clean_keys(t),
        o.wf(),
        division_outcome(t, o, known) matches DivisionOutcome::Solved(q, qv, rem, rv) && cs == seq![
            (q, Constraint::Assignment(GoldilocksField(qv))),
            (rem, Constraint::Assignment(GoldilocksField(rv))),
        ],
    ensures
        assigns_all(t, cs),
        (form_value(t, cs) + o.val()) % modulus() == 0,
{
    let p = modulus();
    let first_one = t[0].1.0 == 1;
    let divisor: u64 = if first_one { t[1].1.0 } else { t[0].1.0 };
    let dividend: u64 = fe_neg(o.val()) as u64;
    lemma_fe_basics(o.val());
    assert(t[0].0 != t[1].0);
    let d = division_outcome(t, o, known);
    let q = d->Solved_0;
    let qv = d->Solved_1;
    let rem = d->Solved_2;
    let rv = d->Solved_3;
    assert(qv == dividend / divisor && rv == dividend % divisor);
    assert(q == (if first_one { t[1].0 } else { t[0].0 }));
    assert(rem == (if first_one { t[0].0 } else { t[1].0 }));
    assert(cs[0].0 != cs[1].0);
    lemma_assigned_at(cs, 0);
    lemma_assigned_at(cs, 1);
    assert(assigned(cs, q) == Some(qv as int));
    assert(assigned(cs, rem) == Some(rv as int));
    assert(divisor > 0);
    lemma_fundamental_div_mod(dividend as int, divisor as int);
    let t1 = t.drop_last();
    assert(t1.drop_last().len() == 0);
    assert(form_value(t1.drop_last(), cs) == 0);
    assert(t1.last() == t[0]);
    assert(t.last() == t[1]);
    assert(form_value(t1, cs) == t[0].1.val() * assigned(cs, t[0].0)->0);
    assert(form_value(t, cs) == form_value(t1, cs) + t[1].1.val() * assigned(cs, t[1].0)->0);
    let f0 = t[0].1.val();
    let f1 = t[1].1.val();
    if first_one {
        assert(assigned(cs, t[0].0) == Some(rv as int));
        assert(assigned(cs, t[1].0) == Some(qv as int));
        assert(form_value(t, cs) == f0 * rv + f1 * qv);
        assert(f0 * rv + f1 * qv == divisor * qv + rv) by (nonlinear_arith)
            requires
                f0 == 1,
                f1 == divisor,
        ;
    } else {
        assert(t[1].1.0 == 1);
        assert(assigned(cs, t[0].0) == Some(qv as int));
        assert(assigned(cs, t[1].0) == Some(rv as int));
        assert(form_value(t, cs) == f0 * qv + f1 * rv);
        assert(f0 * qv + f1 * rv == divisor * qv + rv) by (nonlinear_arith)
            requires
                f0 == divisor,
                f1 == 1,
        ;
    }
    assert(form_value(t, cs) == divisor * qv + rv);
    assert(divisor * qv + rv == dividend) by (nonlinear_arith)
        requires
            dividend == divisor * (dividend / divisor) + dividend % divisor,
            qv == dividend / divisor,
            rv == dividend % divisor,
    ;
    assert((dividend + o.val()) % p == 0) by {
        if o.val() == 0 {
            lemma_small_mod(0, p as nat);
            lemma_mod_self_0(p);
        } else {
            lemma_small_mod((p - o.val()) as nat, p as nat);
            lemma_mod_self_0(p);
        }
    }
}

/// Every power of two below 2^64 is `2^n` for some `n < 64`.
proof fn lemma_power_of_two_exp(c: u64) -> (n: nat)
    requires
        is_power_of_two(c as nat),
    ensures
        n < 64,
        c == pow2(n),
    decreases c,
{
    lemma2_to64();
    if c <= 1 {
        0
    } else {
        let h = (c / 2) as u64;
        let n0 = lemma_power_of_two_exp(h);
        lemma_pow2_unfold(n0 + 1);
        assert(c == pow2(n0 + 1));
        if n0 + 1 > 64 {
            lemma_pow2_strictly_increases(64, n0 + 1);
        }
        n0 + 1
    }
}

/// Dividing the bits of `x` under a mask with no bits below a power of two by that
/// power of two is exact.
proof fn lemma_masked_div_exact(x: u64, m: u64, c: u64)
    requires
        is_power_of_two(c as nat),
        m % c == 0,
    ensures
        c * ((x & m) / c) == x & m,
{
    let n = lemma_power_of_two_exp(c);
    let y = x & m;
    lemma_u64_low_bits_mask_is_mod(m, n);
    lemma_u64_low_bits_mask_is_mod(y, n);
    let l = low_bits_mask(n) as u64;
    assert(m & l == 0);
    assert(y & l == 0) by (bit_vector)
        requires
            y == x & m,
            m & l == 0,
    ;
    assert(y % c == 0);
    lemma_fundamental_div_mod(y as int, c as int);
}

/// The weighted sum of the first `i` assigned values.
pub open spec fn weighted_sum(t: Seq<Term>, a: Seq<(u64, u64)>, i: nat) -> int
    decreases i,
{
    if i == 0 {
        0
    } else {
        weighted_sum(t, a, (i - 1) as nat) + t[i - 1].1.val() * a[i - 1].1
    }
}

proof fn lemma_weighted_sum_prefix(t: Seq<Term>, a: Seq<(u64, u64)>, b: Seq<(u64, u64)>, i: nat)
    requires
        i <= a.len(),
        i <= b.len(),
        forall|j: int| 0 <= j < i ==> a[j] == b[j],
    ensures
        weighted_sum(t, a, i) == weighted_sum(t, b, i),
    decreases i,
{
    if i > 0 {
        lemma_weighted_sum_prefix(t, a, b, (i - 1) as nat);
    }
}

/// Walking the bit masks without overlap: the values assigned so far, weighted by
/// their coefficients, and the offset bits left add up to the start.
proof fn lemma_bits_walk_sum<R: RangeConstraintSet>(t: Seq<Term>, i: nat, start: u64, known: &R)
    requires
        i <= t.len(),
        bits_exact(t, known),
        !bits_walk(t, i, start, known).0,
    ensures
        bits_walk(t, i, start, known).3.len() == i,
        forall|j: int| 0 <= j < i ==> (#[trigger] bits_walk(t, i, start, known).3[j]).0 == t[j].0,
        weighted_sum(t, bits_walk(t, i, start, known).3, i) + bits_walk(t, i, start, known).2 == start,
    decreases i,
{
    if i > 0 {
        let w = bits_walk(t, (i - 1) as nat, start, known);
        lemma_bits_walk_sum(t, (i - 1) as nat, start, known);
        let e = t[i - 1];
        let m = term_mask(e, known);
        let off = w.2;
        let v = (off & m) / e.1.0;
        let a1 = w.3.push((e.0, v));
        assert(bits_walk(t, i, start, known).3 == a1);
        lemma_masked_div_exact(off, m, e.1.0);
        assert(off == (off & m) + (off & !m)) by (bit_vector);
        lemma_weighted_sum_prefix(t, w.3, a1, (i - 1) as nat);
        assert(weighted_sum(t, a1, i) == weighted_sum(t, w.3, (i - 1) as nat) + e.1.val() * v);
    }
}

/// A complete answer through bit constraints makes the expression zero.
proof fn lemma_bits_zeroes<R: RangeConstraintSet>(
    t: Seq<Term>,
    o: GoldilocksField,
    known: &R,
    cs: Seq<(u64, Constraint)>,
)
    requires
        all_wf(t),
        is_clean_keys(t),
        o.wf(),
        bits_exact(t, known),
        bits_decide(t, o, known),
        ({
            let w = bits_walk(t, t.len(), fe_neg(o.val()) as u64, known);
            w.2 == 0 && cs == assignments_of(w.3)
        }),
    ensures
        assigns_all(t, cs),
        (form_value(t, cs) + o.val()) % modulus() == 0,
{
    let p = modulus();
    lemma_fe_basics(o.val());
    let start = fe_neg(o.val()) as u64;
    let w = bits_walk(t, t.len(), start, known);
    lemma_bits_walk_sum(t, t.len(), start, known);
    let a = w.3;
    assert forall|x: int, y: int| 0 <= x < y < cs.len() implies cs[x].0 != cs[y].0 by {
        assert(cs[x].0 == a[x].0 && a[x].0 == t[x].0);
        assert(cs[y].0 == a[y].0 && a[y].0 == t[y].0);
    }
    assert forall|j: int| 0 <= j < t.len() implies assigned(cs, t[j].0) == Some(a[j].1 as int) by {
        assert(cs[j] == (a[j].0, Constraint::Assignment(GoldilocksField(a[j].1))));
        lemma_assigned_at(cs, j);
    }
    lemma_form_weighted(t, cs, a, t.len());
    assert(t.take(t.len() as int) =~= t);
    assert(form_value(t, cs) == start);
    assert((start + o.val()) % p == 0) by {
        if o.val() == 0 {
            lemma_small_mod(0, p as nat);
            lemma_mod_self_0(p);
        } else {
            lemma_small_mod((p - o.val()) as nat, p as nat);
            lemma_mod_self_0(p);
        }
    }
}

proof fn lemma_form_weighted(t: Seq<Term>, cs: Seq<(u64, Constraint)>, a: Seq<(u64, u64)>, i: nat)
    requires
        i <= t.len(),
        i <= a.len(),
        forall|j: int| 0 <= j < t.len() && j < a.len() ==> assigned(cs, t[j].0) == Some(a[j].1 as int),
    ensures
        form_value(t.take(i as int), cs) == weighted_sum(t, a, i),
    decreases i,
{
    if i > 0 {
        lemma_form_weighted(t, cs, a, (i - 1) as nat);
        assert(t.take(i as int).drop_last() =~= t.take(i - 1));
        assert(t.take(i as int).last() == t[i - 1]);
    }
}

} // verus!
