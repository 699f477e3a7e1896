//! The identities that witness generation works on: polynomial identities,
//! connections and bus interactions, converted from the identities of an analyzed
//! program (lookups and permutations become pairs of bus interactions).
use vstd::prelude::*;

use crate::field::GoldilocksField;

verus! {

// ---------------------------------------------------------------------------
// Algebraic expressions
// ---------------------------------------------------------------------------
/// A binary operation of an algebraic expression.
#[derive(Clone, Copy, Debug, PartialEq, Eq, Structural)]
pub enum AlgebraicBinaryOperator {
    Add,
    Sub,
    Mul,
    Pow,
}

/// A unary operation of an algebraic expression.
#[derive(Clone, Copy, Debug, PartialEq, Eq, Structural)]
pub enum AlgebraicUnaryOperator {
    Minus,
}

/// An algebraic expression over the columns of the trace.
pub enum AlgebraicExpression {
    /// A column by name, on the current row or, if the flag is set, the next one.
    Reference(String, bool),
    PublicReference(String),
    /// A challenge by id.
    Challenge(u64),
    Number(GoldilocksField),
    BinaryOperation(Box<AlgebraicExpression>, AlgebraicBinaryOperator, Box<AlgebraicExpression>),
    UnaryOperation(AlgebraicUnaryOperator, Box<AlgebraicExpression>),
}

/// A copy of an expression.
pub fn copy_expr(e: &AlgebraicExpression) -> (r: AlgebraicExpression)
    ensures
        r == *e,
    decreases e,
{
    match e {
        AlgebraicExpression::Reference(n, next) => AlgebraicExpression::Reference(n.clone(), *next),
        AlgebraicExpression::PublicReference(n) => AlgebraicExpression::PublicReference(n.clone()),
        AlgebraicExpression::Challenge(c) => AlgebraicExpression::Challenge(*c),
        AlgebraicExpression::Number(v) => AlgebraicExpression::Number(*v),
        AlgebraicExpression::BinaryOperation(l, op, r) => AlgebraicExpression::BinaryOperation(
            Box::new(copy_expr(l)),
            *op,
            Box::new(copy_expr(r)),
        ),
        AlgebraicExpression::UnaryOperation(op, x) => AlgebraicExpression::UnaryOperation(*op, Box::new(copy_expr(x))),
    }
}

/// A copy of a list of expressions.
pub fn copy_exprs(v: &Vec<AlgebraicExpression>) -> (r: Vec<AlgebraicExpression>)
    ensures
        r@ == v@,
{
    let mut r: Vec<AlgebraicExpression> = Vec::new();
    for i in 0..v.len()
        invariant
            r@ == v@.take(i as int),
    {
        r.push(copy_expr(&v[i]));
        proof {
            assert(r@ =~= v@.take(i + 1));
        }
    }
    proof {
        assert(v@.take(v@.len() as int) =~= v@);
    }
    r
}

/// Whether two expressions are the same: equal operators and numbers, and names
/// of the same text.
pub open spec fn same_expr(a: AlgebraicExpression, b: AlgebraicExpression) -> bool
    decreases a,
{
    match (a, b) {
        (AlgebraicExpression::Reference(x, n), AlgebraicExpression::Reference(y, m)) => n == m && x@ == y@,
        (AlgebraicExpression::PublicReference(x), AlgebraicExpression::PublicReference(y)) => x@ == y@,
        (AlgebraicExpression::Challenge(x), AlgebraicExpression::Challenge(y)) => x == y,
        (AlgebraicExpression::Number(x), AlgebraicExpression::Number(y)) => x == y,
        (AlgebraicExpression::BinaryOperation(l1, o1, r1), AlgebraicExpression::BinaryOperation(l2, o2, r2)) => o1
            == o2 && same_expr(*l1, *l2) && same_expr(*r1, *r2),
        (AlgebraicExpression::UnaryOperation(o1, x1), AlgebraicExpression::UnaryOperation(o2, x2)) => o1 == o2
            && same_expr(*x1, *x2),
        _ => false,
    }
}

/// Whether two expressions are the same.
pub fn expr_eq(a: &AlgebraicExpression, b: &AlgebraicExpression) -> (r: bool)
    ensures
        r == same_expr(*a, *b),
    decreases a,
{
    match (a, b) {
        (AlgebraicExpression::Reference(x, n), AlgebraicExpression::Reference(y, m)) => {
            *n == *m && crate::text::str_eq(x.as_str(), y.as_str())
        },
        (AlgebraicExpression::PublicReference(x), AlgebraicExpression::PublicReference(y)) => {
            crate::text::str_eq(x.as_str(), y.as_str())
        },
        (AlgebraicExpression::Challenge(x), AlgebraicExpression::Challenge(y)) => *x == *y,
        (AlgebraicExpression::Number(x), AlgebraicExpression::Number(y)) => *x == *y,
        (AlgebraicExpression::BinaryOperation(l1, o1, r1), AlgebraicExpression::BinaryOperation(l2, o2, r2)) => {
            *o1 == *o2 && expr_eq(l1, l2) && expr_eq(r1, r2)
        },
        (AlgebraicExpression::UnaryOperation(o1, x1), AlgebraicExpression::UnaryOperation(o2, x2)) => {
            *o1 == *o2 && expr_eq(x1, x2)
        },
        _ => false,
    }
}

/// Whether the expression refers to a column on the next row.
pub open spec fn has_next_ref(e: AlgebraicExpression) -> bool
    decreases e,
{
    match e {
        AlgebraicExpression::Reference(_, next) => next,
        AlgebraicExpression::BinaryOperation(l, _, r) => has_next_ref(*l) || has_next_ref(*r),
        AlgebraicExpression::UnaryOperation(_, x) => has_next_ref(*x),
        _ => false,
    }
}

/// Whether the expression refers to a column on the next row.
pub fn expr_contains_next_ref(e: &AlgebraicExpression) -> (r: bool)
    ensures
        r == has_next_ref(*e),
    decreases e,
{
    match e {
        AlgebraicExpression::Reference(_, next) => *next,
        AlgebraicExpression::BinaryOperation(l, _, r) => expr_contains_next_ref(l) || expr_contains_next_ref(r),
        AlgebraicExpression::UnaryOperation(_, x) => expr_contains_next_ref(x),
        _ => false,
    }
}

/// Whether one of the expressions refers to a column on the next row.
fn any_next_ref(v: &Vec<AlgebraicExpression>) -> (r: bool)
    ensures
        r == seq_has_next_ref(v@),
{
    for i in 0..v.len()
        invariant
            forall|j: int| 0 <= j < i ==> !has_next_ref(#[trigger] v@[j]),
    {
        if expr_contains_next_ref(&v[i]) {
            return true;
        }
    }
    false
}

// ---------------------------------------------------------------------------
// Identities of the analyzed program
// ---------------------------------------------------------------------------
/// A selector and the expressions it selects.
pub struct SelectedExpressions {
    pub selector: AlgebraicExpression,
    pub expressions: Vec<AlgebraicExpression>,
}

/// The mathematical value of `SelectedExpressions`.
pub type SelectedV = (AlgebraicExpression, Seq<AlgebraicExpression>);

impl View for SelectedExpressions {
    type V = SelectedV;

    open spec fn view(&self) -> SelectedV {
        (self.selector, self.expressions@)
    }
}

fn copy_selected(s: &SelectedExpressions) -> (r: SelectedExpressions)
    ensures
        r@ == s@,
{
    SelectedExpressions { selector: copy_expr(&s.selector), expressions: copy_exprs(&s.expressions) }
}

/// An identity of an analyzed program.
pub enum AnalyzedIdentity {
    /// The id and the expression that must be zero.
    Polynomial(u64, AlgebraicExpression),
    /// The id and the connected expressions.
    Connect(u64, Vec<AlgebraicExpression>, Vec<AlgebraicExpression>),
    /// The id, the selected left and right side.
    Lookup(u64, SelectedExpressions, SelectedExpressions),
    /// The id, the sides and the multiplicity.
    PhantomLookup(u64, SelectedExpressions, SelectedExpressions, AlgebraicExpression),
    Permutation(u64, SelectedExpressions, SelectedExpressions),
    PhantomPermutation(u64, SelectedExpressions, SelectedExpressions),
    /// The id, the multiplicity, the tuple and the latch.
    PhantomBusInteraction(u64, AlgebraicExpression, Vec<AlgebraicExpression>, AlgebraicExpression),
}

// ---------------------------------------------------------------------------
// Identities of witness generation
// ---------------------------------------------------------------------------
/// Which side of a bus an interaction is on.
#[derive(Clone, Copy, Debug, PartialEq, Eq, Structural)]
pub enum InteractionType {
    Send,
    Receive,
}

/// An interaction with a bus: it sends or receives the selected tuple, with a
/// multiplicity if one is given.
pub struct BusInteractionIdentity {
    /// Unique among all identities.
    pub id: u64,
    pub multiplicity: Option<AlgebraicExpression>,
    pub selected_tuple: SelectedExpressions,
    pub interaction_type: InteractionType,
}

/// The mathematical value of a `BusInteractionIdentity`.
pub struct BusInteractionV {
    pub id: u64,
    pub multiplicity: Option<AlgebraicExpression>,
    pub selected_tuple: SelectedV,
    pub interaction_type: InteractionType,
}

impl View for BusInteractionIdentity {
    type V = BusInteractionV;

    open spec fn view(&self) -> BusInteractionV {
        BusInteractionV {
            id: self.id,
            multiplicity: self.multiplicity,
            selected_tuple: self.selected_tuple@,
            interaction_type: self.interaction_type,
        }
    }
}

/// An identity of witness generation.
pub enum Identity {
    /// The id and the expression that must be zero.
    Polynomial(u64, AlgebraicExpression),
    /// The id and the connected expressions.
    Connect(u64, Vec<AlgebraicExpression>, Vec<AlgebraicExpression>),
    BusInteraction(BusInteractionIdentity),
}

/// The mathematical value of an `Identity`.
pub enum IdentityV {
    Polynomial(u64, AlgebraicExpression),
    Connect(u64, Seq<AlgebraicExpression>, Seq<AlgebraicExpression>),
    BusInteraction(BusInteractionV),
}

impl View for Identity {
    type V = IdentityV;

    open spec fn view(&self) -> IdentityV {
        match self {
            Identity::Polynomial(id, e) => IdentityV::Polynomial(*id, *e),
            Identity::Connect(id, l, r) => IdentityV::Connect(*id, l@, r@),
            Identity::BusInteraction(b) => IdentityV::BusInteraction(b@),
        }
    }
}

/// The static interaction id of a bus interaction: its first expression, if that
/// is a number.
pub open spec fn interaction_id_spec(b: BusInteractionV) -> Option<GoldilocksField> {
    match b.selected_tuple.1[0] {
        AlgebraicExpression::Number(id) => Some(id),
        _ => None,
    }
}

/// Whether the interaction receives with the given static id.
pub open spec fn receives_with_id(o: BusInteractionV, id: GoldilocksField) -> bool {
    o.interaction_type == InteractionType::Receive && interaction_id_spec(o) == Some(id)
}

/// The receives among `others` with the given static id, in order.
pub open spec fn matching_receives(others: Seq<BusInteractionV>, id: GoldilocksField) -> Seq<BusInteractionV>
    decreases others.len(),
{
    if others.len() == 0 {
        seq![]
    } else {
        let m = matching_receives(others.drop_last(), id);
        if receives_with_id(others.last(), id) {
            m.push(others.last())
        } else {
            m
        }
    }
}

/// The receives can be inspected: each has a tuple.
pub open spec fn receives_have_tuples(others: Seq<BusInteractionV>) -> bool {
    forall|i: int| 0 <= i < others.len() && (#[trigger] others[i]).interaction_type == InteractionType::Receive ==> others[i].selected_tuple.1.len() > 0
}

/// The views of a sequence of bus interactions.
pub open spec fn bus_views(v: Seq<BusInteractionIdentity>) -> Seq<BusInteractionV> {
    v.map_values(|b: BusInteractionIdentity| b@)
}

impl BusInteractionIdentity {
    /// The static interaction id: the first expression of the tuple, if it is a
    /// number.
    pub fn interaction_id(&self) -> (r: Option<GoldilocksField>)
        requires
            self.selected_tuple.expressions@.len() > 0,
        ensures
            r == interaction_id_spec(self@),
    {
        match &self.selected_tuple.expressions[0] {
            AlgebraicExpression::Number(id) => Some(*id),
            _ => None,
        }
    }

    /// Whether the interaction sends.
    pub fn is_send(&self) -> (r: bool)
        ensures
            r == (self.interaction_type == InteractionType::Send),
    {
        self.interaction_type == InteractionType::Send
    }

    /// Whether the interaction receives.
    pub fn is_receive(&self) -> (r: bool)
        ensures
            r == (self.interaction_type == InteractionType::Receive),
    {
        self.interaction_type == InteractionType::Receive
    }

    /// Whether the interaction receives with the selector as multiplicity (as the
    /// receiving side of a lookup or permutation does).
    pub fn is_unconstrained_receive(&self) -> (r: bool)
        ensures
            r == (self.interaction_type == InteractionType::Receive && match self.multiplicity {
                Some(m) => same_expr(m, self.selected_tuple.selector),
                None => false,
            }),
    {
        self.is_receive() && match &self.multiplicity {
            Some(m) => expr_eq(m, &self.selected_tuple.selector),
            None => false,
        }
    }

    /// The one receive among `others` with the static id of this send; `None` if
    /// this send has no static id or there is not exactly one such receive.
    pub fn try_match_static<'a>(&self, others: &'a Vec<BusInteractionIdentity>) -> (r: Option<
        &'a BusInteractionIdentity,
    >)
        requires
            self.interaction_type == InteractionType::Send,
            self.selected_tuple.expressions@.len() > 0,
            receives_have_tuples(bus_views(others@)),
        ensures
            match interaction_id_spec(self@) {
                None => r is None,
                Some(id) => {
                    let ms = matching_receives(bus_views(others@), id);
                    &&& ms.len() == 1 ==> (r matches Some(o) && o@ == ms[0])
                    &&& ms.len() != 1 ==> r is None
                },
            },
    {
        let id = match self.interaction_id() {
            Some(id) => id,
            None => {
                return None;
            },
        };
        let ghost ov = bus_views(others@);
        let mut matching: Option<&'a BusInteractionIdentity> = None;
        let n = others.len();
        proof {
            assert(ov.take(0) =~= Seq::<BusInteractionV>::empty());
        }
        for i in 0..n
            invariant
                n == others@.len(),
                ov == bus_views(others@),
                receives_have_tuples(ov),
                interaction_id_spec(self@) == Some(id),
                matching_receives(ov.take(i as int), id).len() <= 1,
                matching_receives(ov.take(i as int), id).len() == 0 ==> matching is None,
                matching_receives(ov.take(i as int), id).len() == 1 ==> (matching matches Some(o) && o@
                    == matching_receives(ov.take(i as int), id)[0]),
        {
            let other = &others[i];
            proof {
                assert(ov[i as int] == other@);
                assert(ov.take(i + 1).drop_last() =~= ov.take(i as int));
                assert(ov.take(i + 1).last() == other@);
            }
            if other.is_receive() && other.interaction_id() == Some(id) {
                proof {
                    assert(receives_with_id(other@, id));
                    assert(matching_receives(ov.take(i + 1), id) == matching_receives(ov.take(i as int), id).push(other@));
                }
                match matching {
                    None => {
                        matching = Some(other);
                    },
                    Some(_) => {
                        proof {
                            lemma_matching_grows(ov, id, i + 1, n as int);
                            assert(ov.take(n as int) =~= ov);
                        }
                        return None;
                    },
                }
            }
        }
        proof {
            assert(ov.take(n as int) =~= ov);
        }
        matching
    }
}

proof fn lemma_matching_grows(s: Seq<BusInteractionV>, id: GoldilocksField, k: int, n: int)
    requires
        0 <= k <= n,
        n == s.len(),
    ensures
        matching_receives(s.take(k), id).len() <= matching_receives(s.take(n), id).len(),
    decreases n - k,
{
    if k < n {
        lemma_matching_grows(s, id, k + 1, n);
        assert(s.take(k + 1).drop_last() =~= s.take(k));
    }
}

impl Identity {
    /// The id of the identity.
    pub closed spec fn id_spec(&self) -> u64 {
        match self {
            Identity::Polynomial(id, _) => *id,
            Identity::Connect(id, _, _) => *id,
            Identity::BusInteraction(b) => b.id,
        }
    }

    /// The id of the identity.
    pub fn id(&self) -> (r: u64)
        ensures
            r == match self@ {
                IdentityV::Polynomial(id, _) => id,
                IdentityV::Connect(id, _, _) => id,
                IdentityV::BusInteraction(b) => b.id,
            },
    {
        match self {
            Identity::Polynomial(id, _) => *id,
            Identity::Connect(id, _, _) => *id,
            Identity::BusInteraction(b) => b.id,
        }
    }

    /// Whether an expression of the identity refers to a column on the next row.
    pub fn contains_next_ref(&self) -> (r: bool)
        ensures
            r == identity_has_next_ref(self@),
    {
        match self {
            Identity::Polynomial(_, e) => expr_contains_next_ref(e),
            Identity::Connect(_, left, right) => {
                let a = any_next_ref(left);
                let b = any_next_ref(right);
                a || b
            },
            Identity::BusInteraction(bus) => {
                let s = expr_contains_next_ref(&bus.selected_tuple.selector);
                let t = any_next_ref(&bus.selected_tuple.expressions);
                let m = match &bus.multiplicity {
                    Some(m) => expr_contains_next_ref(m),
                    None => false,
                };
                s || t || m
            },
        }
    }
}

/// Whether one of the expressions refers to a column on the next row.
pub open spec fn seq_has_next_ref(v: Seq<AlgebraicExpression>) -> bool {
    exists|i: int| 0 <= i < v.len() && has_next_ref(#[trigger] v[i])
}

/// Whether an expression of the identity refers to a column on the next row.
pub open spec fn identity_has_next_ref(i: IdentityV) -> bool {
    match i {
        IdentityV::Polynomial(_, e) => has_next_ref(e),
        IdentityV::Connect(_, l, r) => seq_has_next_ref(l) || seq_has_next_ref(r),
        IdentityV::BusInteraction(b) => has_next_ref(b.selected_tuple.0) || seq_has_next_ref(b.selected_tuple.1)
            || match b.multiplicity {
            Some(m) => has_next_ref(m),
            None => false,
        },
    }
}


// ---------------------------------------------------------------------------
// Conversion
// ---------------------------------------------------------------------------
/// The id that an identity keeps: that of a polynomial identity or a connection;
/// the others get new ids.
pub open spec fn kept_id(i: AnalyzedIdentity) -> u64 {
    match i {
        AnalyzedIdentity::Polynomial(id, _) => id,
        AnalyzedIdentity::Connect(id, _, _) => id,
        _ => 0,
    }
}

/// The greatest id that is kept, or 0.
pub open spec fn max_kept_id(ids: Seq<AnalyzedIdentity>) -> u64
    decreases ids.len(),
{
    if ids.len() == 0 {
        0
    } else {
        let m = max_kept_id(ids.drop_last());
        if kept_id(ids.last()) > m {
            kept_id(ids.last())
        } else {
            m
        }
    }
}

/// How many new ids an identity takes: one for a bus interaction, two for a
/// lookup or permutation, none for the others.
pub open spec fn fresh_count(i: AnalyzedIdentity) -> nat {
    match i {
        AnalyzedIdentity::Polynomial(..) => 0,
        AnalyzedIdentity::Connect(..) => 0,
        AnalyzedIdentity::PhantomBusInteraction(..) => 1,
        _ => 2,
    }
}

/// How many new ids the identities take.
pub open spec fn total_fresh(ids: Seq<AnalyzedIdentity>) -> nat
    decreases ids.len(),
{
    if ids.len() == 0 {
        0
    } else {
        fresh_count(ids[0]) + total_fresh(ids.drop_first())
    }
}

/// A bus interaction.
pub open spec fn bus(id: int, multiplicity: Option<AlgebraicExpression>, tuple: SelectedV, t: InteractionType) -> IdentityV {
    IdentityV::BusInteraction(
        BusInteractionV { id: id as u64, multiplicity, selected_tuple: tuple, interaction_type: t },
    )
}

/// Whether the multiplicity is negated, so that the interaction receives.
pub open spec fn is_negated(m: AlgebraicExpression) -> bool {
    m is UnaryOperation
}

/// The identities that an identity becomes, with `c` as the first new id: a
/// polynomial identity or connection stays; a bus interaction keeps its
/// multiplicity and sends, or receives if the multiplicity is negated; a lookup or
/// permutation becomes a send of its left side and a receive of its right side.
pub open spec fn converted(i: AnalyzedIdentity, c: int) -> Seq<IdentityV> {
    match i {
        AnalyzedIdentity::Polynomial(id, e) => seq![IdentityV::Polynomial(id, e)],
        AnalyzedIdentity::Connect(id, l, r) => seq![IdentityV::Connect(id, l@, r@)],
        AnalyzedIdentity::PhantomBusInteraction(_, m, tuple, latch) => seq![
            bus(
                c,
                Some(m),
                (latch, tuple@),
                if is_negated(m) {
                    InteractionType::Receive
                } else {
                    InteractionType::Send
                },
            ),
        ],
        AnalyzedIdentity::Permutation(_, l, r) => seq![
            bus(c, Some(l.selector), l@, InteractionType::Send),
            bus(c + 1, Some(r.selector), r@, InteractionType::Receive),
        ],
        AnalyzedIdentity::PhantomPermutation(_, l, r) => seq![
            bus(c, Some(l.selector), l@, InteractionType::Send),
            bus(c + 1, Some(r.selector), r@, InteractionType::Receive),
        ],
        AnalyzedIdentity::Lookup(_, l, r) => seq![
            bus(c, None, l@, InteractionType::Send),
            bus(c + 1, None, r@, InteractionType::Receive),
        ],
        AnalyzedIdentity::PhantomLookup(_, l, r, m) => seq![
            bus(c, Some(m), l@, InteractionType::Send),
            bus(c + 1, Some(m), r@, InteractionType::Receive),
        ],
    }
}

/// The identities converted one after the other, with `c` as the first new id.
pub open spec fn convert_from(ids: Seq<AnalyzedIdentity>, c: int) -> Seq<IdentityV>
    decreases ids.len(),
{
    if ids.len() == 0 {
        seq![]
    } else {
        converted(ids[0], c) + convert_from(ids.drop_first(), c + fresh_count(ids[0]))
    }
}

/// The views of a sequence of identities.
pub open spec fn identity_views(v: Seq<Identity>) -> Seq<IdentityV> {
    v.map_values(|i: Identity| i@)
}

fn bus_identity(
    id: u64,
    multiplicity: Option<AlgebraicExpression>,
    tuple: SelectedExpressions,
    t: InteractionType,
) -> (r: Identity)
    ensures
        r@ == bus(id as int, multiplicity, tuple@, t),
{
    Identity::BusInteraction(
        BusInteractionIdentity { id, multiplicity, selected_tuple: tuple, interaction_type: t },
    )
}

/// Appends the identities that `i` becomes, with `c` as the first new id.
fn convert_one(out: &mut Vec<Identity>, i: &AnalyzedIdentity, c: u64)
    requires
        c + fresh_count(*i) <= u64::MAX,
    ensures
        identity_views(final(out)@) == identity_views(old(out)@) + converted(*i, c as int),
{
    let ghost before = identity_views(out@);
    match i {
        AnalyzedIdentity::Polynomial(id, e) => {
            out.push(Identity::Polynomial(*id, copy_expr(e)));
        },
        AnalyzedIdentity::Connect(id, l, r) => {
            out.push(Identity::Connect(*id, copy_exprs(l), copy_exprs(r)));
        },
        AnalyzedIdentity::PhantomBusInteraction(_, m, tuple, latch) => {
            let negated = match m {
                AlgebraicExpression::UnaryOperation(op, _) => *op == AlgebraicUnaryOperator::Minus,
                _ => false,
            };
            let t = if negated {
                InteractionType::Receive
            } else {
                InteractionType::Send
            };
            let sel = SelectedExpressions { selector: copy_expr(latch), expressions: copy_exprs(tuple) };
            out.push(bus_identity(c, Some(copy_expr(m)), sel, t));
        },
        AnalyzedIdentity::Permutation(_, l, r) | AnalyzedIdentity::PhantomPermutation(_, l, r) => {
            out.push(bus_identity(c, Some(copy_expr(&l.selector)), copy_selected(l), InteractionType::Send));
            out.push(bus_identity(c + 1, Some(copy_expr(&r.selector)), copy_selected(r), InteractionType::Receive));
        },
        AnalyzedIdentity::Lookup(_, l, r) => {
            out.push(bus_identity(c, None, copy_selected(l), InteractionType::Send));
            out.push(bus_identity(c + 1, None, copy_selected(r), InteractionType::Receive));
        },
        AnalyzedIdentity::PhantomLookup(_, l, r, m) => {
            out.push(bus_identity(c, Some(copy_expr(m)), copy_selected(l), InteractionType::Send));
            out.push(bus_identity(c + 1, Some(copy_expr(m)), copy_selected(r), InteractionType::Receive));
        },
    }
    proof {
        assert(identity_views(out@) =~= before + converted(*i, c as int));
    }
}

/// The identities of witness generation for those of an analyzed program:
/// polynomial identities and connections stay as they are; bus interactions,
/// lookups and permutations become bus interactions with new ids above all kept
/// ids, in order.
pub fn convert(identities: &Vec<AnalyzedIdentity>) -> (r: Vec<Identity>)
    requires
        max_kept_id(identities@) + 1 + total_fresh(identities@) <= u64::MAX,
    ensures
        identity_views(r@) == convert_from(identities@, max_kept_id(identities@) + 1),
{
    let ghost ids = identities@;
    let n = identities.len();
    let mut max_id: u64 = 0;
    proof {
        assert(ids.take(0) =~= Seq::<AnalyzedIdentity>::empty());
    }
    for i in 0..n
        invariant
            n == ids.len(),
            ids == identities@,
            max_id == max_kept_id(ids.take(i as int)),
    {
        proof {
            assert(ids.take(i + 1).drop_last() =~= ids.take(i as int));
            assert(ids.take(i + 1).last() == ids[i as int]);
        }
        let id = match &identities[i] {
            AnalyzedIdentity::Polynomial(id, _) => *id,
            AnalyzedIdentity::Connect(id, _, _) => *id,
            _ => 0,
        };
        if id > max_id {
            max_id = id;
        }
    }
    proof {
        assert(ids.take(n as int) =~= ids);
    }
    let mut counter: u64 = max_id + 1;
    let ghost c0 = counter as int;
    let mut out: Vec<Identity> = Vec::new();
    proof {
        assert(ids.skip(0) =~= ids);
        assert(identity_views(out@) + convert_from(ids.skip(0), c0) =~= convert_from(ids, c0));
    }
    for i in 0..n
        invariant
            n == ids.len(),
            ids == identities@,
            c0 == max_kept_id(ids) + 1,
            counter + total_fresh(ids.skip(i as int)) <= u64::MAX,
            identity_views(out@) + convert_from(ids.skip(i as int), counter as int) == convert_from(ids, c0),
    {
        let ghost rest = ids.skip(i as int);
        proof {
            assert(rest[0] == ids[i as int]);
            assert(rest.drop_first() =~= ids.skip(i + 1));
        }
        let ghost before = identity_views(out@);
        convert_one(&mut out, &identities[i], counter);
        counter = match &identities[i] {
            AnalyzedIdentity::Polynomial(..) | AnalyzedIdentity::Connect(..) => counter,
            AnalyzedIdentity::PhantomBusInteraction(..) => counter + 1,
            _ => counter + 2,
        };
        proof {
            assert(identity_views(out@) + convert_from(ids.skip(i + 1), counter as int) =~= convert_from(ids, c0));
        }
    }
    proof {
        assert(ids.skip(n as int) =~= Seq::<AnalyzedIdentity>::empty());
        assert(identity_views(out@) + Seq::<IdentityV>::empty() =~= identity_views(out@));
    }
    out
}

proof fn lemma_kept_below_max(ids: Seq<AnalyzedIdentity>, k: int)
    requires
        0 <= k < ids.len(),
    ensures
        kept_id(ids[k]) <= max_kept_id(ids),
    decreases ids.len(),
{
    if k < ids.len() - 1 {
        assert(ids.drop_last()[k] == ids[k]);
        lemma_kept_below_max(ids.drop_last(), k);
    }
}

/// The id of an identity.
pub open spec fn id_of(i: IdentityV) -> u64 {
    match i {
        IdentityV::Polynomial(id, _) => id,
        IdentityV::Connect(id, _, _) => id,
        IdentityV::BusInteraction(b) => b.id,
    }
}

/// Whether the identity keeps its id.
pub open spec fn keeps_id(i: AnalyzedIdentity) -> bool {
    i is Polynomial || i is Connect
}

/// The kept ids are pairwise different.
pub open spec fn kept_ids_distinct(ids: Seq<AnalyzedIdentity>) -> bool {
    forall|a: int, b: int|
        0 <= a < b < ids.len() && keeps_id(ids[a]) && keeps_id(ids[b]) ==> kept_id(ids[a]) != kept_id(ids[b])
}

proof fn lemma_convert_ids(ids: Seq<AnalyzedIdentity>, c: int)
    requires
        kept_ids_distinct(ids),
        forall|k: int| 0 <= k < ids.len() && keeps_id(ids[k]) ==> kept_id(#[trigger] ids[k]) < c,
        0 <= c,
        c + total_fresh(ids) <= u64::MAX,
    ensures
        forall|k: int|
            0 <= k < convert_from(ids, c).len() ==> (c <= id_of(#[trigger] convert_from(ids, c)[k]) < c + total_fresh(ids))
                || exists|j: int| 0 <= j < ids.len() && keeps_id(ids[j]) && kept_id(ids[j]) == id_of(convert_from(ids, c)[k]),
        forall|a: int, b: int|
            0 <= a < b < convert_from(ids, c).len() ==> id_of(#[trigger] convert_from(ids, c)[a]) != id_of(
                #[trigger] convert_from(ids, c)[b],
            ),
    decreases ids.len(),
{
    if ids.len() > 0 {
        let tail = ids.drop_first();
        let f0 = fresh_count(ids[0]);
        assert forall|a: int, b: int|
            0 <= a < b < tail.len() && keeps_id(tail[a]) && keeps_id(tail[b]) implies kept_id(tail[a]) != kept_id(tail[b]) by {
            assert(tail[a] == ids[a + 1] && tail[b] == ids[b + 1]);
        }
        assert forall|k: int| 0 <= k < tail.len() && keeps_id(tail[k]) implies kept_id(#[trigger] tail[k]) < c + f0 by {
            assert(tail[k] == ids[k + 1]);
        }
        lemma_convert_ids(tail, c + f0);
        let h = converted(ids[0], c);
        let t = convert_from(tail, c + f0);
        let o = convert_from(ids, c);
        assert(o == h + t);
        assert forall|k: int| 0 <= k < o.len() implies (c <= id_of(#[trigger] o[k]) < c + total_fresh(ids)) || exists|j: int|
            0 <= j < ids.len() && keeps_id(ids[j]) && kept_id(ids[j]) == id_of(o[k]) by {
            if k < h.len() {
                assert(o[k] == h[k]);
                if keeps_id(ids[0]) {
                    assert(keeps_id(ids[0]) && kept_id(ids[0]) == id_of(o[k]));
                }
            } else {
                assert(o[k] == t[k - h.len()]);
                if !(c + f0 <= id_of(t[k - h.len()]) < c + f0 + total_fresh(tail)) {
                    let j = choose|j: int| 0 <= j < tail.len() && keeps_id(tail[j]) && kept_id(tail[j]) == id_of(t[k - h.len()]);
                    assert(tail[j] == ids[j + 1]);
                }
            }
        }
        assert forall|a: int, b: int| 0 <= a < b < o.len() implies id_of(#[trigger] o[a]) != id_of(#[trigger] o[b]) by {
            if b < h.len() {
                assert(o[a] == h[a] && o[b] == h[b]);
            } else if a >= h.len() {
                assert(o[a] == t[a - h.len()] && o[b] == t[b - h.len()]);
            } else {
                assert(o[a] == h[a] && o[b] == t[b - h.len()]);
                let tb = t[b - h.len()];
                if !(c + f0 <= id_of(tb) < c + f0 + total_fresh(tail)) {
                    let j = choose|j: int| 0 <= j < tail.len() && keeps_id(tail[j]) && kept_id(tail[j]) == id_of(tb);
                    assert(tail[j] == ids[j + 1]);
                    assert(kept_id(ids[j + 1]) < c);
                    if keeps_id(ids[0]) {
                        assert(kept_id(ids[0]) != kept_id(ids[j + 1]));
                    }
                }
            }
        }
    }
}

/// Every identity that comes out has an id of its own: polynomial identities and
/// connections keep theirs (which differ from each other), and the bus
/// interactions get new ids above all of them.
pub proof fn law_ids_are_unique(ids: Seq<AnalyzedIdentity>)
    requires
        kept_ids_distinct(ids),
        max_kept_id(ids) + 1 + total_fresh(ids) <= u64::MAX,
    ensures
        forall|a: int, b: int|
            0 <= a < b < convert_from(ids, max_kept_id(ids) + 1).len() ==> id_of(
                #[trigger] convert_from(ids, max_kept_id(ids) + 1)[a],
            ) != id_of(#[trigger] convert_from(ids, max_kept_id(ids) + 1)[b]),
{
    assert forall|k: int| 0 <= k < ids.len() && keeps_id(ids[k]) implies kept_id(#[trigger] ids[k]) < max_kept_id(ids) + 1 by {
        lemma_kept_below_max(ids, k);
    }
    lemma_convert_ids(ids, max_kept_id(ids) + 1);
}

/// A permutation, phantom or not, becomes a send of its left side and a receive of
/// its right side with the next id, each counted with its own selector as
/// multiplicity; a lookup's sides carry no multiplicity and a phantom lookup's
/// carry its multiplicity. A phantom permutation converts exactly as the
/// permutation of the same sides.
pub proof fn law_sides_become_send_and_receive(id: u64, l: SelectedExpressions, r: SelectedExpressions, m: AlgebraicExpression, c: int)
    ensures
        forall|i: AnalyzedIdentity|
            (i == AnalyzedIdentity::Permutation(id, l, r) || i == AnalyzedIdentity::PhantomPermutation(id, l, r))
                ==> #[trigger] converted(i, c) == seq![
                IdentityV::BusInteraction(
                    BusInteractionV {
                        id: c as u64,
                        multiplicity: Some(l.selector),
                        selected_tuple: (l.selector, l.expressions@),
                        interaction_type: InteractionType::Send,
                    },
                ),
                IdentityV::BusInteraction(
                    BusInteractionV {
                        id: (c + 1) as u64,
                        multiplicity: Some(r.selector),
                        selected_tuple: (r.selector, r.expressions@),
                        interaction_type: InteractionType::Receive,
                    },
                ),
            ],
        converted(AnalyzedIdentity::PhantomPermutation(id, l, r), c) == converted(
            AnalyzedIdentity::Permutation(id, l, r),
            c,
        ),
        forall|k: int|
            0 <= k < 2 ==> (#[trigger] converted(AnalyzedIdentity::Lookup(id, l, r), c)[k])->BusInteraction_0.multiplicity
                is None,
        forall|k: int|
            0 <= k < 2 ==> (#[trigger] converted(AnalyzedIdentity::PhantomLookup(id, l, r, m), c)[k])->BusInteraction_0.multiplicity
                == Some(m),
{
}

} // verus!
