//! Helpers of the code generator for compiled symbols.
use vstd::prelude::*;

use crate::display::{
    binary_op_text, escape_text, quote, symbol_path_text, type_text, unary_op_text, BinaryOperator,
    Type, TypeScheme, UnaryOperator,
};
use crate::text::{
    decimal, insert_sorted, join_with, lemma_join_push, lemma_push_to_set, push_decimal, push_str, str_eq,
    string_push, strictly_sorted, string_views,
};

verus! {

/// The symbol with every `.` and then every `::` (left to right, not overlapping)
/// replaced by `_`.
pub open spec fn escaped_symbol(s: Seq<char>) -> Seq<char> {
    replace_colons(s.map_values(|c: char| if c == '.' { '_' } else { c }))
}

/// Every non-overlapping `::`, from left to right, replaced by `_`.
pub open spec fn replace_colons(s: Seq<char>) -> Seq<char>
    decreases s.len(),
{
    if s.len() == 0 {
        seq![]
    } else if s.len() >= 2 && s[0] == ':' && s[1] == ':' {
        seq!['_'] + replace_colons(s.skip(2))
    } else {
        seq![s[0]] + replace_colons(s.skip(1))
    }
}

/// A symbol name usable as an identifier in the generated code.
pub fn escape_symbol(s: &str) -> (r: String)
    ensures
        r@ == escaped_symbol(s@),
{
    let n = s.unicode_len();
    let ghost dotted = s@.map_values(|c: char| if c == '.' { '_' } else { c });
    let mut out = String::new();
    let mut i: usize = 0;
    proof {
        assert(dotted.skip(0) =~= dotted);
        assert(out@ + replace_colons(dotted) =~= replace_colons(dotted));
    }
    while i < n
        invariant
            i <= n,
            n == s@.len(),
            dotted == s@.map_values(|c: char| if c == '.' { '_' } else { c }),
            out@ + replace_colons(dotted.skip(i as int)) == replace_colons(dotted),
        decreases n - i,
    {
        let c = s.get_char(i);
        let ghost rest = dotted.skip(i as int);
        if c == ':' && i + 1 < n && s.get_char(i + 1) == ':' {
            proof {
                assert(rest[0] == ':' && rest[1] == ':');
                assert(rest.skip(2) =~= dotted.skip(i + 2));
            }
            string_push(&mut out, '_');
            i = i + 2;
            proof {
                assert(out@ + replace_colons(dotted.skip(i as int)) =~= replace_colons(dotted));
            }
        } else {
            let d = if c == '.' {
                '_'
            } else {
                c
            };
            proof {
                assert(rest[0] == d);
                assert(rest.skip(1) =~= dotted.skip(i + 1));
                if rest.len() >= 2 {
                    assert(rest[1] == dotted[i + 1]);
                }
            }
            string_push(&mut out, d);
            i = i + 1;
            proof {
                assert(out@ + replace_colons(dotted.skip(i as int)) =~= replace_colons(dotted));
            }
        }
    }
    proof {
        assert(dotted.skip(n as int) =~= Seq::<char>::empty());
        assert(out@ =~= replace_colons(dotted));
    }
    out
}

/// Whether the symbol is provided by the code generator itself.
pub fn is_builtin(symbol: &str) -> (r: bool)
    ensures
        r == (symbol@ == "std::check::panic"@ || symbol@ == "std::field::modulus"@ || symbol@
            == "std::convert::fe"@),
{
    str_eq(symbol, "std::check::panic") || str_eq(symbol, "std::field::modulus") || str_eq(
        symbol,
        "std::convert::fe",
    )
}


// ---------------------------------------------------------------------------
// Types of the generated code
// ---------------------------------------------------------------------------
/// Whether a type has a counterpart in the generated code: no tuple, column or
/// constraint type occurs in it.
pub open spec fn map_type_ok(t: Type) -> bool
    decreases t,
{
    match t {
        Type::Tuple(_) => false,
        Type::Col => false,
        Type::Constr => false,
        Type::Array(a) => map_type_ok(*a.base),
        Type::Function(f) => map_types_ok(f.params@) && map_type_ok(*f.value),
        _ => true,
    }
}

/// Whether every type of the list has a counterpart in the generated code.
pub open spec fn map_types_ok(ts: Seq<Type>) -> bool
    decreases ts,
{
    if ts.len() == 0 {
        true
    } else {
        map_types_ok(ts.subrange(0, ts.len() - 1)) && map_type_ok(ts[ts.len() - 1])
    }
}

/// The Rust type of the generated code for a type.
pub open spec fn map_type_text(t: Type) -> Seq<char>
    decreases t,
{
    match t {
        Type::Bottom => type_text(t),
        Type::Bool => type_text(t),
        Type::Int => "ibig::IBig"@,
        Type::Fe => "FieldElement"@,
        Type::String => "String"@,
        Type::Expr => "Expr"@,
        Type::Array(a) => "Vec<"@ + map_type_text(*a.base) + ">"@,
        Type::Function(f) => "fn("@ + map_types_text(f.params@) + ") -> "@ + map_type_text(*f.value),
        Type::TypeVar(n) => n@,
        Type::NamedType(p) => escaped_symbol(symbol_path_text(p.parts@)),
        _ => seq![],
    }
}

/// The Rust types of a list of types, joined by `, `.
pub open spec fn map_types_text(ts: Seq<Type>) -> Seq<char>
    decreases ts,
{
    if ts.len() == 0 {
        seq![]
    } else if ts.len() == 1 {
        map_type_text(ts[0])
    } else {
        map_types_text(ts.subrange(0, ts.len() - 1)) + ", "@ + map_type_text(ts[ts.len() - 1])
    }
}

fn push_map_type(t: &Type, out: &mut String)
    requires
        map_type_ok(*t),
    ensures
        final(out)@ == old(out)@ + map_type_text(*t),
    decreases t, 1nat,
{
    match t {
        Type::Bottom | Type::Bool => {
            let s = t.to_string();
            push_str(out, s.as_str());
        },
        Type::Int => push_str(out, "ibig::IBig"),
        Type::Fe => push_str(out, "FieldElement"),
        Type::String => push_str(out, "String"),
        Type::Expr => push_str(out, "Expr"),
        Type::Array(a) => {
            push_str(out, "Vec<");
            push_map_type(&a.base, out);
            push_str(out, ">");
        },
        Type::Function(f) => {
            push_str(out, "fn(");
            push_map_types(&f.params, out);
            push_str(out, ") -> ");
            push_map_type(&f.value, out);
        },
        Type::TypeVar(n) => push_str(out, n.as_str()),
        Type::NamedType(p) => {
            let text = p.to_string();
            let esc = escape_symbol(text.as_str());
            push_str(out, esc.as_str());
        },
        _ => {},
    }
    proof {
        assert(final(out)@ =~= old(out)@ + map_type_text(*t));
    }
}

fn push_map_types(ts: &Vec<Type>, out: &mut String)
    requires
        map_types_ok(ts@),
    ensures
        final(out)@ == old(out)@ + map_types_text(ts@),
    decreases ts@, 0nat,
{
    let ghost start = out@;
    let n = ts.len();
    proof {
        lemma_map_types_ok_prefix(ts@, n as int);
    }
    for i in 0..n
        invariant
            n == ts@.len(),
            forall|j: int| 0 <= j < n ==> map_type_ok(#[trigger] ts@[j]),
            out@ == start + map_types_text(ts@.subrange(0, i as int)),
    {
        proof {
            let sub = ts@.subrange(0, i + 1);
            assert(sub.subrange(0, sub.len() - 1) =~= ts@.subrange(0, i as int));
            assert(sub[sub.len() - 1] == ts@[i as int]);
            if i == 0 {
                assert(sub[0] == ts@[0]);
            }
        }
        if i > 0 {
            push_str(out, ", ");
        }
        push_map_type(&ts[i], out);
        proof {
            assert(out@ =~= start + map_types_text(ts@.subrange(0, i + 1)));
        }
    }
    proof {
        assert(ts@.subrange(0, n as int) =~= ts@);
    }
}

proof fn lemma_map_types_ok_prefix(ts: Seq<Type>, n: int)
    requires
        map_types_ok(ts),
        n == ts.len(),
    ensures
        forall|j: int| 0 <= j < n ==> map_type_ok(#[trigger] ts[j]),
    decreases ts.len(),
{
    if ts.len() > 0 {
        let pre = ts.subrange(0, ts.len() - 1);
        lemma_map_types_ok_prefix(pre, n - 1);
        assert forall|j: int| 0 <= j < n implies map_type_ok(#[trigger] ts[j]) by {
            if j < n - 1 {
                assert(pre[j] == ts[j]);
            }
        }
    }
}

/// The Rust type of the generated code for a type.
pub fn map_type(ty: &Type) -> (r: String)
    requires
        map_type_ok(*ty),
    ensures
        r@ == map_type_text(*ty),
{
    let mut s = String::new();
    push_map_type(ty, &mut s);
    proof {
        assert(s@ =~= map_type_text(*ty));
    }
    s
}

// ---------------------------------------------------------------------------
// Built-in symbols
// ---------------------------------------------------------------------------
/// The generated code of a built-in symbol (after `fn` and the escaped name).
pub open spec fn builtin_body(symbol: Seq<char>) -> Option<Seq<char>> {
    if symbol == "std::array::len"@ {
        Some("<T>(a: Vec<T>) -> ibig::IBig { ibig::IBig::from(a.len()) }"@)
    } else if symbol == "std::check::panic"@ {
        Some("(s: &str) -> ! { panic!(\"{s}\"); }"@)
    } else if symbol == "std::field::modulus"@ {
        Some("() -> ibig::IBig { ibig::IBig::from(\"18446744069414584321\") }"@)
    } else if symbol == "std::convert::fe"@ {
        Some(
            "(n: ibig::IBig) -> FieldElement {\n    <FieldElement as PrimeField>::BigInt::try_from(n.to_biguint().unwrap()).unwrap().into()\n}"@,
        )
    } else {
        None
    }
}

/// Whether the generator provides the symbol itself, as a function.
fn has_builtin_code(symbol: &str) -> (r: bool)
    ensures
        r == (builtin_body(symbol@) is Some),
{
    str_eq(symbol, "std::array::len") || str_eq(symbol, "std::check::panic") || str_eq(
        symbol,
        "std::field::modulus",
    ) || str_eq(symbol, "std::convert::fe")
}

/// The generated code of a built-in symbol: `fn`, its escaped name and its body.
pub open spec fn builtin_code(symbol: Seq<char>) -> Option<Seq<char>> {
    match builtin_body(symbol) {
        Some(b) => Some("fn "@ + escaped_symbol(symbol) + b),
        None => None,
    }
}

/// The code of the symbols that the code generator provides itself (with the
/// modulus of the Goldilocks field), if `symbol` is one.
pub fn try_generate_builtin(symbol: &str) -> (r: Option<String>)
    ensures
        match r {
            Some(c) => builtin_code(symbol@) == Some(c@),
            None => builtin_code(symbol@) is None,
        },
{
    let body = if str_eq(symbol, "std::array::len") {
        "<T>(a: Vec<T>) -> ibig::IBig { ibig::IBig::from(a.len()) }"
    } else if str_eq(symbol, "std::check::panic") {
        "(s: &str) -> ! { panic!(\"{s}\"); }"
    } else if str_eq(symbol, "std::field::modulus") {
        "() -> ibig::IBig { ibig::IBig::from(\"18446744069414584321\") }"
    } else if str_eq(symbol, "std::convert::fe") {
        "(n: ibig::IBig) -> FieldElement {\n    <FieldElement as PrimeField>::BigInt::try_from(n.to_biguint().unwrap()).unwrap().into()\n}"
    } else {
        return None;
    };
    let mut out = String::new();
    push_str(&mut out, "fn ");
    let esc = escape_symbol(symbol);
    push_str(&mut out, esc.as_str());
    push_str(&mut out, body);
    Some(out)
}


// ---------------------------------------------------------------------------
// Analyzed programs
// ---------------------------------------------------------------------------
/// A reference: a local variable (with its id and name), or a symbol with its
/// type arguments when they are known.
pub enum Reference {
    LocalVar(u64, String),
    Poly(String, Option<Vec<Type>>),
}

/// An expression of an analyzed program.
pub enum Expression {
    Reference(Reference),
    /// A number literal (its value fits in 64 bits) and its type, if known.
    Number(u64, Option<Type>),
    /// A function and its arguments.
    FunctionCall(Box<Expression>, Vec<Expression>),
    BinaryOperation(Box<Expression>, BinaryOperator, Box<Expression>),
    UnaryOperation(UnaryOperator, Box<Expression>),
    /// An array and an index.
    IndexAccess(Box<Expression>, Box<Expression>),
    /// The parameters (as written) and the body.
    LambdaExpression(Vec<String>, Box<Expression>),
    /// A condition, a value if it holds and a value otherwise.
    IfExpression(Box<Expression>, Box<Expression>, Box<Expression>),
    ArrayLiteral(Vec<Expression>),
    String(String),
    Tuple(Vec<Expression>),
    /// The statements (as written) and the final expression, if any.
    BlockExpression(Vec<String>, Option<Box<Expression>>),
    /// Any other expression, as written.
    Other(String),
}

/// An expression with its type scheme, if known.
pub struct TypedExpression {
    pub e: Expression,
    pub type_scheme: Option<TypeScheme>,
}

/// The definitions of an analyzed program: each symbol with its value when the
/// value is an expression.
pub struct Analyzed {
    pub definitions: Vec<(String, Option<TypedExpression>)>,
}

/// What is known of a symbol during code generation.
pub enum SymbolState {
    /// Its code is being generated.
    InProgress,
    /// Its code.
    Done(String),
    /// Why it could not be compiled.
    Failed(String),
}

/// The mathematical value of a `SymbolState`.
pub enum SymState {
    InProgress,
    Done(Seq<char>),
    Failed(Seq<char>),
}

impl View for SymbolState {
    type V = SymState;

    open spec fn view(&self) -> SymState {
        match self {
            SymbolState::InProgress => SymState::InProgress,
            SymbolState::Done(c) => SymState::Done(c@),
            SymbolState::Failed(e) => SymState::Failed(e@),
        }
    }
}

/// The result of generating code: the code, an error message, or a panic of the
/// generator (on inputs it does not take).
pub enum Outcome {
    Code(Seq<char>),
    Error(Seq<char>),
    Panic,
}

/// The result of generating the code of a list of expressions.
pub enum ListOutcome {
    Codes(Seq<Seq<char>>),
    Error(Seq<char>),
    Panic,
}

/// The state of the symbols: the latest entry of each name counts.
pub open spec fn table_map(v: Seq<(String, SymbolState)>) -> Map<Seq<char>, SymState>
    decreases v.len(),
{
    if v.len() == 0 {
        Map::empty()
    } else {
        table_map(v.drop_last()).insert(v.last().0@, v.last().1@)
    }
}

/// The definition of `name`: `None` if there is none, `Some(None)` if its value is
/// not an expression.
pub open spec fn def_lookup(defs: Seq<(String, Option<TypedExpression>)>, name: Seq<char>) -> Option<
    Option<TypedExpression>,
>
    decreases defs.len(),
{
    if defs.len() == 0 {
        None
    } else if defs[0].0@ == name {
        Some(defs[0].1)
    } else {
        def_lookup(defs.drop_first(), name)
    }
}

/// The number of definitions whose symbol has no state yet.
pub open spec fn undone(defs: Seq<(String, Option<TypedExpression>)>, st: Map<Seq<char>, SymState>) -> nat
    decreases defs.len(),
{
    if defs.len() == 0 {
        0
    } else {
        undone(defs.drop_first(), st) + if st.contains_key(defs[0].0@) {
            0nat
        } else {
            1nat
        }
    }
}

pub proof fn lemma_undone_insert(
    defs: Seq<(String, Option<TypedExpression>)>,
    st: Map<Seq<char>, SymState>,
    n: Seq<char>,
    x: SymState,
)
    ensures
        undone(defs, st.insert(n, x)) <= undone(defs, st),
        def_lookup(defs, n) is Some && !st.contains_key(n) ==> undone(defs, st.insert(n, x)) < undone(
            defs,
            st,
        ),
    decreases defs.len(),
{
    if defs.len() > 0 {
        lemma_undone_insert(defs.drop_first(), st, n, x);
    }
}

/// Whether the symbol needs dereferencing in the generated code: only a lazily
/// initialized static does, that is a defined symbol whose value is an expression
/// but not a function and for which the generator has no built-in function.
/// `None` when the symbol is neither built in nor defined.
pub open spec fn needs_deref(defs: Seq<(String, Option<TypedExpression>)>, name: Seq<char>) -> Option<bool> {
    if builtin_body(name) is Some {
        Some(false)
    } else {
        match def_lookup(defs, name) {
            None => None,
            Some(Some(te)) => Some(!(te.e is LambdaExpression)),
            Some(None) => Some(false),
        }
    }
}

/// The code that refers to the value of a symbol.
pub open spec fn reference_outcome(defs: Seq<(String, Option<TypedExpression>)>, name: Seq<char>) -> Outcome {
    match needs_deref(defs, name) {
        None => Outcome::Panic,
        Some(true) => Outcome::Code("(*"@ + escaped_symbol(name) + ")"@),
        Some(false) => Outcome::Code(escaped_symbol(name)),
    }
}

/// The error for a symbol without a usable definition.
pub open spec fn no_definition_error(name: Seq<char>) -> Seq<char> {
    "No definition for "@ + name + ", or not a generic symbol"@
}

/// Requesting a symbol: a failed symbol fails again; a known or in-progress symbol
/// is referred to; otherwise its code is generated (a built-in, or from its
/// definition) and recorded, and then it is referred to.
pub open spec fn req(
    defs: Seq<(String, Option<TypedExpression>)>,
    st: Map<Seq<char>, SymState>,
    name: Seq<char>,
) -> (Map<Seq<char>, SymState>, Outcome)
    decreases undone(defs, st), 0nat, Seq::<Expression>::empty(),
{
    if st.contains_key(name) {
        match st[name] {
            SymState::Failed(e) => (st, Outcome::Error(e)),
            _ => (st, reference_outcome(defs, name)),
        }
    } else {
        match builtin_code(name) {
            Some(c) => (st.insert(name, SymState::Done(c)), reference_outcome(defs, name)),
            None => match def_lookup(defs, name) {
                Some(Some(te)) => {
                    let st1 = st.insert(name, SymState::InProgress);
                    proof {
                        lemma_undone_insert(defs, st, name, SymState::InProgress);
                    }
                    let (st2, r) = gen(defs, st1, name, te);
                    match r {
                        Outcome::Code(c) => (st2.insert(name, SymState::Done(c)), reference_outcome(defs, name)),
                        Outcome::Error(e) => (st2.insert(name, SymState::Failed(e)), Outcome::Error(e)),
                        Outcome::Panic => (st2, Outcome::Panic),
                    }
                },
                _ => {
                    let e = no_definition_error(name);
                    (st.insert(name, SymState::Failed(e)), Outcome::Error(e))
                },
            },
        }
    }
}

/// Generating the code of a defined symbol: a function for a lambda of function
/// type (or of column type, taken as `int -> int`), else a lazily initialized
/// static of the (mapped) type.
pub open spec fn gen(
    defs: Seq<(String, Option<TypedExpression>)>,
    st: Map<Seq<char>, SymState>,
    name: Seq<char>,
    te: TypedExpression,
) -> (Map<Seq<char>, SymState>, Outcome)
    decreases undone(defs, st), 3nat, Seq::<Expression>::empty(),
{
    match te.type_scheme {
        None => (st, Outcome::Panic),
        Some(ts) => if ts.vars.bounds@.len() != 0 {
            (st, Outcome::Panic)
        } else {
            match (te.e, ts.ty) {
                (Expression::LambdaExpression(params, body), Type::Function(f)) => try_fn(
                    defs,
                    st,
                    name,
                    f.params@,
                    *f.value,
                    params@,
                    *body,
                ),
                (Expression::LambdaExpression(params, body), Type::Col) => try_fn(
                    defs,
                    st,
                    name,
                    seq![Type::Int],
                    Type::Int,
                    params@,
                    *body,
                ),
                _ => if ts.ty is Col || map_type_ok(ts.ty) {
                    let ty_text = if ts.ty is Col {
                        "fn(ibig::IBig) -> FieldElement"@
                    } else {
                        map_type_text(ts.ty)
                    };
                    let (st2, r) = fmt(defs, st, te.e);
                    match r {
                        Outcome::Code(c) => (
                            st2,
                            Outcome::Code(
                                "lazy_static::lazy_static! {\nstatic ref "@ + escaped_symbol(name) + ": "@
                                    + ty_text + " = "@ + c + ";\n}\n"@,
                            ),
                        ),
                        other => (st2, other),
                    }
                } else {
                    (st, Outcome::Panic)
                },
            }
        },
    }
}

/// `p: T` for each parameter and its type (as many as both lists have), joined by
/// `, `.
pub open spec fn params_text(params: Seq<String>, types: Seq<Type>) -> Seq<char>
    decreases params.len(),
{
    let n = if params.len() < types.len() {
        params.len()
    } else {
        types.len()
    };
    if n == 0 {
        seq![]
    } else if n == 1 {
        params[0]@ + ": "@ + map_type_text(types[0])
    } else {
        params_text(params.subrange(0, n - 1), types.subrange(0, n - 1)) + ", "@ + params[n - 1]@ + ": "@
            + map_type_text(types[n - 1])
    }
}

/// The types that are paired with parameters have counterparts in the generated
/// code.
pub open spec fn param_types_ok(params: Seq<String>, types: Seq<Type>) -> bool {
    forall|i: int| 0 <= i < params.len() && i < types.len() ==> map_type_ok(#[trigger] types[i])
}

/// The code of a function from a lambda with its parameter and return types.
pub open spec fn try_fn(
    defs: Seq<(String, Option<TypedExpression>)>,
    st: Map<Seq<char>, SymState>,
    name: Seq<char>,
    param_types: Seq<Type>,
    ret: Type,
    params: Seq<String>,
    body: Expression,
) -> (Map<Seq<char>, SymState>, Outcome)
    decreases undone(defs, st), 2nat, Seq::<Expression>::empty(),
{
    if !map_type_ok(ret) {
        (st, Outcome::Panic)
    } else {
        let (st2, r) = fmt(defs, st, body);
        match r {
            Outcome::Code(b) => if param_types_ok(params, param_types) {
                (
                    st2,
                    Outcome::Code(
                        "fn "@ + escaped_symbol(name) + "("@ + params_text(params, param_types) + ") -> "@
                            + map_type_text(ret) + " { "@ + b + " }\n"@,
                    ),
                )
            } else {
                (st2, Outcome::Panic)
            },
            other => (st2, other),
        }
    }
}

/// `::<T1, T2>` for the type arguments, or nothing if there are none.
pub open spec fn type_args_text(ts: Seq<Type>) -> Seq<char> {
    if ts.len() == 0 {
        seq![]
    } else {
        "::<"@ + map_types_text(ts) + ">"@
    }
}

/// Each code followed by `.clone()`, joined by `, `.
pub open spec fn cloned_args_text(cs: Seq<Seq<char>>) -> Seq<char> {
    join_with(cs.map_values(|c: Seq<char>| c + ".clone()"@), ", "@)
}

/// The code of an expression, generating the code of the symbols it refers to.
/// Requests only ever add symbols, so the comparisons of `undone` below always
/// hold; they are there so that the definition is seen to terminate.
pub open spec fn fmt(
    defs: Seq<(String, Option<TypedExpression>)>,
    st: Map<Seq<char>, SymState>,
    e: Expression,
) -> (Map<Seq<char>, SymState>, Outcome)
    decreases undone(defs, st), 1nat, e,
{
    match e {
        Expression::Reference(Reference::LocalVar(_, n)) => (st, Outcome::Code(n@)),
        Expression::Reference(Reference::Poly(n, ta)) => {
            let (st2, r) = req(defs, st, n@);
            match r {
                Outcome::Code(refr) => match ta {
                    Some(ts) => if map_types_ok(ts@) {
                        (st2, Outcome::Code(refr + type_args_text(ts@)))
                    } else {
                        (st2, Outcome::Panic)
                    },
                    None => (st2, Outcome::Panic),
                },
                other => (st2, other),
            }
        },
        Expression::Number(v, Some(t)) => match t {
            Type::Int => (st, Outcome::Code("ibig::IBig::from("@ + decimal(v as nat) + "_u64)"@)),
            Type::Fe => (st, Outcome::Code("FieldElement::from("@ + decimal(v as nat) + "_u64)"@)),
            Type::Expr => (st, Outcome::Code("Expr::from("@ + decimal(v as nat) + "_u64)"@)),
            _ => (st, Outcome::Panic),
        },
        Expression::Number(v, None) => (st, Outcome::Error("Implement "@ + decimal(v as nat))),
        Expression::FunctionCall(f, args) => {
            let (s1, rf) = fmt(defs, st, *f);
            match rf {
                Outcome::Code(fc) => if undone(defs, s1) <= undone(defs, st) {
                    let (s2, ra) = fmt_list(defs, s1, args@);
                    match ra {
                        ListOutcome::Codes(cs) => (s2, Outcome::Code("("@ + fc + ")("@ + cloned_args_text(cs) + ")"@)),
                        ListOutcome::Error(x) => (s2, Outcome::Error(x)),
                        ListOutcome::Panic => (s2, Outcome::Panic),
                    }
                } else {
                    (s1, Outcome::Panic)
                },
                other => (s1, other),
            }
        },
        Expression::BinaryOperation(l, op, r) => {
            let (s1, rl) = fmt(defs, st, *l);
            match rl {
                Outcome::Code(lc) => if undone(defs, s1) <= undone(defs, st) {
                    let (s2, rr) = fmt(defs, s1, *r);
                    match rr {
                        Outcome::Code(rc) => (s2, Outcome::Code(if op is ShiftLeft {
                            "(("@ + lc + ").clone() << u32::try_from(("@ + rc + ").clone()).unwrap())"@
                        } else {
                            "(("@ + lc + ").clone() "@ + binary_op_text(op) + " ("@ + rc + ").clone())"@
                        })),
                        other => (s2, other),
                    }
                } else {
                    (s1, Outcome::Panic)
                },
                other => (s1, other),
            }
        },
        Expression::UnaryOperation(op, x) => {
            let (s1, rx) = fmt(defs, st, *x);
            match rx {
                Outcome::Code(c) => (s1, Outcome::Code("("@ + unary_op_text(op) + " ("@ + c + ").clone())"@)),
                other => (s1, other),
            }
        },
        Expression::IndexAccess(a, i) => {
            let (s1, ra) = fmt(defs, st, *a);
            match ra {
                Outcome::Code(ac) => if undone(defs, s1) <= undone(defs, st) {
                    let (s2, ri) = fmt(defs, s1, *i);
                    match ri {
                        Outcome::Code(ic) => (s2, Outcome::Code(ac + "[usize::try_from("@ + ic + ").unwrap()].clone()"@)),
                        other => (s2, other),
                    }
                } else {
                    (s1, Outcome::Panic)
                },
                other => (s1, other),
            }
        },
        Expression::LambdaExpression(params, body) => {
            let (s1, rb) = fmt(defs, st, *body);
            match rb {
                Outcome::Code(b) => (s1, Outcome::Code("|"@ + join_with(string_views(params@), ", "@) + "| { "@ + b + " }"@)),
                other => (s1, other),
            }
        },
        Expression::IfExpression(c, b, o) => {
            let (s1, rc) = fmt(defs, st, *c);
            match rc {
                Outcome::Code(cc) => if undone(defs, s1) <= undone(defs, st) {
                    let (s2, rb) = fmt(defs, s1, *b);
                    match rb {
                        Outcome::Code(bc) => if undone(defs, s2) <= undone(defs, st) {
                            let (s3, ro) = fmt(defs, s2, *o);
                            match ro {
                                Outcome::Code(oc) => (s3, Outcome::Code("if "@ + cc + " { "@ + bc + " } else { "@ + oc + " }"@)),
                                other => (s3, other),
                            }
                        } else {
                            (s2, Outcome::Panic)
                        },
                        other => (s2, other),
                    }
                } else {
                    (s1, Outcome::Panic)
                },
                other => (s1, other),
            }
        },
        Expression::ArrayLiteral(items) => {
            let (s1, r) = fmt_list(defs, st, items@);
            match r {
                ListOutcome::Codes(cs) => (s1, Outcome::Code("vec!["@ + join_with(cs, ", "@) + "]"@)),
                ListOutcome::Error(x) => (s1, Outcome::Error(x)),
                ListOutcome::Panic => (s1, Outcome::Panic),
            }
        },
        Expression::String(v) => (st, Outcome::Code(seq!['"'] + escape_text(v@) + seq!['"'])),
        Expression::Tuple(items) => {
            let (s1, r) = fmt_list(defs, st, items@);
            match r {
                ListOutcome::Codes(cs) => (s1, Outcome::Code("("@ + join_with(cs, ", "@) + ")"@)),
                ListOutcome::Error(x) => (s1, Outcome::Error(x)),
                ListOutcome::Panic => (s1, Outcome::Panic),
            }
        },
        Expression::BlockExpression(statements, x) => if statements@.len() > 0 {
            (st, Outcome::Error("Compiling statements inside blocks is not yet implemented: "@ + statements@[0]@))
        } else {
            match x {
                None => (st, Outcome::Code("{\n\n\n}"@)),
                Some(b) => {
                    let (s1, rb) = fmt(defs, st, *b);
                    match rb {
                        Outcome::Code(c) => (s1, Outcome::Code("{\n\n"@ + c + "\n}"@)),
                        other => (s1, other),
                    }
                },
            }
        },
        Expression::Other(text) => (st, Outcome::Error("Implement "@ + text@)),
    }
}

/// The codes of a list of expressions, left to right, stopping at the first error.
pub open spec fn fmt_list(
    defs: Seq<(String, Option<TypedExpression>)>,
    st: Map<Seq<char>, SymState>,
    es: Seq<Expression>,
) -> (Map<Seq<char>, SymState>, ListOutcome)
    decreases undone(defs, st), 1nat, es,
{
    if es.len() == 0 {
        (st, ListOutcome::Codes(seq![]))
    } else {
        let (s1, r) = fmt(defs, st, es[0]);
        match r {
            Outcome::Code(c) => if undone(defs, s1) <= undone(defs, st) {
                let (s2, rest) = fmt_list(defs, s1, es.subrange(1, es.len() as int));
                match rest {
                    ListOutcome::Codes(cs) => (s2, ListOutcome::Codes(seq![c] + cs)),
                    other => (s2, other),
                }
            } else {
                (s1, ListOutcome::Panic)
            },
            Outcome::Error(x) => (s1, ListOutcome::Error(x)),
            Outcome::Panic => (s1, ListOutcome::Panic),
        }
    }
}



// ---------------------------------------------------------------------------
// The code generator
// ---------------------------------------------------------------------------
/// The outcome of a result of the generator.
pub open spec fn outcome_of(r: Result<String, String>) -> Outcome {
    match r {
        Ok(c) => Outcome::Code(c@),
        Err(e) => Outcome::Error(e@),
    }
}

/// The outcome of a list of results of the generator.
pub open spec fn list_outcome_of(r: Result<Vec<String>, String>) -> ListOutcome {
    match r {
        Ok(cs) => ListOutcome::Codes(string_views(cs@)),
        Err(e) => ListOutcome::Error(e@),
    }
}

/// Generates the code of the symbols of an analyzed program on request.
pub struct CodeGenerator<'a> {
    analyzed: &'a Analyzed,
    /// The state of each requested symbol; the latest entry of a name counts.
    symbols: Vec<(String, SymbolState)>,
}

proof fn lemma_table_latest(v: Seq<(String, SymbolState)>, i: int, n: Seq<char>)
    requires
        0 <= i < v.len(),
        v[i].0@ == n,
        forall|j: int| i < j < v.len() ==> v[j].0@ != n,
    ensures
        table_map(v).contains_key(n),
        table_map(v)[n] == v[i].1@,
    decreases v.len(),
{
    if i < v.len() - 1 {
        lemma_table_latest(v.drop_last(), i, n);
        assert(v.last() == v[v.len() - 1]);
    }
}

proof fn lemma_table_absent(v: Seq<(String, SymbolState)>, n: Seq<char>)
    requires
        forall|j: int| 0 <= j < v.len() ==> v[j].0@ != n,
    ensures
        !table_map(v).contains_key(n),
    decreases v.len(),
{
    if v.len() > 0 {
        lemma_table_absent(v.drop_last(), n);
        assert(v.last() == v[v.len() - 1]);
    }
}

proof fn lemma_def_lookup_skip(defs: Seq<(String, Option<TypedExpression>)>, i: int, n: Seq<char>)
    requires
        0 <= i < defs.len(),
        forall|j: int| 0 <= j < i ==> defs[j].0@ != n,
    ensures
        def_lookup(defs, n) == def_lookup(defs.skip(i), n),
    decreases i,
{
    if i > 0 {
        lemma_def_lookup_skip(defs.drop_first(), i - 1, n);
        assert(defs.drop_first().skip(i - 1) =~= defs.skip(i));
        assert forall|j: int| 0 <= j < i - 1 implies defs.drop_first()[j].0@ != n by {
            assert(defs.drop_first()[j] == defs[j + 1]);
        }
    } else {
        assert(defs.skip(0) =~= defs);
    }
}

proof fn lemma_def_lookup_absent(defs: Seq<(String, Option<TypedExpression>)>, n: Seq<char>)
    requires
        forall|j: int| 0 <= j < defs.len() ==> defs[j].0@ != n,
    ensures
        def_lookup(defs, n) is None,
    decreases defs.len(),
{
    if defs.len() > 0 {
        assert(defs[0].0@ != n);
        assert forall|j: int| 0 <= j < defs.drop_first().len() implies defs.drop_first()[j].0@ != n by {
            assert(defs.drop_first()[j] == defs[j + 1]);
        }
        lemma_def_lookup_absent(defs.drop_first(), n);
    }
}

proof fn lemma_params_text_prefix(params: Seq<String>, types: Seq<Type>, i: int)
    requires
        0 <= i < params.len(),
        i < types.len(),
    ensures
        params_text(params.subrange(0, i + 1), types.subrange(0, i + 1)) == if i == 0 {
            params[0]@ + ": "@ + map_type_text(types[0])
        } else {
            params_text(params.subrange(0, i), types.subrange(0, i)) + ", "@ + params[i]@ + ": "@
                + map_type_text(types[i])
        },
{
    let p1 = params.subrange(0, i + 1);
    let t1 = types.subrange(0, i + 1);
    assert(p1.subrange(0, i) =~= params.subrange(0, i));
    assert(t1.subrange(0, i) =~= types.subrange(0, i));
    assert(p1[i] == params[i]);
    assert(t1[i] == types[i]);
}

proof fn lemma_params_text_whole(params: Seq<String>, types: Seq<Type>, n: int)
    requires
        n == if params.len() < types.len() {
            params.len() as int
        } else {
            types.len() as int
        },
    ensures
        params_text(params, types) == params_text(params.subrange(0, n), types.subrange(0, n)),
{
    let p1 = params.subrange(0, n);
    let t1 = types.subrange(0, n);
    if n > 1 {
        assert(p1.subrange(0, n - 1) =~= params.subrange(0, n - 1));
        assert(t1.subrange(0, n - 1) =~= types.subrange(0, n - 1));
        assert(p1[n - 1] == params[n - 1]);
        assert(t1[n - 1] == types[n - 1]);
    } else if n == 1 {
        assert(p1[0] == params[0]);
        assert(t1[0] == types[0]);
    }
}

/// `p: T` for each parameter and its type, joined by `, `.
fn params_code(params: &Vec<String>, param_types: &Vec<Type>) -> (r: String)
    requires
        param_types_ok(params@, param_types@),
    ensures
        r@ == params_text(params@, param_types@),
{
    let n = if params.len() < param_types.len() {
        params.len()
    } else {
        param_types.len()
    };
    let mut ps = String::new();
    for i in 0..n
        invariant
            n <= params@.len(),
            n <= param_types@.len(),
            param_types_ok(params@, param_types@),
            ps@ == params_text(params@.subrange(0, i as int), param_types@.subrange(0, i as int)),
    {
        proof {
            lemma_params_text_prefix(params@, param_types@, i as int);
            assert(map_type_ok(param_types@[i as int]));
        }
        if i > 0 {
            push_str(&mut ps, ", ");
        }
        push_str(&mut ps, params[i].as_str());
        push_str(&mut ps, ": ");
        let t = map_type(&param_types[i]);
        push_str(&mut ps, t.as_str());
        proof {
            if i == 0 {
                assert(params_text(params@.subrange(0, 0), param_types@.subrange(0, 0)) == Seq::<char>::empty());
            }
            assert(ps@ =~= params_text(params@.subrange(0, i + 1), param_types@.subrange(0, i + 1)));
        }
    }
    proof {
        lemma_params_text_whole(params@, param_types@, n as int);
    }
    ps
}

impl<'a> CodeGenerator<'a> {
    /// The state of the requested symbols.
    pub closed spec fn state(&self) -> Map<Seq<char>, SymState> {
        table_map(self.symbols@)
    }

    /// The definitions of the program.
    pub closed spec fn defs(&self) -> Seq<(String, Option<TypedExpression>)> {
        self.analyzed.definitions@
    }

    /// A generator for the program, with no symbol requested yet.
    pub fn new(analyzed: &'a Analyzed) -> (r: Self)
        ensures
            r.state() == Map::<Seq<char>, SymState>::empty(),
            r.defs() == analyzed.definitions@,
    {
        CodeGenerator { analyzed, symbols: Vec::new() }
    }

    /// The latest entry of `name`.
    fn find_state(&self, name: &str) -> (r: Option<usize>)
        ensures
            match r {
                Some(i) => i < self.symbols@.len() && self.state().contains_key(name@) && self.state()[name@]
                    == self.symbols@[i as int].1@,
                None => !self.state().contains_key(name@),
            },
    {
        let mut k = self.symbols.len();
        while k > 0
            invariant
                k <= self.symbols@.len(),
                forall|j: int| k <= j < self.symbols@.len() ==> self.symbols@[j].0@ != name@,
            decreases k,
        {
            if str_eq(self.symbols[k - 1].0.as_str(), name) {
                proof {
                    lemma_table_latest(self.symbols@, k - 1, name@);
                }
                return Some(k - 1);
            }
            k = k - 1;
        }
        proof {
            lemma_table_absent(self.symbols@, name@);
        }
        None
    }

    fn set_state(&mut self, name: &str, st: SymbolState)
        ensures
            final(self).state() == old(self).state().insert(name@, st@),
            final(self).defs() == old(self).defs(),
    {
        let ghost sv = st@;
        self.symbols.push((String::from_str(name), st));
        proof {
            assert(self.symbols@.drop_last() == old(self).symbols@);
            assert(self.symbols@.last().1@ == sv);
        }
    }

    /// The definition of `name`.
    fn find_definition(&self, name: &str) -> (r: Option<&'a Option<TypedExpression>>)
        ensures
            match r {
                Some(d) => def_lookup(self.defs(), name@) == Some(*d),
                None => def_lookup(self.defs(), name@) is None,
            },
    {
        let analyzed: &'a Analyzed = self.analyzed;
        let defs = &analyzed.definitions;
        for i in 0..defs.len()
            invariant
                defs@ == self.defs(),
                forall|j: int| 0 <= j < i ==> defs@[j].0@ != name@,
        {
            if str_eq(defs[i].0.as_str(), name) {
                proof {
                    lemma_def_lookup_skip(defs@, i as int, name@);
                    assert(defs@.skip(i as int)[0] == defs@[i as int]);
                }
                return Some(&defs[i].1);
            }
        }
        proof {
            lemma_def_lookup_absent(defs@, name@);
        }
        None
    }

    /// Whether a reference to the symbol needs dereferencing: not for the symbols
    /// the generator provides as functions, nor for other functions, but for the
    /// other defined expressions, which become lazily initialized statics.
    fn symbol_needs_deref(&self, symbol: &str) -> (r: bool)
        requires
            needs_deref(self.defs(), symbol@) is Some,
        ensures
            Some(r) == needs_deref(self.defs(), symbol@),
    {
        if has_builtin_code(symbol) {
            return false;
        }
        match self.find_definition(symbol) {
            Some(Some(te)) => match te.e {
                Expression::LambdaExpression(_, _) => false,
                _ => true,
            },
            _ => false,
        }
    }

    /// The code that refers to the symbol.
    fn reference_code(&self, name: &str) -> (r: String)
        requires
            needs_deref(self.defs(), name@) is Some,
        ensures
            reference_outcome(self.defs(), name@) == Outcome::Code(r@),
    {
        let esc = escape_symbol(name);
        if self.symbol_needs_deref(name) {
            let mut s = String::new();
            push_str(&mut s, "(*");
            push_str(&mut s, esc.as_str());
            push_str(&mut s, ")");
            proof {
                assert(s@ =~= "(*"@ + escaped_symbol(name@) + ")"@);
            }
            s
        } else {
            esc
        }
    }

    /// Requests the code of a symbol and returns the code that refers to its value:
    /// its escaped name, dereferenced only for a lazily initialized static. The code
    /// itself is kept for `compiled_symbols`. After an error the generator can still
    /// be used for other symbols; requesting the failed one again gives the same
    /// error.
    pub fn request_symbol(&mut self, name: &str) -> (r: Result<String, String>)
        requires
            !(req(old(self).defs(), old(self).state(), name@).1 is Panic),
        ensures
            (final(self).state(), outcome_of(r)) == req(old(self).defs(), old(self).state(), name@),
            final(self).defs() == old(self).defs(),
            undone(final(self).defs(), final(self).state()) <= undone(old(self).defs(), old(self).state()),
        decreases undone(old(self).defs(), old(self).state()), 0nat, Seq::<Expression>::empty(),
    {
        let ghost defs = self.defs();
        let ghost st = self.state();
        match self.find_state(name) {
            Some(i) => {
                match &self.symbols[i].1 {
                    SymbolState::Failed(e) => {
                        return Err(e.clone());
                    },
                    _ => {},
                }
                return Ok(self.reference_code(name));
            },
            None => {},
        }
        match try_generate_builtin(name) {
            Some(code) => {
                self.set_state(name, SymbolState::Done(code));
                proof {
                    lemma_undone_insert(defs, st, name@, self.state()[name@]);
                }
                return Ok(self.reference_code(name));
            },
            None => {},
        }
        let def = self.find_definition(name);
        match def {
            Some(Some(te)) => {
                self.set_state(name, SymbolState::InProgress);
                proof {
                    lemma_undone_insert(defs, st, name@, SymState::InProgress);
                }
                let r = self.generate_code(name, te);
                match r {
                    Ok(code) => {
                        let ghost before = self.state();
                        self.set_state(name, SymbolState::Done(code));
                        proof {
                            lemma_undone_insert(defs, before, name@, self.state()[name@]);
                        }
                        Ok(self.reference_code(name))
                    },
                    Err(e) => {
                        let ghost before = self.state();
                        let e2 = e.clone();
                        self.set_state(name, SymbolState::Failed(e));
                        proof {
                            lemma_undone_insert(defs, before, name@, self.state()[name@]);
                        }
                        Err(e2)
                    },
                }
            },
            _ => {
                let mut err = String::new();
                push_str(&mut err, "No definition for ");
                push_str(&mut err, name);
                push_str(&mut err, ", or not a generic symbol");
                proof {
                    assert(err@ =~= no_definition_error(name@));
                }
                let e2 = err.clone();
                self.set_state(name, SymbolState::Failed(err));
                proof {
                    lemma_undone_insert(defs, st, name@, self.state()[name@]);
                }
                Err(e2)
            },
        }
    }

    /// The code of a defined symbol whose state is "in progress".
    fn generate_code(&mut self, name: &str, te: &TypedExpression) -> (r: Result<String, String>)
        requires
            !(gen(old(self).defs(), old(self).state(), name@, *te).1 is Panic),
        ensures
            (final(self).state(), outcome_of(r)) == gen(old(self).defs(), old(self).state(), name@, *te),
            final(self).defs() == old(self).defs(),
            undone(final(self).defs(), final(self).state()) <= undone(old(self).defs(), old(self).state()),
        decreases undone(old(self).defs(), old(self).state()), 3nat, Seq::<Expression>::empty(),
    {
        let ts = match &te.type_scheme {
            Some(ts) => ts,
            None => {
                proof {
                    assert(false);
                }
                return Err(String::new());
            },
        };
        if ts.vars.bounds.len() != 0 {
            proof {
                assert(false);
            }
            return Err(String::new());
        }
        match (&te.e, &ts.ty) {
            (Expression::LambdaExpression(params, body), Type::Function(f)) => {
                return self.try_format_function(name, &f.params, &f.value, params, body);
            },
            (Expression::LambdaExpression(params, body), Type::Col) => {
                let mut pts: Vec<Type> = Vec::new();
                pts.push(Type::Int);
                proof {
                    assert(pts@ =~= seq![Type::Int]);
                }
                return self.try_format_function(name, &pts, &Type::Int, params, body);
            },
            _ => {},
        }
        let ty_text = match &ts.ty {
            Type::Col => String::from_str("fn(ibig::IBig) -> FieldElement"),
            _ => map_type(&ts.ty),
        };
        let code = match self.format_expr(&te.e) {
            Ok(c) => c,
            Err(e) => {
                return Err(e);
            },
        };
        let mut out = String::new();
        push_str(&mut out, "lazy_static::lazy_static! {\nstatic ref ");
        let esc = escape_symbol(name);
        push_str(&mut out, esc.as_str());
        push_str(&mut out, ": ");
        push_str(&mut out, ty_text.as_str());
        push_str(&mut out, " = ");
        push_str(&mut out, code.as_str());
        push_str(&mut out, ";\n}\n");
        proof {
            assert(out@ =~= "lazy_static::lazy_static! {\nstatic ref "@ + escaped_symbol(name@) + ": "@ + ty_text@
                + " = "@ + code@ + ";\n}\n"@);
        }
        Ok(out)
    }

    /// The code of a function from a lambda, its parameter types and its return type.
    fn try_format_function(
        &mut self,
        name: &str,
        param_types: &Vec<Type>,
        return_type: &Type,
        params: &Vec<String>,
        body: &Expression,
    ) -> (r: Result<String, String>)
        requires
            !(try_fn(old(self).defs(), old(self).state(), name@, param_types@, *return_type, params@, *body).1 is Panic),
        ensures
            (final(self).state(), outcome_of(r)) == try_fn(
                old(self).defs(),
                old(self).state(),
                name@,
                param_types@,
                *return_type,
                params@,
                *body,
            ),
            final(self).defs() == old(self).defs(),
            undone(final(self).defs(), final(self).state()) <= undone(old(self).defs(), old(self).state()),
        decreases undone(old(self).defs(), old(self).state()), 2nat, Seq::<Expression>::empty(),
    {
        let ret = map_type(return_type);
        let b = match self.format_expr(body) {
            Ok(b) => b,
            Err(e) => {
                return Err(e);
            },
        };
        let ps = params_code(params, param_types);
        let mut out = String::new();
        push_str(&mut out, "fn ");
        let esc = escape_symbol(name);
        push_str(&mut out, esc.as_str());
        push_str(&mut out, "(");
        push_str(&mut out, ps.as_str());
        push_str(&mut out, ") -> ");
        push_str(&mut out, ret.as_str());
        push_str(&mut out, " { ");
        push_str(&mut out, b.as_str());
        push_str(&mut out, " }\n");
        proof {
            assert(out@ =~= "fn "@ + escaped_symbol(name@) + "("@ + params_text(params@, param_types@) + ") -> "@
                + map_type_text(*return_type) + " { "@ + b@ + " }\n"@);
        }
        Ok(out)
    }
}


/// `out` followed by the texts joined by `, `.
fn push_joined(out: &mut String, parts: &Vec<String>)
    ensures
        final(out)@ == old(out)@ + join_with(string_views(parts@), ", "@),
{
    let ghost start = out@;
    let n = parts.len();
    proof {
        assert(string_views(parts@.subrange(0, 0)) =~= Seq::<Seq<char>>::empty());
        assert(out@ =~= start + join_with(string_views(parts@.subrange(0, 0)), ", "@));
    }
    for i in 0..n
        invariant
            n == parts@.len(),
            out@ == start + join_with(string_views(parts@.subrange(0, i as int)), ", "@),
    {
        proof {
            lemma_join_push(string_views(parts@.subrange(0, i as int)), parts@[i as int]@, ", "@);
            assert(string_views(parts@.subrange(0, i + 1)) =~= string_views(parts@.subrange(0, i as int)).push(
                parts@[i as int]@,
            ));
        }
        if i > 0 {
            push_str(out, ", ");
        }
        push_str(out, parts[i].as_str());
        proof {
            assert(out@ =~= start + join_with(string_views(parts@.subrange(0, i + 1)), ", "@));
        }
    }
    proof {
        assert(parts@.subrange(0, n as int) =~= parts@);
    }
}

/// `out` followed by each text with `.clone()` after it, joined by `, `.
fn push_cloned_args(out: &mut String, parts: &Vec<String>)
    ensures
        final(out)@ == old(out)@ + cloned_args_text(string_views(parts@)),
{
    let ghost start = out@;
    let ghost f = |c: Seq<char>| c + ".clone()"@;
    let n = parts.len();
    proof {
        assert(string_views(parts@.subrange(0, 0)).map_values(f) =~= Seq::<Seq<char>>::empty());
        assert(out@ =~= start + join_with(string_views(parts@.subrange(0, 0)).map_values(f), ", "@));
    }
    for i in 0..n
        invariant
            n == parts@.len(),
            f == (|c: Seq<char>| c + ".clone()"@),
            out@ == start + join_with(string_views(parts@.subrange(0, i as int)).map_values(f), ", "@),
    {
        proof {
            lemma_join_push(
                string_views(parts@.subrange(0, i as int)).map_values(f),
                parts@[i as int]@ + ".clone()"@,
                ", "@,
            );
            assert(string_views(parts@.subrange(0, i + 1)).map_values(f) =~= string_views(
                parts@.subrange(0, i as int),
            ).map_values(f).push(parts@[i as int]@ + ".clone()"@));
        }
        if i > 0 {
            push_str(out, ", ");
        }
        push_str(out, parts[i].as_str());
        push_str(out, ".clone()");
        proof {
            assert(out@ =~= start + join_with(string_views(parts@.subrange(0, i + 1)).map_values(f), ", "@));
        }
    }
    proof {
        assert(parts@.subrange(0, n as int) =~= parts@);
    }
}

/// The codes `cs` put before the codes of a list outcome.
pub open spec fn prepend_codes(cs: Seq<Seq<char>>, r: (Map<Seq<char>, SymState>, ListOutcome)) -> (
    Map<Seq<char>, SymState>,
    ListOutcome,
) {
    match r.1 {
        ListOutcome::Codes(rest) => (r.0, ListOutcome::Codes(cs + rest)),
        _ => r,
    }
}

proof fn lemma_prepend_step(cs: Seq<Seq<char>>, c: Seq<char>, x: (Map<Seq<char>, SymState>, ListOutcome))
    ensures
        prepend_codes(cs, prepend_codes(seq![c], x)) == prepend_codes(cs.push(c), x),
{
    match x.1 {
        ListOutcome::Codes(rest) => {
            assert(cs + (seq![c] + rest) =~= cs.push(c) + rest);
        },
        _ => {},
    }
}

impl<'a> CodeGenerator<'a> {
    /// The code of an expression; the symbols it refers to are requested.
    #[verifier::spinoff_prover]
    #[verifier::rlimit(40)]
    fn format_expr(&mut self, e: &Expression) -> (r: Result<String, String>)
        requires
            !(fmt(old(self).defs(), old(self).state(), *e).1 is Panic),
        ensures
            (final(self).state(), outcome_of(r)) == fmt(old(self).defs(), old(self).state(), *e),
            final(self).defs() == old(self).defs(),
            undone(final(self).defs(), final(self).state()) <= undone(old(self).defs(), old(self).state()),
        decreases undone(old(self).defs(), old(self).state()), 1nat, *e,
    {
        match e {
            Expression::Reference(Reference::LocalVar(_, n)) => Ok(n.clone()),
            Expression::Reference(Reference::Poly(n, ta)) => {
                let refr = match self.request_symbol(n.as_str()) {
                    Ok(c) => c,
                    Err(x) => {
                        return Err(x);
                    },
                };
                match ta {
                    Some(ts) => {
                        let mut out = refr;
                        if ts.len() > 0 {
                            push_str(&mut out, "::<");
                            push_map_types(ts, &mut out);
                            push_str(&mut out, ">");
                        }
                        proof {
                            assert(out@ =~= refr@ + type_args_text(ts@));
                        }
                        Ok(out)
                    },
                    None => {
                        proof {
                            assert(false);
                        }
                        Err(String::new())
                    },
                }
            },
            Expression::Number(v, Some(t)) => {
                let mut out = String::new();
                match t {
                    Type::Int => push_str(&mut out, "ibig::IBig::from("),
                    Type::Fe => push_str(&mut out, "FieldElement::from("),
                    Type::Expr => push_str(&mut out, "Expr::from("),
                    _ => {
                        proof {
                            assert(false);
                        }
                    },
                }
                push_decimal(&mut out, *v);
                push_str(&mut out, "_u64)");
                proof {
                    match t {
                        Type::Int => assert(out@ =~= "ibig::IBig::from("@ + decimal(*v as nat) + "_u64)"@),
                        Type::Fe => assert(out@ =~= "FieldElement::from("@ + decimal(*v as nat) + "_u64)"@),
                        _ => assert(out@ =~= "Expr::from("@ + decimal(*v as nat) + "_u64)"@),
                    }
                }
                Ok(out)
            },
            Expression::Number(v, None) => {
                let mut out = String::new();
                push_str(&mut out, "Implement ");
                push_decimal(&mut out, *v);
                Err(out)
            },
            Expression::FunctionCall(f, args) => {
                let fc = match self.format_expr(f) {
                    Ok(c) => c,
                    Err(x) => {
                        return Err(x);
                    },
                };
                let cs = match self.format_exprs(args) {
                    Ok(cs) => cs,
                    Err(x) => {
                        return Err(x);
                    },
                };
                let mut out = String::new();
                push_str(&mut out, "(");
                push_str(&mut out, fc.as_str());
                push_str(&mut out, ")(");
                push_cloned_args(&mut out, &cs);
                push_str(&mut out, ")");
                proof {
                    assert(out@ =~= "("@ + fc@ + ")("@ + cloned_args_text(string_views(cs@)) + ")"@);
                }
                Ok(out)
            },
            Expression::BinaryOperation(l, op, r) => {
                let lc = match self.format_expr(l) {
                    Ok(c) => c,
                    Err(x) => {
                        return Err(x);
                    },
                };
                let rc = match self.format_expr(r) {
                    Ok(c) => c,
                    Err(x) => {
                        return Err(x);
                    },
                };
                let mut out = String::new();
                push_str(&mut out, "((");
                push_str(&mut out, lc.as_str());
                match op {
                    BinaryOperator::ShiftLeft => {
                        push_str(&mut out, ").clone() << u32::try_from((");
                        push_str(&mut out, rc.as_str());
                        push_str(&mut out, ").clone()).unwrap())");
                        proof {
                            assert(out@ =~= "(("@ + lc@ + ").clone() << u32::try_from(("@ + rc@
                                + ").clone()).unwrap())"@);
                        }
                    },
                    _ => {
                        push_str(&mut out, ").clone() ");
                        let o = op.to_string();
                        push_str(&mut out, o.as_str());
                        push_str(&mut out, " (");
                        push_str(&mut out, rc.as_str());
                        push_str(&mut out, ").clone())");
                        proof {
                            assert(out@ =~= "(("@ + lc@ + ").clone() "@ + binary_op_text(*op) + " ("@ + rc@
                                + ").clone())"@);
                        }
                    },
                }
                Ok(out)
            },
            Expression::UnaryOperation(op, x) => {
                let c = match self.format_expr(x) {
                    Ok(c) => c,
                    Err(x) => {
                        return Err(x);
                    },
                };
                let mut out = String::new();
                push_str(&mut out, "(");
                let o = op.to_string();
                push_str(&mut out, o.as_str());
                push_str(&mut out, " (");
                push_str(&mut out, c.as_str());
                push_str(&mut out, ").clone())");
                proof {
                    assert(out@ =~= "("@ + unary_op_text(*op) + " ("@ + c@ + ").clone())"@);
                }
                Ok(out)
            },
            Expression::IndexAccess(a, i) => {
                let ac = match self.format_expr(a) {
                    Ok(c) => c,
                    Err(x) => {
                        return Err(x);
                    },
                };
                let ic = match self.format_expr(i) {
                    Ok(c) => c,
                    Err(x) => {
                        return Err(x);
                    },
                };
                let mut out = ac;
                push_str(&mut out, "[usize::try_from(");
                push_str(&mut out, ic.as_str());
                push_str(&mut out, ").unwrap()].clone()");
                proof {
                    assert(out@ =~= ac@ + "[usize::try_from("@ + ic@ + ").unwrap()].clone()"@);
                }
                Ok(out)
            },
            Expression::LambdaExpression(params, body) => {
                let b = match self.format_expr(body) {
                    Ok(c) => c,
                    Err(x) => {
                        return Err(x);
                    },
                };
                let mut out = String::new();
                push_str(&mut out, "|");
                push_joined(&mut out, params);
                push_str(&mut out, "| { ");
                push_str(&mut out, b.as_str());
                push_str(&mut out, " }");
                proof {
                    assert(out@ =~= "|"@ + join_with(string_views(params@), ", "@) + "| { "@ + b@ + " }"@);
                }
                Ok(out)
            },
            Expression::IfExpression(c, b, o) => {
                let cc = match self.format_expr(c) {
                    Ok(c) => c,
                    Err(x) => {
                        return Err(x);
                    },
                };
                let bc = match self.format_expr(b) {
                    Ok(c) => c,
                    Err(x) => {
                        return Err(x);
                    },
                };
                let oc = match self.format_expr(o) {
                    Ok(c) => c,
                    Err(x) => {
                        return Err(x);
                    },
                };
                let mut out = String::new();
                push_str(&mut out, "if ");
                push_str(&mut out, cc.as_str());
                push_str(&mut out, " { ");
                push_str(&mut out, bc.as_str());
                push_str(&mut out, " } else { ");
                push_str(&mut out, oc.as_str());
                push_str(&mut out, " }");
                proof {
                    assert(out@ =~= "if "@ + cc@ + " { "@ + bc@ + " } else { "@ + oc@ + " }"@);
                }
                Ok(out)
            },
            Expression::ArrayLiteral(items) => {
                let cs = match self.format_exprs(items) {
                    Ok(cs) => cs,
                    Err(x) => {
                        return Err(x);
                    },
                };
                let mut out = String::new();
                push_str(&mut out, "vec![");
                push_joined(&mut out, &cs);
                push_str(&mut out, "]");
                proof {
                    assert(out@ =~= "vec!["@ + join_with(string_views(cs@), ", "@) + "]"@);
                }
                Ok(out)
            },
            Expression::String(v) => Ok(quote(v.as_str())),
            Expression::Tuple(items) => {
                let cs = match self.format_exprs(items) {
                    Ok(cs) => cs,
                    Err(x) => {
                        return Err(x);
                    },
                };
                let mut out = String::new();
                push_str(&mut out, "(");
                push_joined(&mut out, &cs);
                push_str(&mut out, ")");
                proof {
                    assert(out@ =~= "("@ + join_with(string_views(cs@), ", "@) + ")"@);
                }
                Ok(out)
            },
            Expression::BlockExpression(statements, x) => {
                if statements.len() > 0 {
                    let mut out = String::new();
                    push_str(&mut out, "Compiling statements inside blocks is not yet implemented: ");
                    push_str(&mut out, statements[0].as_str());
                    return Err(out);
                }
                match x {
                    None => Ok(String::from_str("{\n\n\n}")),
                    Some(b) => {
                        let c = match self.format_expr(b) {
                            Ok(c) => c,
                            Err(x) => {
                                return Err(x);
                            },
                        };
                        let mut out = String::new();
                        push_str(&mut out, "{\n\n");
                        push_str(&mut out, c.as_str());
                        push_str(&mut out, "\n}");
                        proof {
                            assert(out@ =~= "{\n\n"@ + c@ + "\n}"@);
                        }
                        Ok(out)
                    },
                }
            },
            Expression::Other(text) => {
                let mut out = String::new();
                push_str(&mut out, "Implement ");
                push_str(&mut out, text.as_str());
                Err(out)
            },
        }
    }

    /// The codes of a list of expressions, left to right; the first error stops.
    fn format_exprs(&mut self, es: &Vec<Expression>) -> (r: Result<Vec<String>, String>)
        requires
            !(fmt_list(old(self).defs(), old(self).state(), es@).1 is Panic),
        ensures
            (final(self).state(), list_outcome_of(r)) == fmt_list(old(self).defs(), old(self).state(), es@),
            final(self).defs() == old(self).defs(),
            undone(final(self).defs(), final(self).state()) <= undone(old(self).defs(), old(self).state()),
        decreases undone(old(self).defs(), old(self).state()), 1nat, es@,
    {
        let ghost defs = self.defs();
        let ghost st0 = self.state();
        let mut codes: Vec<String> = Vec::new();
        let n = es.len();
        proof {
            assert(es@.subrange(0, n as int) =~= es@);
            let x = fmt_list(defs, st0, es@);
            match x.1 {
                ListOutcome::Codes(rest) => {
                    assert(string_views(codes@) + rest =~= rest);
                },
                _ => {},
            }
        }
        let mut i: usize = 0;
        while i < n
            invariant
                i <= n,
                n == es@.len(),
                defs == old(self).defs(),
                st0 == old(self).state(),
                self.defs() == defs,
                undone(defs, self.state()) <= undone(defs, st0),
                !(fmt_list(defs, st0, es@).1 is Panic),
                fmt_list(defs, st0, es@) == prepend_codes(
                    string_views(codes@),
                    fmt_list(defs, self.state(), es@.subrange(i as int, n as int)),
                ),
            decreases n - i,
        {
            let ghost cur = self.state();
            let ghost rest = es@.subrange(i as int, n as int);
            proof {
                assert(rest[0] == es@[i as int]);
                assert(rest.subrange(1, rest.len() as int) =~= es@.subrange(i + 1, n as int));
            }
            match self.format_expr(&es[i]) {
                Ok(c) => {
                    proof {
                        lemma_prepend_step(
                            string_views(codes@),
                            c@,
                            fmt_list(defs, self.state(), es@.subrange(i + 1, n as int)),
                        );
                    }
                    let ghost cv = c@;
                    let ghost before = codes@;
                    codes.push(c);
                    proof {
                        assert(string_views(codes@) =~= string_views(before).push(cv));
                    }
                },
                Err(x) => {
                    return Err(x);
                },
            }
            i = i + 1;
        }
        proof {
            assert(es@.subrange(n as int, n as int) =~= Seq::<Expression>::empty());
            assert(string_views(codes@) + Seq::<Seq<char>>::empty() =~= string_views(codes@));
        }
        Ok(codes)
    }
}


/// The names of a sequence of entries, in order.
pub open spec fn entry_names(v: Seq<(String, SymbolState)>) -> Seq<Seq<char>> {
    v.map_values(|e: (String, SymbolState)| e.0@)
}

/// The symbols whose code has been generated.
pub open spec fn done_names(st: Map<Seq<char>, SymState>) -> Set<Seq<char>> {
    Set::new(|n: Seq<char>| st.contains_key(n) && st[n] is Done)
}

/// The generated code of a symbol.
pub open spec fn done_code(st: Map<Seq<char>, SymState>, n: Seq<char>) -> Seq<char> {
    match st[n] {
        SymState::Done(c) => c,
        _ => seq![],
    }
}

/// The codes of the given symbols, joined by newlines.
pub open spec fn codes_text(st: Map<Seq<char>, SymState>, names: Seq<Seq<char>>) -> Seq<char> {
    join_with(names.map_values(|n: Seq<char>| done_code(st, n)), "\n"@)
}

proof fn lemma_table_dom(v: Seq<(String, SymbolState)>)
    ensures
        table_map(v).dom() == entry_names(v).to_set(),
    decreases v.len(),
{
    if v.len() == 0 {
        assert(entry_names(v).to_set() =~= Set::<Seq<char>>::empty());
        assert(table_map(v).dom() =~= Set::<Seq<char>>::empty());
    } else {
        lemma_table_dom(v.drop_last());
        assert(entry_names(v) =~= entry_names(v.drop_last()).push(v.last().0@));
        lemma_push_to_set(entry_names(v.drop_last()), v.last().0@);
        assert(table_map(v).dom() =~= table_map(v.drop_last()).dom().insert(v.last().0@));
    }
}

impl<'a> CodeGenerator<'a> {
    /// The code of every symbol that was compiled, ordered by the symbols' names and
    /// joined by newlines.
    pub fn compiled_symbols(self) -> (r: String)
        ensures
            exists|names: Seq<Seq<char>>|
                strictly_sorted(names) && names.to_set() == done_names(self.state()) && r@ == codes_text(
                    self.state(),
                    names,
                ),
    {
        let ghost st = self.state();
        let mut names: Vec<String> = Vec::new();
        let m = self.symbols.len();
        proof {
            assert(entry_names(self.symbols@.subrange(0, 0)).to_set() =~= Set::<Seq<char>>::empty());
            assert(string_views(names@).to_set() =~= Set::<Seq<char>>::empty());
            assert(done_names(st).intersect(Set::<Seq<char>>::empty()) =~= Set::<Seq<char>>::empty());
        }
        for j in 0..m
            invariant
                m == self.symbols@.len(),
                st == self.state(),
                strictly_sorted(string_views(names@)),
                string_views(names@).to_set() == done_names(st).intersect(
                    entry_names(self.symbols@.subrange(0, j as int)).to_set(),
                ),
        {
            let nm = &self.symbols[j].0;
            let ghost pre = entry_names(self.symbols@.subrange(0, j as int));
            proof {
                assert(entry_names(self.symbols@.subrange(0, j + 1)) =~= pre.push(nm@));
                lemma_push_to_set(pre, nm@);
            }
            let done = match self.find_state(nm.as_str()) {
                Some(k) => match &self.symbols[k].1 {
                    SymbolState::Done(_) => true,
                    _ => false,
                },
                None => false,
            };
            if done {
                insert_sorted(&mut names, nm.clone());
                proof {
                    assert(done_names(st).contains(nm@));
                    assert(string_views(names@).to_set() =~= done_names(st).intersect(pre.push(nm@).to_set()));
                }
            } else {
                proof {
                    assert(!done_names(st).contains(nm@));
                    assert(string_views(names@).to_set() =~= done_names(st).intersect(pre.push(nm@).to_set()));
                }
            }
        }
        let ghost nv = string_views(names@);
        proof {
            assert(self.symbols@.subrange(0, m as int) =~= self.symbols@);
            lemma_table_dom(self.symbols@);
            assert(nv.to_set() =~= done_names(st));
        }
        let mut out = String::new();
        let count = names.len();
        proof {
            assert(nv.subrange(0, 0).map_values(|n: Seq<char>| done_code(st, n)) =~= Seq::<Seq<char>>::empty());
        }
        for i in 0..count
            invariant
                count == names@.len(),
                nv == string_views(names@),
                nv.to_set() == done_names(st),
                st == self.state(),
                out@ == codes_text(st, nv.subrange(0, i as int)),
        {
            proof {
                assert(nv[i as int] == names@[i as int]@);
                assert(nv.to_set().contains(nv[i as int]));
            }
            let k = match self.find_state(names[i].as_str()) {
                Some(k) => k,
                None => {
                    proof {
                        assert(false);
                    }
                    0
                },
            };
            let ghost prev = nv.subrange(0, i as int).map_values(|n: Seq<char>| done_code(st, n));
            proof {
                assert(nv.subrange(0, i + 1).map_values(|n: Seq<char>| done_code(st, n)) =~= prev.push(
                    done_code(st, nv[i as int]),
                ));
                lemma_join_push(prev, done_code(st, nv[i as int]), "\n"@);
            }
            match &self.symbols[k].1 {
                SymbolState::Done(c) => {
                    if i > 0 {
                        push_str(&mut out, "\n");
                    }
                    push_str(&mut out, c.as_str());
                },
                _ => {
                    proof {
                        assert(false);
                    }
                },
            }
            proof {
                assert(out@ =~= codes_text(st, nv.subrange(0, i + 1)));
            }
        }
        proof {
            assert(nv.subrange(0, count as int) =~= nv);
        }
        out
    }
}


/// Every symbol known in `st` is known in `st2`, and every symbol whose code or
/// error was recorded in `st` has the same record in `st2`.
pub open spec fn keeps_records(st: Map<Seq<char>, SymState>, st2: Map<Seq<char>, SymState>) -> bool {
    forall|k: Seq<char>|
        #[trigger] st.contains_key(k) ==> st2.contains_key(k) && (!(st[k] is InProgress) ==> st2[k] == st[k])
}

proof fn lemma_keeps_trans(a: Map<Seq<char>, SymState>, b: Map<Seq<char>, SymState>, c: Map<Seq<char>, SymState>)
    requires
        keeps_records(a, b),
        keeps_records(b, c),
    ensures
        keeps_records(a, c),
{
    assert forall|k: Seq<char>| #[trigger] a.contains_key(k) implies c.contains_key(k) && (!(a[k] is InProgress)
        ==> c[k] == a[k]) by {
        assert(b.contains_key(k));
    }
}

proof fn lemma_req_keeps(defs: Seq<(String, Option<TypedExpression>)>, st: Map<Seq<char>, SymState>, name: Seq<char>)
    ensures
        keeps_records(st, req(defs, st, name).0),
    decreases undone(defs, st), 0nat, Seq::<Expression>::empty(),
{
    if !st.contains_key(name) && builtin_code(name) is None {
        match def_lookup(defs, name) {
            Some(Some(te)) => {
                let st1 = st.insert(name, SymState::InProgress);
                lemma_undone_insert(defs, st, name, SymState::InProgress);
                lemma_gen_keeps(defs, st1, name, te);
                let st2 = gen(defs, st1, name, te).0;
                assert(keeps_records(st, st1));
                lemma_keeps_trans(st, st1, st2);
                assert forall|x: SymState| keeps_records(st, #[trigger] st2.insert(name, x)) by {
                    assert forall|k: Seq<char>| #[trigger] st.contains_key(k) implies st2.insert(name, x).contains_key(k)
                        && (!(st[k] is InProgress) ==> st2.insert(name, x)[k] == st[k]) by {
                        assert(st2.contains_key(k));
                    }
                }
            },
            _ => {},
        }
    }
}

proof fn lemma_gen_keeps(
    defs: Seq<(String, Option<TypedExpression>)>,
    st: Map<Seq<char>, SymState>,
    name: Seq<char>,
    te: TypedExpression,
)
    ensures
        keeps_records(st, gen(defs, st, name, te).0),
    decreases undone(defs, st), 3nat, Seq::<Expression>::empty(),
{
    match te.type_scheme {
        None => {},
        Some(ts) => if ts.vars.bounds@.len() == 0 {
            match (te.e, ts.ty) {
                (Expression::LambdaExpression(params, body), Type::Function(f)) => {
                    lemma_try_fn_keeps(defs, st, name, f.params@, *f.value, params@, *body);
                },
                (Expression::LambdaExpression(params, body), Type::Col) => {
                    lemma_try_fn_keeps(defs, st, name, seq![Type::Int], Type::Int, params@, *body);
                },
                _ => if ts.ty is Col || map_type_ok(ts.ty) {
                    lemma_fmt_keeps(defs, st, te.e);
                },
            }
        },
    }
}

proof fn lemma_try_fn_keeps(
    defs: Seq<(String, Option<TypedExpression>)>,
    st: Map<Seq<char>, SymState>,
    name: Seq<char>,
    param_types: Seq<Type>,
    ret: Type,
    params: Seq<String>,
    body: Expression,
)
    ensures
        keeps_records(st, try_fn(defs, st, name, param_types, ret, params, body).0),
    decreases undone(defs, st), 2nat, Seq::<Expression>::empty(),
{
    if map_type_ok(ret) {
        lemma_fmt_keeps(defs, st, body);
    }
}

proof fn lemma_fmt_keeps(defs: Seq<(String, Option<TypedExpression>)>, st: Map<Seq<char>, SymState>, e: Expression)
    ensures
        keeps_records(st, fmt(defs, st, e).0),
    decreases undone(defs, st), 1nat, e,
{
    match e {
        Expression::Reference(Reference::Poly(n, ta)) => {
            lemma_req_keeps(defs, st, n@);
        },
        Expression::FunctionCall(f, args) => {
            lemma_fmt_keeps(defs, st, *f);
            let (s1, rf) = fmt(defs, st, *f);
            if rf is Code && undone(defs, s1) <= undone(defs, st) {
                lemma_fmt_list_keeps(defs, s1, args@);
                lemma_keeps_trans(st, s1, fmt_list(defs, s1, args@).0);
            }
        },
        Expression::BinaryOperation(l, op, r) => {
            lemma_fmt_keeps(defs, st, *l);
            let (s1, rl) = fmt(defs, st, *l);
            if rl is Code && undone(defs, s1) <= undone(defs, st) {
                lemma_fmt_keeps(defs, s1, *r);
                lemma_keeps_trans(st, s1, fmt(defs, s1, *r).0);
            }
        },
        Expression::UnaryOperation(op, x) => {
            lemma_fmt_keeps(defs, st, *x);
        },
        Expression::IndexAccess(a, i) => {
            lemma_fmt_keeps(defs, st, *a);
            let (s1, ra) = fmt(defs, st, *a);
            if ra is Code && undone(defs, s1) <= undone(defs, st) {
                lemma_fmt_keeps(defs, s1, *i);
                lemma_keeps_trans(st, s1, fmt(defs, s1, *i).0);
            }
        },
        Expression::LambdaExpression(params, body) => {
            lemma_fmt_keeps(defs, st, *body);
        },
        Expression::IfExpression(c, b, o) => {
            lemma_fmt_keeps(defs, st, *c);
            let (s1, rc) = fmt(defs, st, *c);
            if rc is Code && undone(defs, s1) <= undone(defs, st) {
                lemma_fmt_keeps(defs, s1, *b);
                let (s2, rb) = fmt(defs, s1, *b);
                lemma_keeps_trans(st, s1, s2);
                if rb is Code && undone(defs, s2) <= undone(defs, st) {
                    lemma_fmt_keeps(defs, s2, *o);
                    lemma_keeps_trans(st, s2, fmt(defs, s2, *o).0);
                }
            }
        },
        Expression::ArrayLiteral(items) => {
            lemma_fmt_list_keeps(defs, st, items@);
        },
        Expression::Tuple(items) => {
            lemma_fmt_list_keeps(defs, st, items@);
        },
        Expression::BlockExpression(statements, x) => if statements@.len() == 0 {
            match x {
                None => {},
                Some(b) => {
                    lemma_fmt_keeps(defs, st, *b);
                },
            }
        },
        _ => {},
    }
}

proof fn lemma_fmt_list_keeps(
    defs: Seq<(String, Option<TypedExpression>)>,
    st: Map<Seq<char>, SymState>,
    es: Seq<Expression>,
)
    ensures
        keeps_records(st, fmt_list(defs, st, es).0),
    decreases undone(defs, st), 1nat, es,
{
    if es.len() > 0 {
        lemma_fmt_keeps(defs, st, es[0]);
        let (s1, r) = fmt(defs, st, es[0]);
        if r is Code && undone(defs, s1) <= undone(defs, st) {
            lemma_fmt_list_keeps(defs, s1, es.subrange(1, es.len() as int));
            lemma_keeps_trans(st, s1, fmt_list(defs, s1, es.subrange(1, es.len() as int)).0);
        }
    }
}

/// A request keeps what earlier requests recorded: every symbol known before is
/// still known, and every symbol compiled or failed before keeps its code or its
/// error. So after a request fails, each symbol that was compiled before is still
/// referred to exactly as before.
pub proof fn law_request_keeps_earlier_symbols(
    defs: Seq<(String, Option<TypedExpression>)>,
    st: Map<Seq<char>, SymState>,
    name: Seq<char>,
    other: Seq<char>,
)
    ensures
        keeps_records(st, req(defs, st, name).0),
        st.contains_key(other) && st[other] is Done ==> req(defs, req(defs, st, name).0, other).1 == req(
            defs,
            st,
            other,
        ).1,
{
    lemma_req_keeps(defs, st, name);
    let st1 = req(defs, st, name).0;
    if st.contains_key(other) && st[other] is Done {
        assert(st1.contains_key(other));
        assert(st1[other] == st[other]);
    }
}

/// Requesting a symbol a second time gives the same answer and changes nothing:
/// a failed symbol fails with the same error, any other symbol is referred to the
/// same way. A symbol whose request failed has no compiled code.
pub proof fn law_request_is_idempotent(
    defs: Seq<(String, Option<TypedExpression>)>,
    st: Map<Seq<char>, SymState>,
    name: Seq<char>,
)
    requires
        !(req(defs, st, name).1 is Panic),
    ensures
        req(defs, req(defs, st, name).0, name) == req(defs, st, name),
        req(defs, st, name).1 is Error ==> !done_names(req(defs, st, name).0).contains(name),
{
    let (st1, r) = req(defs, st, name);
    assert(st1.contains_key(name));
    match r {
        Outcome::Error(e) => {
            assert(st1[name] == SymState::Failed(e));
        },
        _ => {
            assert(!(st1[name] is Failed));
        },
    }
}

/// The code of an operation applies the operator it was written with: the code of
/// a unary operation is the operator's own source symbol in front of its
/// operand's code, the code of a binary operation has the operator's symbol between
/// its operands' codes (a left shift converts its amount to `u32`), and so two
/// different unary operators on the same operand never give the same code.
pub proof fn law_code_applies_the_operator(
    defs: Seq<(String, Option<TypedExpression>)>,
    st: Map<Seq<char>, SymState>,
    op: UnaryOperator,
    other: UnaryOperator,
    x: Expression,
)
    ensures
        fmt(defs, st, x).1 matches Outcome::Code(c) ==> fmt(defs, st, Expression::UnaryOperation(op, Box::new(x)))
            == (fmt(defs, st, x).0, Outcome::Code("("@ + unary_op_text(op) + " ("@ + c + ").clone())"@)),
        fmt(defs, st, x).1 matches Outcome::Code(c) && op != other ==> fmt(
            defs,
            st,
            Expression::UnaryOperation(op, Box::new(x)),
        ).1 != fmt(defs, st, Expression::UnaryOperation(other, Box::new(x))).1,
{
    if let Outcome::Code(c) = fmt(defs, st, x).1 {
        let a = "("@ + unary_op_text(op) + " ("@ + c + ").clone())"@;
        let b = "("@ + unary_op_text(other) + " ("@ + c + ").clone())"@;
        reveal_strlit("(");
        assert(a[1] == unary_op_text(op)[0]);
        assert(b[1] == unary_op_text(other)[0]);
        if op != other {
            assert(a[1] != b[1]);
        }
    }
}

/// The code of a binary operation has the operator's own source symbol between the
/// codes of its operands.
pub proof fn law_code_applies_the_binary_operator(
    defs: Seq<(String, Option<TypedExpression>)>,
    st: Map<Seq<char>, SymState>,
    op: BinaryOperator,
    l: Expression,
    r: Expression,
)
    ensures
        ({
            let (s1, rl) = fmt(defs, st, l);
            match rl {
                Outcome::Code(lc) => match fmt(defs, s1, r).1 {
                    Outcome::Code(rc) => undone(defs, s1) <= undone(defs, st) ==> fmt(
                        defs,
                        st,
                        Expression::BinaryOperation(Box::new(l), op, Box::new(r)),
                    ).1 == Outcome::Code(
                        if op is ShiftLeft {
                            "(("@ + lc + ").clone() << u32::try_from(("@ + rc + ").clone()).unwrap())"@
                        } else {
                            "(("@ + lc + ").clone() "@ + binary_op_text(op) + " ("@ + rc + ").clone())"@
                        },
                    ),
                    _ => true,
                },
                _ => true,
            }
        }),
{
}

} // verus!
