//! Textual form of language constructs: quoted strings, parameters, symbol paths
//! and types.
use vstd::prelude::*;

use crate::text::{decimal, join_with, lemma_join_push, push_decimal, string_push, string_views};

verus! {

// ---------------------------------------------------------------------------
// Quoting
// ---------------------------------------------------------------------------
/// The lowercase hexadecimal digit for `d < 16`.
pub open spec fn hex_digit(d: nat) -> char {
    if d < 10 {
        crate::text::digit_char(d)
    } else if d == 10 {
        'a'
    } else if d == 11 {
        'b'
    } else if d == 12 {
        'c'
    } else if d == 13 {
        'd'
    } else if d == 14 {
        'e'
    } else {
        'f'
    }
}

/// The lowercase hexadecimal text of `n`, without leading zeros.
pub open spec fn hex_text(n: nat) -> Seq<char>
    decreases n,
{
    if n < 16 {
        seq![hex_digit(n)]
    } else {
        hex_text(n / 16).push(hex_digit(n % 16))
    }
}

/// How a character is written inside a quoted string: tab, carriage return and line
/// feed as `\t`, `\r`, `\n`; backslash and both quotes preceded by a backslash;
/// printable ASCII as itself; everything else as `\u{...}` with its code point in
/// lowercase hexadecimal.
pub open spec fn escape_char(c: char) -> Seq<char> {
    if c == '\t' {
        seq!['\\', 't']
    } else if c == '\r' {
        seq!['\\', 'r']
    } else if c == '\n' {
        seq!['\\', 'n']
    } else if c == '\\' || c == '\'' || c == '"' {
        seq!['\\', c]
    } else if 0x20 <= (c as u32) && (c as u32) <= 0x7e {
        seq![c]
    } else {
        seq!['\\', 'u', '{'] + hex_text(c as u32 as nat) + seq!['}']
    }
}

/// The escaped form of a whole string.
pub open spec fn escape_text(s: Seq<char>) -> Seq<char>
    decreases s.len(),
{
    if s.len() == 0 {
        seq![]
    } else {
        escape_text(s.drop_last()) + escape_char(s.last())
    }
}

fn hex_char(d: u32) -> (c: char)
    requires
        d < 16,
    ensures
        c == hex_digit(d as nat),
{
    if d == 0 {
        '0'
    } else if d == 1 {
        '1'
    } else if d == 2 {
        '2'
    } else if d == 3 {
        '3'
    } else if d == 4 {
        '4'
    } else if d == 5 {
        '5'
    } else if d == 6 {
        '6'
    } else if d == 7 {
        '7'
    } else if d == 8 {
        '8'
    } else if d == 9 {
        '9'
    } else if d == 10 {
        'a'
    } else if d == 11 {
        'b'
    } else if d == 12 {
        'c'
    } else if d == 13 {
        'd'
    } else if d == 14 {
        'e'
    } else {
        'f'
    }
}

fn push_hex(out: &mut String, n: u32)
    ensures
        final(out)@ == old(out)@ + hex_text(n as nat),
    decreases n,
{
    if n >= 16 {
        push_hex(out, n / 16);
    }
    string_push(out, hex_char(n % 16));
    proof {
        assert(final(out)@ =~= old(out)@ + hex_text(n as nat));
    }
}

fn push_escaped(out: &mut String, c: char)
    ensures
        final(out)@ == old(out)@ + escape_char(c),
{
    let code = c as u32;
    if c == '\t' {
        string_push(out, '\\');
        string_push(out, 't');
    } else if c == '\r' {
        string_push(out, '\\');
        string_push(out, 'r');
    } else if c == '\n' {
        string_push(out, '\\');
        string_push(out, 'n');
    } else if c == '\\' || c == '\'' || c == '"' {
        string_push(out, '\\');
        string_push(out, c);
    } else if 0x20 <= code && code <= 0x7e {
        string_push(out, c);
    } else {
        string_push(out, '\\');
        string_push(out, 'u');
        string_push(out, '{');
        push_hex(out, code);
        string_push(out, '}');
    }
    proof {
        assert(final(out)@ =~= old(out)@ + escape_char(c));
    }
}

/// The string in double quotes, with special characters escaped.
pub fn quote(input: &str) -> (r: String)
    ensures
        r@ == seq!['"'] + escape_text(input@) + seq!['"'],
{
    let mut out = String::new();
    string_push(&mut out, '"');
    let n = input.unicode_len();
    for i in 0..n
        invariant
            n == input@.len(),
            out@ == seq!['"'] + escape_text(input@.subrange(0, i as int)),
    {
        let c = input.get_char(i);
        push_escaped(&mut out, c);
        proof {
            assert(input@.subrange(0, i + 1).drop_last() =~= input@.subrange(0, i as int));
            assert(out@ =~= seq!['"'] + escape_text(input@.subrange(0, i + 1)));
        }
    }
    string_push(&mut out, '"');
    proof {
        assert(input@.subrange(0, n as int) =~= input@);
        assert(out@ =~= seq!['"'] + escape_text(input@) + seq!['"']);
    }
    out
}

// ---------------------------------------------------------------------------
// Parameters
// ---------------------------------------------------------------------------
/// A parameter: name, optional array size and optional type.
pub struct Param {
    pub name: String,
    pub index: Option<u64>,
    pub ty: Option<String>,
}

/// `name[index]: ty`, leaving out the parts that are absent.
pub open spec fn param_text(p: Param) -> Seq<char> {
    p.name@ + match p.index {
        Some(i) => seq!['['] + decimal(i as nat) + seq![']'],
        None => seq![],
    } + match p.ty {
        Some(t) => seq![':', ' '] + t@,
        None => seq![],
    }
}

/// The separator of list items.
pub open spec fn comma_sep() -> Seq<char> {
    seq![',', ' ']
}

/// The texts of a list of parameters.
pub open spec fn param_texts(ps: Seq<Param>) -> Seq<Seq<char>> {
    ps.map_values(|p: Param| param_text(p))
}

/// Inputs and outputs of an operation or function.
pub struct Params {
    pub inputs: Vec<Param>,
    pub outputs: Vec<Param>,
}

/// `inputs -> outputs`, each list joined by `, `; the arrow is left out without
/// outputs and has no leading space without inputs.
pub open spec fn params_text(p: Params) -> Seq<char> {
    join_with(param_texts(p.inputs@), comma_sep()) + if p.outputs@.len() == 0 {
        seq![]
    } else if p.inputs@.len() == 0 {
        seq!['-', '>', ' ']
    } else {
        seq![' ', '-', '>', ' ']
    } + join_with(param_texts(p.outputs@), comma_sep())
}

fn push_string(out: &mut String, s: &String)
    ensures
        final(out)@ == old(out)@ + s@,
{
    out.append(s.as_str());
}

/// Appends the items' texts joined by `, `.
fn push_param_list(out: &mut String, ps: &Vec<Param>)
    ensures
        final(out)@ == old(out)@ + join_with(param_texts(ps@), comma_sep()),
{
    let ghost start = out@;
    let n = ps.len();
    let ghost texts = param_texts(ps@);
    for i in 0..n
        invariant
            n == ps@.len(),
            texts == param_texts(ps@),
            out@ == start + join_with(texts.subrange(0, i as int), comma_sep()),
    {
        proof {
            assert(texts.subrange(0, i + 1) =~= texts.subrange(0, i as int).push(texts[i as int]));
            lemma_join_push(texts.subrange(0, i as int), texts[i as int], comma_sep());
        }
        if i > 0 {
            string_push(out, ',');
            string_push(out, ' ');
        }
        ps[i].write_to(out);
        proof {
            assert(out@ =~= start + join_with(texts.subrange(0, i + 1), comma_sep()));
        }
    }
    proof {
        assert(texts.subrange(0, n as int) =~= texts);
    }
}

impl Param {
    fn write_to(&self, out: &mut String)
        ensures
            final(out)@ == old(out)@ + param_text(*self),
    {
        push_string(out, &self.name);
        match self.index {
            Some(i) => {
                string_push(out, '[');
                push_decimal(out, i);
                string_push(out, ']');
            },
            None => {},
        }
        match &self.ty {
            Some(t) => {
                string_push(out, ':');
                string_push(out, ' ');
                push_string(out, t);
            },
            None => {},
        }
        proof {
            assert(final(out)@ =~= old(out)@ + param_text(*self));
        }
    }

    /// The text of the parameter.
    pub fn to_string(&self) -> (r: String)
        ensures
            r@ == param_text(*self),
    {
        let mut s = String::new();
        self.write_to(&mut s);
        proof {
            assert(s@ =~= param_text(*self));
        }
        s
    }
}

impl Default for Params {
    fn default() -> (r: Self)
        ensures
            r.inputs@.len() == 0,
            r.outputs@.len() == 0,
    {
        Params { inputs: Vec::new(), outputs: Vec::new() }
    }
}

impl Params {
    /// The text of the parameters.
    pub fn to_string(&self) -> (r: String)
        ensures
            r@ == params_text(*self),
    {
        let mut s = String::new();
        push_param_list(&mut s, &self.inputs);
        if self.outputs.len() != 0 {
            if self.inputs.len() != 0 {
                string_push(&mut s, ' ');
            }
            string_push(&mut s, '-');
            string_push(&mut s, '>');
            string_push(&mut s, ' ');
        }
        push_param_list(&mut s, &self.outputs);
        proof {
            assert(s@ =~= params_text(*self));
        }
        s
    }

    /// The text of the parameters, preceded by a space unless it is empty.
    pub fn prepend_space_if_non_empty(&self) -> (r: String)
        ensures
            r@ == if params_text(*self).len() == 0 {
                Seq::<char>::empty()
            } else {
                seq![' '] + params_text(*self)
            },
    {
        let text = self.to_string();
        if text.unicode_len() == 0 {
            proof {
                assert(text@ =~= Seq::<char>::empty());
            }
            text
        } else {
            let mut s = String::new();
            string_push(&mut s, ' ');
            push_string(&mut s, &text);
            proof {
                assert(s@ =~= seq![' '] + params_text(*self));
            }
            s
        }
    }
}

// ---------------------------------------------------------------------------
// Symbol paths
// ---------------------------------------------------------------------------
/// A component of a relative symbol path.
#[derive(Clone, Debug)]
pub enum Part {
    /// The parent module.
    Super,
    Named(String),
}

/// A relative symbol path such as `x::super::y`.
#[derive(Clone, Debug)]
pub struct SymbolPath {
    pub parts: Vec<Part>,
}

/// An absolute symbol path such as `::abc::t`.
#[derive(Clone, Debug)]
pub struct AbsoluteSymbolPath {
    pub parts: Vec<String>,
}

/// The separator of path components.
pub open spec fn path_sep() -> Seq<char> {
    seq![':', ':']
}

/// The text of a part: `super` or the name.
pub open spec fn part_text(p: Part) -> Seq<char> {
    match p {
        Part::Super => seq!['s', 'u', 'p', 'e', 'r'],
        Part::Named(n) => n@,
    }
}

/// The text of a relative path: the parts joined by `::`.
pub open spec fn symbol_path_text(parts: Seq<Part>) -> Seq<char> {
    join_with(parts.map_values(|p: Part| part_text(p)), path_sep())
}

/// The text of an absolute path: `::` followed by the parts joined by `::`.
pub open spec fn absolute_path_text(parts: Seq<Seq<char>>) -> Seq<char> {
    path_sep() + join_with(parts, path_sep())
}


/// The components of an absolute path after walking the relative path from it: `super`
/// goes to the parent, a name goes into the child of that name.
pub open spec fn join_parts(base: Seq<Seq<char>>, rel: Seq<Part>) -> Seq<Seq<char>>
    decreases rel.len(),
{
    if rel.len() == 0 {
        base
    } else {
        let b = join_parts(base, rel.drop_last());
        match rel.last() {
            Part::Super => b.drop_last(),
            Part::Named(n) => b.push(n@),
        }
    }
}

/// Walking the relative path never goes above the root.
pub open spec fn join_stays_below_root(base: Seq<Seq<char>>, rel: Seq<Part>) -> bool
    decreases rel.len(),
{
    if rel.len() == 0 {
        true
    } else {
        join_stays_below_root(base, rel.drop_last()) && (rel.last() is Super ==> join_parts(
            base,
            rel.drop_last(),
        ).len() > 0)
    }
}

/// The pieces of `s` between the separators `::`, starting with the piece `cur`.
pub open spec fn split_from(cur: Seq<char>, rest: Seq<char>) -> Seq<Seq<char>>
    decreases rest.len(),
{
    if rest.len() == 0 {
        seq![cur]
    } else if rest.len() >= 2 && rest[0] == ':' && rest[1] == ':' {
        seq![cur] + split_from(seq![], rest.skip(2))
    } else {
        split_from(cur.push(rest[0]), rest.skip(1))
    }
}

/// The components of the absolute path written `s`.
pub open spec fn parsed_absolute_parts(s: Seq<char>) -> Seq<Seq<char>> {
    if s.len() == 2 {
        seq![]
    } else {
        split_from(seq![], s.skip(2))
    }
}

fn copy_string(s: &String) -> (r: String)
    ensures
        r@ == s@,
{
    s.clone()
}

fn copy_strings(v: &Vec<String>) -> (r: Vec<String>)
    ensures
        string_views(r@) == string_views(v@),
{
    let mut r: Vec<String> = Vec::new();
    let n = v.len();
    for i in 0..n
        invariant
            n == v@.len(),
            string_views(r@) == string_views(v@.subrange(0, i as int)),
    {
        let s = copy_string(&v[i]);
        let ghost prev = r@;
        r.push(s);
        proof {
            assert(string_views(prev).len() == i);
            assert forall|j: int| 0 <= j < i + 1 implies string_views(r@)[j] == string_views(
                v@.subrange(0, i + 1),
            )[j] by {
                if j < i {
                    assert(string_views(prev)[j] == string_views(v@.subrange(0, i as int))[j]);
                    assert(r@[j] == prev[j]);
                }
            }
            assert(string_views(r@) =~= string_views(v@.subrange(0, i + 1)));
        }
    }
    proof {
        assert(v@.subrange(0, n as int) =~= v@);
    }
    r
}

/// Appends the strings joined by `::`.
fn push_path_strings(out: &mut String, parts: &Vec<String>)
    ensures
        final(out)@ == old(out)@ + join_with(string_views(parts@), path_sep()),
{
    let ghost start = out@;
    let ghost texts = string_views(parts@);
    let n = parts.len();
    for i in 0..n
        invariant
            n == parts@.len(),
            texts == string_views(parts@),
            out@ == start + join_with(texts.subrange(0, i as int), path_sep()),
    {
        proof {
            assert(texts.subrange(0, i + 1) =~= texts.subrange(0, i as int).push(texts[i as int]));
            lemma_join_push(texts.subrange(0, i as int), texts[i as int], path_sep());
        }
        if i > 0 {
            string_push(out, ':');
            string_push(out, ':');
        }
        push_string(out, &parts[i]);
        proof {
            assert(out@ =~= start + join_with(texts.subrange(0, i + 1), path_sep()));
        }
    }
    proof {
        assert(texts.subrange(0, n as int) =~= texts);
    }
}

impl SymbolPath {
    /// The path consisting of the given parts.
    pub fn from_parts(parts: Vec<Part>) -> (r: Self)
        ensures
            r.parts@ == parts@,
    {
        SymbolPath { parts }
    }

    /// The relative path that denotes the absolute path: an empty first part followed
    /// by the components, so that its text starts with `::`.
    pub fn from_absolute(path: AbsoluteSymbolPath) -> (r: Self)
        ensures
            r.parts@.len() == path.parts@.len() + 1,
            r.parts@[0] is Named && part_text(r.parts@[0]) == Seq::<char>::empty(),
            forall|i: int|
                0 <= i < path.parts@.len() ==> (#[trigger] r.parts@[i + 1]) is Named && part_text(
                    r.parts@[i + 1],
                ) == path.parts@[i]@,
    {
        let mut parts: Vec<Part> = Vec::new();
        parts.push(Part::Named(String::new()));
        let n = path.parts.len();
        for i in 0..n
            invariant
                n == path.parts@.len(),
                parts@.len() == i + 1,
                parts@[0] is Named && part_text(parts@[0]) == Seq::<char>::empty(),
                forall|j: int|
                    0 <= j < i ==> (#[trigger] parts@[j + 1]) is Named && part_text(parts@[j + 1])
                        == path.parts@[j]@,
        {
            parts.push(Part::Named(copy_string(&path.parts[i])));
        }
        SymbolPath { parts }
    }

    /// The parts joined by `::`, with `super` for the parent.
    pub fn to_string(&self) -> (r: String)
        ensures
            r@ == symbol_path_text(self.parts@),
    {
        let mut out = String::new();
        let ghost texts = self.parts@.map_values(|p: Part| part_text(p));
        let n = self.parts.len();
        for i in 0..n
            invariant
                n == self.parts@.len(),
                texts == self.parts@.map_values(|p: Part| part_text(p)),
                out@ == join_with(texts.subrange(0, i as int), path_sep()),
        {
            proof {
                assert(texts.subrange(0, i + 1) =~= texts.subrange(0, i as int).push(texts[i as int]));
                lemma_join_push(texts.subrange(0, i as int), texts[i as int], path_sep());
            }
            if i > 0 {
                string_push(&mut out, ':');
                string_push(&mut out, ':');
            }
            match &self.parts[i] {
                Part::Super => {
                    string_push(&mut out, 's');
                    string_push(&mut out, 'u');
                    string_push(&mut out, 'p');
                    string_push(&mut out, 'e');
                    string_push(&mut out, 'r');
                },
                Part::Named(name) => {
                    push_string(&mut out, name);
                },
            }
            proof {
                assert(out@ =~= join_with(texts.subrange(0, i + 1), path_sep()));
            }
        }
        proof {
            assert(texts.subrange(0, n as int) =~= texts);
        }
        out
    }
}

impl AbsoluteSymbolPath {
    /// The root path `::`.
    pub fn root() -> (r: Self)
        ensures
            r.parts@.len() == 0,
    {
        AbsoluteSymbolPath { parts: Vec::new() }
    }

    /// The path extended by one component.
    pub fn with_part(&self, part: &str) -> (r: Self)
        ensures
            string_views(r.parts@) == string_views(self.parts@).push(part@),
    {
        let mut parts = copy_strings(&self.parts);
        parts.push(String::from_str(part));
        proof {
            assert(string_views(parts@) =~= string_views(self.parts@).push(part@));
        }
        AbsoluteSymbolPath { parts }
    }

    /// The path reached by walking the relative path from this one.
    pub fn join(self, other: SymbolPath) -> (r: Self)
        requires
            join_stays_below_root(string_views(self.parts@), other.parts@),
        ensures
            string_views(r.parts@) == join_parts(string_views(self.parts@), other.parts@),
    {
        let ghost base = string_views(self.parts@);
        let mut parts = self.parts;
        let n = other.parts.len();
        for i in 0..n
            invariant
                n == other.parts@.len(),
                join_stays_below_root(base, other.parts@),
                string_views(parts@) == join_parts(base, other.parts@.subrange(0, i as int)),
        {
            proof {
                assert(other.parts@.subrange(0, i + 1).drop_last() =~= other.parts@.subrange(
                    0,
                    i as int,
                ));
                lemma_join_prefix_ok(base, other.parts@, i + 1);
            }
            match &other.parts[i] {
                Part::Super => {
                    let ghost before = parts@;
                    parts.pop();
                    proof {
                        assert(string_views(parts@) =~= string_views(before).drop_last());
                    }
                },
                Part::Named(name) => {
                    parts.push(copy_string(name));
                },
            }
            proof {
                assert(string_views(parts@) =~= join_parts(base, other.parts@.subrange(0, i + 1)));
            }
        }
        proof {
            assert(other.parts@.subrange(0, n as int) =~= other.parts@);
        }
        AbsoluteSymbolPath { parts }
    }

    /// `::` followed by the components joined by `::`.
    pub fn to_string(&self) -> (r: String)
        ensures
            r@ == absolute_path_text(string_views(self.parts@)),
    {
        let mut out = String::new();
        string_push(&mut out, ':');
        string_push(&mut out, ':');
        push_path_strings(&mut out, &self.parts);
        proof {
            assert(out@ =~= absolute_path_text(string_views(self.parts@)));
        }
        out
    }
}

/// A prefix of a path that stays below the root stays below the root.
proof fn lemma_join_prefix_ok(base: Seq<Seq<char>>, rel: Seq<Part>, i: int)
    requires
        0 <= i <= rel.len(),
        join_stays_below_root(base, rel),
    ensures
        join_stays_below_root(base, rel.subrange(0, i)),
    decreases rel.len() - i,
{
    if i < rel.len() {
        assert(rel.drop_last() =~= rel.subrange(0, rel.len() - 1));
        lemma_join_prefix_ok(base, rel.drop_last(), i);
        assert(rel.drop_last().subrange(0, i) =~= rel.subrange(0, i));
    } else {
        assert(rel.subrange(0, i) =~= rel);
    }
}

/// Parses an absolute symbol path such as `::abc::t`; `::` alone is the root.
pub fn parse_absolute_path(s: &str) -> (r: AbsoluteSymbolPath)
    requires
        s@.len() >= 2,
        s@[0] == ':',
        s@[1] == ':',
    ensures
        string_views(r.parts@) == parsed_absolute_parts(s@),
{
    let n = s.unicode_len();
    if n == 2 {
        return AbsoluteSymbolPath::root();
    }
    let mut parts: Vec<String> = Vec::new();
    let mut cur = String::new();
    let mut i: usize = 2;
    let ghost body = s@.skip(2);
    while i < n
        invariant
            2 <= i <= n,
            n == s@.len(),
            body == s@.skip(2),
            string_views(parts@) + split_from(cur@, s@.skip(i as int)) == split_from(
                seq![],
                body,
            ),
        decreases n - i,
    {
        let c = s.get_char(i);
        let ghost rest = s@.skip(i as int);
        if c == ':' && i + 1 < n && s.get_char(i + 1) == ':' {
            proof {
                assert(rest[0] == ':' && rest[1] == ':');
                assert(rest.skip(2) =~= s@.skip(i + 2));
                assert(string_views(parts@.push(cur)) =~= string_views(parts@).push(cur@));
            }
            parts.push(cur);
            cur = String::new();
            i = i + 2;
            proof {
                assert(string_views(parts@) + split_from(cur@, s@.skip(i as int)) =~= split_from(
                    seq![],
                    body,
                ));
            }
        } else {
            proof {
                assert(rest[0] == c);
                assert(rest.skip(1) =~= s@.skip(i + 1));
            }
            string_push(&mut cur, c);
            i = i + 1;
        }
    }
    proof {
        assert(s@.skip(n as int) =~= Seq::<char>::empty());
        assert(string_views(parts@.push(cur)) =~= string_views(parts@).push(cur@));
    }
    parts.push(cur);
    proof {
        assert(string_views(parts@) =~= split_from(seq![], body));
    }
    AbsoluteSymbolPath { parts }
}

// ---------------------------------------------------------------------------
// Types
// ---------------------------------------------------------------------------
/// A type of the language.
pub enum Type {
    Bottom,
    Bool,
    Int,
    Fe,
    String,
    Col,
    Expr,
    Constr,
    Array(ArrayType),
    Tuple(TupleType),
    Function(FunctionType),
    TypeVar(String),
    NamedType(SymbolPath),
}

/// An array type with an optional length.
pub struct ArrayType {
    pub base: Box<Type>,
    pub length: Option<u64>,
}

/// A tuple type.
pub struct TupleType {
    pub items: Vec<Type>,
}

/// A function type.
pub struct FunctionType {
    pub params: Vec<Type>,
    pub value: Box<Type>,
}

/// Type variables with their trait bounds.
pub struct TypeBounds {
    pub bounds: Vec<(String, Vec<String>)>,
}

/// A type with type variables.
pub struct TypeScheme {
    pub vars: TypeBounds,
    pub ty: Type,
}

/// Whether the type has to be put in parentheses inside other types: only function
/// types do.
pub open spec fn needs_parentheses(t: Type) -> bool {
    t is Function
}

/// The text of a type.
pub open spec fn type_text(t: Type) -> Seq<char>
    decreases t,
{
    match t {
        Type::Bottom => seq!['!'],
        Type::Bool => seq!['b', 'o', 'o', 'l'],
        Type::Int => seq!['i', 'n', 't'],
        Type::Fe => seq!['f', 'e'],
        Type::String => seq!['s', 't', 'r', 'i', 'n', 'g'],
        Type::Col => seq!['c', 'o', 'l'],
        Type::Expr => seq!['e', 'x', 'p', 'r'],
        Type::Constr => seq!['c', 'o', 'n', 's', 't', 'r'],
        Type::Array(a) => (if needs_parentheses(*a.base) {
            seq!['('] + type_text(*a.base) + seq![')']
        } else {
            type_text(*a.base)
        }) + seq!['['] + match a.length {
            Some(l) => decimal(l as nat),
            None => seq![],
        } + seq![']'],
        Type::Tuple(tt) => seq!['('] + types_text(tt.items@) + seq![')'],
        Type::Function(f) => types_text(f.params@) + (if f.params@.len() == 0 {
            seq![]
        } else {
            seq![' ']
        }) + seq!['-', '>', ' '] + (if needs_parentheses(*f.value) {
            seq!['('] + type_text(*f.value) + seq![')']
        } else {
            type_text(*f.value)
        }),
        Type::TypeVar(n) => n@,
        Type::NamedType(p) => symbol_path_text(p.parts@),
    }
}

/// The texts of a list of types, each in parentheses if needed, joined by `, `.
pub open spec fn types_text(ts: Seq<Type>) -> Seq<char>
    decreases ts,
{
    if ts.len() == 0 {
        seq![]
    } else {
        let last = ts[ts.len() - 1];
        let item = if needs_parentheses(last) {
            seq!['('] + type_text(last) + seq![')']
        } else {
            type_text(last)
        };
        if ts.len() == 1 {
            item
        } else {
            types_text(ts.subrange(0, ts.len() - 1)) + comma_sep() + item
        }
    }
}

/// The text of a type inside another type.
pub open spec fn type_text_in_parentheses(t: Type) -> Seq<char> {
    if needs_parentheses(t) {
        seq!['('] + type_text(t) + seq![')']
    } else {
        type_text(t)
    }
}

/// `var: b1 + b2` for each variable, joined by `, `.
pub open spec fn bounds_text(b: Seq<(String, Vec<String>)>) -> Seq<char> {
    join_with(
        b.map_values(
            |x: (String, Vec<String>)|
                x.0@ + if x.1@.len() == 0 {
                    seq![]
                } else {
                    seq![':', ' '] + join_with(string_views(x.1@), seq![' ', '+', ' '])
                },
        ),
        comma_sep(),
    )
}

/// The type variables in angle brackets, or nothing if there are none.
pub open spec fn type_vars_text(s: TypeScheme) -> Seq<char> {
    if s.vars.bounds@.len() == 0 {
        seq![]
    } else {
        seq!['<'] + bounds_text(s.vars.bounds@) + seq!['>']
    }
}

/// Appends the text of a type.
fn write_type(t: &Type, out: &mut String)
    ensures
        final(out)@ == old(out)@ + type_text(*t),
    decreases t, 1nat,
{
    match t {
        Type::Bottom => {
            string_push(out, '!');
        },
        Type::Bool => {
            string_push(out, 'b');
            string_push(out, 'o');
            string_push(out, 'o');
            string_push(out, 'l');
        },
        Type::Int => {
            string_push(out, 'i');
            string_push(out, 'n');
            string_push(out, 't');
        },
        Type::Fe => {
            string_push(out, 'f');
            string_push(out, 'e');
        },
        Type::String => {
            string_push(out, 's');
            string_push(out, 't');
            string_push(out, 'r');
            string_push(out, 'i');
            string_push(out, 'n');
            string_push(out, 'g');
        },
        Type::Col => {
            string_push(out, 'c');
            string_push(out, 'o');
            string_push(out, 'l');
        },
        Type::Expr => {
            string_push(out, 'e');
            string_push(out, 'x');
            string_push(out, 'p');
            string_push(out, 'r');
        },
        Type::Constr => {
            string_push(out, 'c');
            string_push(out, 'o');
            string_push(out, 'n');
            string_push(out, 's');
            string_push(out, 't');
            string_push(out, 'r');
        },
        Type::Array(a) => {
            write_type_in_parentheses(&a.base, out);
            string_push(out, '[');
            match a.length {
                Some(l) => {
                    push_decimal(out, l);
                },
                None => {},
            }
            string_push(out, ']');
        },
        Type::Tuple(tt) => {
            string_push(out, '(');
            write_types(&tt.items, out);
            string_push(out, ')');
        },
        Type::Function(f) => {
            write_types(&f.params, out);
            if f.params.len() != 0 {
                string_push(out, ' ');
            }
            string_push(out, '-');
            string_push(out, '>');
            string_push(out, ' ');
            write_type_in_parentheses(&f.value, out);
        },
        Type::TypeVar(n) => {
            push_string(out, n);
        },
        Type::NamedType(p) => {
            let text = p.to_string();
            push_string(out, &text);
        },
    }
    proof {
        assert(final(out)@ =~= old(out)@ + type_text(*t));
    }
}

/// Appends the text of a type, in parentheses if needed.
fn write_type_in_parentheses(t: &Type, out: &mut String)
    ensures
        final(out)@ == old(out)@ + type_text_in_parentheses(*t),
    decreases t, 2nat,
{
    let paren = match t {
        Type::Function(_) => true,
        _ => false,
    };
    if paren {
        string_push(out, '(');
        write_type(t, out);
        string_push(out, ')');
    } else {
        write_type(t, out);
    }
    proof {
        assert(final(out)@ =~= old(out)@ + type_text_in_parentheses(*t));
    }
}

/// Appends the texts of the types, each in parentheses if needed, joined by `, `.
fn write_types(ts: &Vec<Type>, out: &mut String)
    ensures
        final(out)@ == old(out)@ + types_text(ts@),
    decreases ts@, 0nat,
{
    let ghost start = out@;
    let n = ts.len();
    for i in 0..n
        invariant
            n == ts@.len(),
            out@ == start + types_text(ts@.subrange(0, i as int)),
    {
        proof {
            let sub = ts@.subrange(0, i + 1);
            assert(sub.subrange(0, sub.len() - 1) =~= ts@.subrange(0, i as int));
            assert(sub[sub.len() - 1] == ts@[i as int]);
            assert(ts@.subrange(0, 0) =~= Seq::<Type>::empty());
        }
        if i > 0 {
            string_push(out, ',');
            string_push(out, ' ');
        }
        write_type_in_parentheses(&ts[i], out);
        proof {
            assert(out@ =~= start + types_text(ts@.subrange(0, i + 1)));
        }
    }
    proof {
        assert(ts@.subrange(0, n as int) =~= ts@);
    }
}

impl Type {
    /// Whether the type has to be put in parentheses inside other types.
    pub fn needs_parentheses(&self) -> (r: bool)
        ensures
            r == needs_parentheses(*self),
    {
        match self {
            Type::Function(_) => true,
            _ => false,
        }
    }

    /// The text of the type.
    pub fn to_string(&self) -> (r: String)
        ensures
            r@ == type_text(*self),
    {
        let mut s = String::new();
        write_type(self, &mut s);
        proof {
            assert(s@ =~= type_text(*self));
        }
        s
    }
}

/// The text of a type, in parentheses if it needs them.
pub fn format_type_with_parentheses(t: &Type) -> (r: String)
    ensures
        r@ == type_text_in_parentheses(*t),
{
    let mut s = String::new();
    write_type_in_parentheses(t, &mut s);
    proof {
        assert(s@ =~= type_text_in_parentheses(*t));
    }
    s
}

/// The texts of the types, each in parentheses if needed, joined by `, `.
pub fn format_list_of_types(types: &Vec<Type>) -> (r: String)
    ensures
        r@ == types_text(types@),
{
    let mut s = String::new();
    write_types(types, &mut s);
    proof {
        assert(s@ =~= types_text(types@));
    }
    s
}

/// Appends the strings joined by the separator ` + `.
fn push_bound_list(out: &mut String, v: &Vec<String>)
    ensures
        final(out)@ == old(out)@ + join_with(string_views(v@), seq![' ', '+', ' ']),
{
    let ghost start = out@;
    let ghost texts = string_views(v@);
    let n = v.len();
    for i in 0..n
        invariant
            n == v@.len(),
            texts == string_views(v@),
            out@ == start + join_with(texts.subrange(0, i as int), seq![' ', '+', ' ']),
    {
        proof {
            assert(texts.subrange(0, i + 1) =~= texts.subrange(0, i as int).push(texts[i as int]));
            lemma_join_push(texts.subrange(0, i as int), texts[i as int], seq![' ', '+', ' ']);
        }
        if i > 0 {
            string_push(out, ' ');
            string_push(out, '+');
            string_push(out, ' ');
        }
        push_string(out, &v[i]);
        proof {
            assert(out@ =~= start + join_with(texts.subrange(0, i + 1), seq![' ', '+', ' ']));
        }
    }
    proof {
        assert(texts.subrange(0, n as int) =~= texts);
    }
}

impl TypeBounds {
    /// `var: b1 + b2` for each variable, joined by `, `.
    pub fn to_string(&self) -> (r: String)
        ensures
            r@ == bounds_text(self.bounds@),
    {
        let mut out = String::new();
        let ghost texts = self.bounds@.map_values(
            |x: (String, Vec<String>)|
                x.0@ + if x.1@.len() == 0 {
                    seq![]
                } else {
                    seq![':', ' '] + join_with(string_views(x.1@), seq![' ', '+', ' '])
                },
        );
        let n = self.bounds.len();
        for i in 0..n
            invariant
                n == self.bounds@.len(),
                texts == self.bounds@.map_values(
                    |x: (String, Vec<String>)|
                        x.0@ + if x.1@.len() == 0 {
                            seq![]
                        } else {
                            seq![':', ' '] + join_with(string_views(x.1@), seq![' ', '+', ' '])
                        },
                ),
                out@ == join_with(texts.subrange(0, i as int), comma_sep()),
        {
            proof {
                assert(texts.subrange(0, i + 1) =~= texts.subrange(0, i as int).push(texts[i as int]));
                lemma_join_push(texts.subrange(0, i as int), texts[i as int], comma_sep());
            }
            if i > 0 {
                string_push(&mut out, ',');
                string_push(&mut out, ' ');
            }
            let (var, bounds) = &self.bounds[i];
            push_string(&mut out, var);
            if bounds.len() != 0 {
                string_push(&mut out, ':');
                string_push(&mut out, ' ');
                push_bound_list(&mut out, bounds);
            }
            proof {
                assert(out@ =~= join_with(texts.subrange(0, i + 1), comma_sep()));
            }
        }
        proof {
            assert(texts.subrange(0, n as int) =~= texts);
        }
        out
    }
}

impl TypeScheme {
    /// The type variables in angle brackets, or the empty string if there are none.
    pub fn type_vars_to_string(&self) -> (r: String)
        ensures
            r@ == type_vars_text(*self),
    {
        if self.vars.bounds.len() == 0 {
            String::new()
        } else {
            let mut s = String::new();
            string_push(&mut s, '<');
            let b = self.vars.to_string();
            push_string(&mut s, &b);
            string_push(&mut s, '>');
            proof {
                assert(s@ =~= type_vars_text(*self));
            }
            s
        }
    }
}

/// ` name` without a type scheme; `<vars> name: type` with one.
pub fn format_type_scheme_around_name(name: &str, type_scheme: &Option<TypeScheme>) -> (r: String)
    ensures
        r@ == match type_scheme {
            Some(s) => type_vars_text(*s) + seq![' '] + name@ + seq![':', ' '] + type_text(s.ty),
            None => seq![' '] + name@,
        },
{
    let mut out = String::new();
    match type_scheme {
        Some(s) => {
            let vars = s.type_vars_to_string();
            push_string(&mut out, &vars);
            string_push(&mut out, ' ');
            crate::text::push_str(&mut out, name);
            string_push(&mut out, ':');
            string_push(&mut out, ' ');
            write_type(&s.ty, &mut out);
        },
        None => {
            string_push(&mut out, ' ');
            crate::text::push_str(&mut out, name);
        },
    }
    proof {
        assert(out@ =~= match type_scheme {
            Some(s) => type_vars_text(*s) + seq![' '] + name@ + seq![':', ' '] + type_text(s.ty),
            None => seq![' '] + name@,
        });
    }
    out
}


// ---------------------------------------------------------------------------
// Expressions
// ---------------------------------------------------------------------------
/// A binary operator.
#[derive(Clone, Copy, Debug, PartialEq, Eq, Structural)]
pub enum BinaryOperator {
    Add,
    Sub,
    Mul,
    Div,
    Mod,
    Pow,
    BinaryAnd,
    BinaryXor,
    BinaryOr,
    ShiftLeft,
    ShiftRight,
    LogicalOr,
    LogicalAnd,
    Less,
    LessEqual,
    Equal,
    Identity,
    NotEqual,
    GreaterEqual,
    Greater,
}

/// A unary operator.
#[derive(Clone, Copy, Debug, PartialEq, Eq, Structural)]
pub enum UnaryOperator {
    Minus,
    LogicalNot,
    Next,
}

/// An expression of the language: references, literals, tuples, array literals,
/// operations, index accesses, function calls, free inputs and conditionals.
pub enum Expression {
    /// A reference, written as its name.
    Reference(String),
    /// A reference to a public value.
    PublicReference(String),
    /// A number literal.
    Number(u64),
    /// A string literal.
    String(String),
    Tuple(Vec<Expression>),
    ArrayLiteral(Vec<Expression>),
    BinaryOperation(Box<Expression>, BinaryOperator, Box<Expression>),
    UnaryOperation(UnaryOperator, Box<Expression>),
    /// An array and an index.
    IndexAccess(Box<Expression>, Box<Expression>),
    /// A function and its arguments.
    FunctionCall(Box<Expression>, Vec<Expression>),
    FreeInput(Box<Expression>),
    /// A condition, a value if it holds and a value otherwise.
    IfExpression(Box<Expression>, Box<Expression>, Box<Expression>),
}

/// The symbol of a binary operator.
pub open spec fn binary_op_text(op: BinaryOperator) -> Seq<char> {
    match op {
        BinaryOperator::Add => seq!['+'],
        BinaryOperator::Sub => seq!['-'],
        BinaryOperator::Mul => seq!['*'],
        BinaryOperator::Div => seq!['/'],
        BinaryOperator::Mod => seq!['%'],
        BinaryOperator::Pow => seq!['*', '*'],
        BinaryOperator::BinaryAnd => seq!['&'],
        BinaryOperator::BinaryXor => seq!['^'],
        BinaryOperator::BinaryOr => seq!['|'],
        BinaryOperator::ShiftLeft => seq!['<', '<'],
        BinaryOperator::ShiftRight => seq!['>', '>'],
        BinaryOperator::LogicalOr => seq!['|', '|'],
        BinaryOperator::LogicalAnd => seq!['&', '&'],
        BinaryOperator::Less => seq!['<'],
        BinaryOperator::LessEqual => seq!['<', '='],
        BinaryOperator::Equal => seq!['=', '='],
        BinaryOperator::Identity => seq!['='],
        BinaryOperator::NotEqual => seq!['!', '='],
        BinaryOperator::GreaterEqual => seq!['>', '='],
        BinaryOperator::Greater => seq!['>'],
    }
}

/// The symbol of a unary operator.
pub open spec fn unary_op_text(op: UnaryOperator) -> Seq<char> {
    match op {
        UnaryOperator::Minus => seq!['-'],
        UnaryOperator::LogicalNot => seq!['!'],
        UnaryOperator::Next => seq!['\''],
    }
}

/// Whether a unary operator is written before its operand: all but `'`.
pub open spec fn is_prefix_op(op: UnaryOperator) -> bool {
    !(op is Next)
}

/// The text of an expression.
pub open spec fn expr_text(e: Expression) -> Seq<char>
    decreases e,
{
    match e {
        Expression::Reference(r) => r@,
        Expression::PublicReference(n) => seq![':'] + n@,
        Expression::Number(v) => decimal(v as nat),
        Expression::String(v) => seq!['"'] + escape_text(v@) + seq!['"'],
        Expression::Tuple(items) => seq!['('] + exprs_text(items@) + seq![')'],
        Expression::ArrayLiteral(items) => seq!['['] + exprs_text(items@) + seq![']'],
        Expression::BinaryOperation(l, op, r) => seq!['('] + expr_text(*l) + seq![' '] + binary_op_text(op)
            + seq![' '] + expr_text(*r) + seq![')'],
        Expression::UnaryOperation(op, x) => if is_prefix_op(op) {
            unary_op_text(op) + expr_text(*x)
        } else {
            expr_text(*x) + unary_op_text(op)
        },
        Expression::IndexAccess(a, i) => expr_text(*a) + seq!['['] + expr_text(*i) + seq![']'],
        Expression::FunctionCall(f, args) => expr_text(*f) + seq!['('] + exprs_text(args@) + seq![')'],
        Expression::FreeInput(x) => seq!['$', '{', ' '] + expr_text(*x) + seq![' ', '}'],
        Expression::IfExpression(c, b, o) => seq!['i', 'f', ' '] + expr_text(*c) + seq![' '] + expr_text(*b)
            + seq![' ', 'e', 'l', 's', 'e', ' '] + expr_text(*o),
    }
}

/// The texts of a list of expressions joined by `, `.
pub open spec fn exprs_text(es: Seq<Expression>) -> Seq<char>
    decreases es,
{
    if es.len() == 0 {
        seq![]
    } else if es.len() == 1 {
        expr_text(es[0])
    } else {
        exprs_text(es.subrange(0, es.len() - 1)) + comma_sep() + expr_text(es[es.len() - 1])
    }
}

fn push_str_chars(out: &mut String, s: &str)
    ensures
        final(out)@ == old(out)@ + s@,
{
    crate::text::push_str(out, s);
}

impl BinaryOperator {
    /// The symbol of the operator.
    pub fn to_string(&self) -> (r: String)
        ensures
            r@ == binary_op_text(*self),
    {
        let mut s = String::new();
        match self {
            BinaryOperator::Add => string_push(&mut s, '+'),
            BinaryOperator::Sub => string_push(&mut s, '-'),
            BinaryOperator::Mul => string_push(&mut s, '*'),
            BinaryOperator::Div => string_push(&mut s, '/'),
            BinaryOperator::Mod => string_push(&mut s, '%'),
            BinaryOperator::Pow => {
                string_push(&mut s, '*');
                string_push(&mut s, '*');
            },
            BinaryOperator::BinaryAnd => string_push(&mut s, '&'),
            BinaryOperator::BinaryXor => string_push(&mut s, '^'),
            BinaryOperator::BinaryOr => string_push(&mut s, '|'),
            BinaryOperator::ShiftLeft => {
                string_push(&mut s, '<');
                string_push(&mut s, '<');
            },
            BinaryOperator::ShiftRight => {
                string_push(&mut s, '>');
                string_push(&mut s, '>');
            },
            BinaryOperator::LogicalOr => {
                string_push(&mut s, '|');
                string_push(&mut s, '|');
            },
            BinaryOperator::LogicalAnd => {
                string_push(&mut s, '&');
                string_push(&mut s, '&');
            },
            BinaryOperator::Less => string_push(&mut s, '<'),
            BinaryOperator::LessEqual => {
                string_push(&mut s, '<');
                string_push(&mut s, '=');
            },
            BinaryOperator::Equal => {
                string_push(&mut s, '=');
                string_push(&mut s, '=');
            },
            BinaryOperator::Identity => string_push(&mut s, '='),
            BinaryOperator::NotEqual => {
                string_push(&mut s, '!');
                string_push(&mut s, '=');
            },
            BinaryOperator::GreaterEqual => {
                string_push(&mut s, '>');
                string_push(&mut s, '=');
            },
            BinaryOperator::Greater => string_push(&mut s, '>'),
        }
        proof {
            assert(s@ =~= binary_op_text(*self));
        }
        s
    }
}

impl UnaryOperator {
    /// Whether the operator is written before its operand.
    pub fn is_prefix(&self) -> (r: bool)
        ensures
            r == is_prefix_op(*self),
    {
        match self {
            UnaryOperator::Next => false,
            _ => true,
        }
    }

    /// The symbol of the operator.
    pub fn to_string(&self) -> (r: String)
        ensures
            r@ == unary_op_text(*self),
    {
        let mut s = String::new();
        match self {
            UnaryOperator::Minus => string_push(&mut s, '-'),
            UnaryOperator::LogicalNot => string_push(&mut s, '!'),
            UnaryOperator::Next => string_push(&mut s, '\''),
        }
        proof {
            assert(s@ =~= unary_op_text(*self));
        }
        s
    }
}

/// Appends the text of an expression.
fn write_expr(e: &Expression, out: &mut String)
    ensures
        final(out)@ == old(out)@ + expr_text(*e),
    decreases e, 1nat,
{
    match e {
        Expression::Reference(r) => {
            push_string(out, r);
        },
        Expression::PublicReference(n) => {
            string_push(out, ':');
            push_string(out, n);
        },
        Expression::Number(v) => {
            push_decimal(out, *v);
        },
        Expression::String(v) => {
            let q = quote(v.as_str());
            push_string(out, &q);
        },
        Expression::Tuple(items) => {
            string_push(out, '(');
            write_exprs(items, out);
            string_push(out, ')');
        },
        Expression::ArrayLiteral(items) => {
            string_push(out, '[');
            write_exprs(items, out);
            string_push(out, ']');
        },
        Expression::BinaryOperation(l, op, r) => {
            string_push(out, '(');
            write_expr(l, out);
            string_push(out, ' ');
            let t = op.to_string();
            push_string(out, &t);
            string_push(out, ' ');
            write_expr(r, out);
            string_push(out, ')');
        },
        Expression::UnaryOperation(op, x) => {
            let t = op.to_string();
            if op.is_prefix() {
                push_string(out, &t);
                write_expr(x, out);
            } else {
                write_expr(x, out);
                push_string(out, &t);
            }
        },
        Expression::IndexAccess(a, i) => {
            write_expr(a, out);
            string_push(out, '[');
            write_expr(i, out);
            string_push(out, ']');
        },
        Expression::FunctionCall(f, args) => {
            write_expr(f, out);
            string_push(out, '(');
            write_exprs(args, out);
            string_push(out, ')');
        },
        Expression::FreeInput(x) => {
            push_str_chars(out, "${ ");
            write_expr(x, out);
            push_str_chars(out, " }");
            proof {
                reveal_strlit("${ ");
                reveal_strlit(" }");
            }
        },
        Expression::IfExpression(c, b, o) => {
            push_str_chars(out, "if ");
            write_expr(c, out);
            string_push(out, ' ');
            write_expr(b, out);
            push_str_chars(out, " else ");
            write_expr(o, out);
            proof {
                reveal_strlit("if ");
                reveal_strlit(" else ");
            }
        },
    }
    proof {
        assert(final(out)@ =~= old(out)@ + expr_text(*e));
    }
}

/// Appends the texts of the expressions joined by `, `.
fn write_exprs(es: &Vec<Expression>, out: &mut String)
    ensures
        final(out)@ == old(out)@ + exprs_text(es@),
    decreases es@, 0nat,
{
    let ghost start = out@;
    let n = es.len();
    for i in 0..n
        invariant
            n == es@.len(),
            out@ == start + exprs_text(es@.subrange(0, i as int)),
    {
        proof {
            let sub = es@.subrange(0, i + 1);
            assert(sub.subrange(0, sub.len() - 1) =~= es@.subrange(0, i as int));
            assert(sub[sub.len() - 1] == es@[i as int]);
            assert(es@.subrange(0, 0) =~= Seq::<Expression>::empty());
            if i == 0 {
                assert(sub[0] == es@[0]);
            }
        }
        if i > 0 {
            string_push(out, ',');
            string_push(out, ' ');
        }
        write_expr(&es[i], out);
        proof {
            assert(out@ =~= start + exprs_text(es@.subrange(0, i + 1)));
        }
    }
    proof {
        assert(es@.subrange(0, n as int) =~= es@);
    }
}

impl Expression {
    /// The text of the expression.
    pub fn to_string(&self) -> (r: String)
        ensures
            r@ == expr_text(*self),
    {
        let mut s = String::new();
        write_expr(self, &mut s);
        proof {
            assert(s@ =~= expr_text(*self));
        }
        s
    }
}

/// The texts of the expressions joined by `, `.
pub fn format_expressions(expressions: &Vec<Expression>) -> (r: String)
    ensures
        r@ == exprs_text(expressions@),
{
    let mut s = String::new();
    write_exprs(expressions, &mut s);
    proof {
        assert(s@ =~= exprs_text(expressions@));
    }
    s
}


// ---------------------------------------------------------------------------
// Statements of machines and functions
// ---------------------------------------------------------------------------
/// A flag of a register declaration.
#[derive(Clone, Copy, Debug, PartialEq, Eq, Structural)]
pub enum RegisterFlag {
    IsPC,
    IsAssignment,
    IsReadOnly,
}

/// The text of a register flag.
pub open spec fn register_flag_text(f: RegisterFlag) -> Seq<char> {
    match f {
        RegisterFlag::IsPC => "@pc"@,
        RegisterFlag::IsAssignment => "<="@,
        RegisterFlag::IsReadOnly => "@r"@,
    }
}

impl RegisterFlag {
    /// The text of the flag.
    pub fn to_string(&self) -> (r: String)
        ensures
            r@ == register_flag_text(*self),
    {
        let mut s = String::new();
        match self {
            RegisterFlag::IsPC => push_str_chars(&mut s, "@pc"),
            RegisterFlag::IsAssignment => push_str_chars(&mut s, "<="),
            RegisterFlag::IsReadOnly => push_str_chars(&mut s, "@r"),
        }
        proof {
            assert(s@ =~= register_flag_text(*self));
        }
        s
    }
}

/// The register an assignment goes through, or `_` for any.
pub enum AssignmentRegister {
    Register(String),
    Wildcard,
}

/// The text of an assignment register.
pub open spec fn assignment_register_text(a: AssignmentRegister) -> Seq<char> {
    match a {
        AssignmentRegister::Register(r) => r@,
        AssignmentRegister::Wildcard => "_"@,
    }
}

impl AssignmentRegister {
    /// The text of the register.
    pub fn to_string(&self) -> (r: String)
        ensures
            r@ == assignment_register_text(*self),
    {
        let mut s = String::new();
        match self {
            AssignmentRegister::Register(r) => push_string(&mut s, r),
            AssignmentRegister::Wildcard => push_str_chars(&mut s, "_"),
        }
        proof {
            assert(s@ =~= assignment_register_text(*self));
        }
        s
    }
}

/// A debug directive of the assembly.
pub enum DebugDirective {
    /// The number, directory and name of a source file.
    File(u64, String, String),
    /// A file number, a line and a column.
    Loc(u64, u64, u64),
    /// The instruction of the source.
    OriginalInstruction(String),
}

/// A string in double quotes with special characters escaped.
pub open spec fn quoted(s: Seq<char>) -> Seq<char> {
    seq!['"'] + escape_text(s) + seq!['"']
}

/// The text of a debug directive.
pub open spec fn debug_directive_text(d: DebugDirective) -> Seq<char> {
    match d {
        DebugDirective::File(nr, path, file) => ".debug file "@ + decimal(nr as nat) + " "@ + quoted(path@) + " "@
            + quoted(file@) + ";"@,
        DebugDirective::Loc(file, line, col) => ".debug loc "@ + decimal(file as nat) + " "@ + decimal(line as nat)
            + " "@ + decimal(col as nat) + ";"@,
        DebugDirective::OriginalInstruction(insn) => ".debug insn \""@ + insn@ + "\";"@,
    }
}

impl DebugDirective {
    fn write_to(&self, out: &mut String)
        ensures
            final(out)@ == old(out)@ + debug_directive_text(*self),
    {
        match self {
            DebugDirective::File(nr, path, file) => {
                push_str_chars(out, ".debug file ");
                push_decimal(out, *nr);
                push_str_chars(out, " ");
                let q = quote(path.as_str());
                push_string(out, &q);
                push_str_chars(out, " ");
                let q = quote(file.as_str());
                push_string(out, &q);
                push_str_chars(out, ";");
            },
            DebugDirective::Loc(file, line, col) => {
                push_str_chars(out, ".debug loc ");
                push_decimal(out, *file);
                push_str_chars(out, " ");
                push_decimal(out, *line);
                push_str_chars(out, " ");
                push_decimal(out, *col);
                push_str_chars(out, ";");
            },
            DebugDirective::OriginalInstruction(insn) => {
                push_str_chars(out, ".debug insn \"");
                push_string(out, insn);
                push_str_chars(out, "\";");
            },
        }
        proof {
            assert(final(out)@ =~= old(out)@ + debug_directive_text(*self));
        }
    }

    /// The text of the directive.
    pub fn to_string(&self) -> (r: String)
        ensures
            r@ == debug_directive_text(*self),
    {
        let mut s = String::new();
        self.write_to(&mut s);
        proof {
            assert(s@ =~= debug_directive_text(*self));
        }
        s
    }
}

/// A statement in the body of an assembly function.
pub enum FunctionStatement {
    /// The written registers, the registers the assignment goes through (if named)
    /// and the value.
    Assignment(Vec<String>, Option<Vec<AssignmentRegister>>, Box<Expression>),
    /// An instruction and its inputs.
    Instruction(String, Vec<Expression>),
    Label(String),
    DebugDirective(DebugDirective),
    /// The returned values.
    Return(Vec<Expression>),
}

/// The texts of assignment registers.
pub open spec fn assignment_register_texts(v: Seq<AssignmentRegister>) -> Seq<Seq<char>> {
    v.map_values(|a: AssignmentRegister| assignment_register_text(a))
}

/// The expressions after a space, or nothing if there are none.
pub open spec fn spaced_exprs_text(es: Seq<Expression>) -> Seq<char> {
    if es.len() == 0 {
        seq![]
    } else {
        " "@ + exprs_text(es)
    }
}

/// The text of a function statement.
pub open spec fn function_statement_text(st: FunctionStatement) -> Seq<char> {
    match st {
        FunctionStatement::Assignment(regs, via, e) => join_with(string_views(regs@), comma_sep()) + " <="@ + match via {
            Some(v) => join_with(assignment_register_texts(v@), comma_sep()),
            None => seq![],
        } + "= "@ + expr_text(*e) + ";"@,
        FunctionStatement::Instruction(name, inputs) => name@ + spaced_exprs_text(inputs@) + ";"@,
        FunctionStatement::Label(name) => name@ + ":"@,
        FunctionStatement::DebugDirective(d) => debug_directive_text(d),
        FunctionStatement::Return(values) => "return"@ + spaced_exprs_text(values@) + ";"@,
    }
}

/// Appends the texts joined by `, `.
fn push_joined_strings(out: &mut String, v: &Vec<String>)
    ensures
        final(out)@ == old(out)@ + join_with(string_views(v@), comma_sep()),
{
    let ghost start = out@;
    let ghost texts = string_views(v@);
    let n = v.len();
    for i in 0..n
        invariant
            n == v@.len(),
            texts == string_views(v@),
            out@ == start + join_with(texts.subrange(0, i as int), comma_sep()),
    {
        proof {
            assert(texts.subrange(0, i + 1) =~= texts.subrange(0, i as int).push(texts[i as int]));
            lemma_join_push(texts.subrange(0, i as int), texts[i as int], comma_sep());
        }
        if i > 0 {
            string_push(out, ',');
            string_push(out, ' ');
        }
        push_string(out, &v[i]);
        proof {
            assert(out@ =~= start + join_with(texts.subrange(0, i + 1), comma_sep()));
        }
    }
    proof {
        assert(texts.subrange(0, n as int) =~= texts);
    }
}

/// Appends the texts of the registers joined by `, `.
fn push_assignment_registers(out: &mut String, v: &Vec<AssignmentRegister>)
    ensures
        final(out)@ == old(out)@ + join_with(assignment_register_texts(v@), comma_sep()),
{
    let ghost start = out@;
    let ghost texts = assignment_register_texts(v@);
    let n = v.len();
    for i in 0..n
        invariant
            n == v@.len(),
            texts == assignment_register_texts(v@),
            out@ == start + join_with(texts.subrange(0, i as int), comma_sep()),
    {
        proof {
            assert(texts.subrange(0, i + 1) =~= texts.subrange(0, i as int).push(texts[i as int]));
            lemma_join_push(texts.subrange(0, i as int), texts[i as int], comma_sep());
        }
        if i > 0 {
            string_push(out, ',');
            string_push(out, ' ');
        }
        let t = v[i].to_string();
        push_string(out, &t);
        proof {
            assert(out@ =~= start + join_with(texts.subrange(0, i + 1), comma_sep()));
        }
    }
    proof {
        assert(texts.subrange(0, n as int) =~= texts);
    }
}

/// Appends the expressions after a space, or nothing if there are none.
fn push_spaced_exprs(out: &mut String, es: &Vec<Expression>)
    ensures
        final(out)@ == old(out)@ + spaced_exprs_text(es@),
{
    if es.len() == 0 {
        proof {
            assert(old(out)@ + spaced_exprs_text(es@) =~= old(out)@);
        }
    } else {
        push_str_chars(out, " ");
        write_exprs(es, out);
        proof {
            assert(final(out)@ =~= old(out)@ + spaced_exprs_text(es@));
        }
    }
}

impl FunctionStatement {
    fn write_to(&self, out: &mut String)
        ensures
            final(out)@ == old(out)@ + function_statement_text(*self),
    {
        match self {
            FunctionStatement::Assignment(regs, via, e) => {
                push_joined_strings(out, regs);
                push_str_chars(out, " <=");
                match via {
                    Some(v) => push_assignment_registers(out, v),
                    None => {},
                }
                push_str_chars(out, "= ");
                write_expr(e, out);
                push_str_chars(out, ";");
            },
            FunctionStatement::Instruction(name, inputs) => {
                push_string(out, name);
                push_spaced_exprs(out, inputs);
                push_str_chars(out, ";");
            },
            FunctionStatement::Label(name) => {
                push_string(out, name);
                push_str_chars(out, ":");
            },
            FunctionStatement::DebugDirective(d) => {
                d.write_to(out);
            },
            FunctionStatement::Return(values) => {
                push_str_chars(out, "return");
                push_spaced_exprs(out, values);
                push_str_chars(out, ";");
            },
        }
        proof {
            assert(final(out)@ =~= old(out)@ + function_statement_text(*self));
        }
    }

    /// The text of the statement.
    pub fn to_string(&self) -> (r: String)
        ensures
            r@ == function_statement_text(*self),
    {
        let mut s = String::new();
        self.write_to(&mut s);
        proof {
            assert(s@ =~= function_statement_text(*self));
        }
        s
    }
}

/// The id of an operation, if it has one.
pub struct OperationId {
    pub id: Option<u64>,
}

/// `<id>`, or nothing without an id.
pub open spec fn operation_id_text(o: OperationId) -> Seq<char> {
    match o.id {
        Some(id) => "<"@ + decimal(id as nat) + ">"@,
        None => seq![],
    }
}

impl OperationId {
    /// The text of the operation id.
    pub fn to_string(&self) -> (r: String)
        ensures
            r@ == operation_id_text(*self),
    {
        let mut s = String::new();
        match self.id {
            Some(id) => {
                push_str_chars(&mut s, "<");
                push_decimal(&mut s, id);
                push_str_chars(&mut s, ">");
            },
            None => {},
        }
        proof {
            assert(s@ =~= operation_id_text(*self));
        }
        s
    }
}

/// A reference to an operation of a submachine instance, with its parameters.
pub struct CallableRef {
    pub instance: String,
    pub callable: String,
    pub params: Params,
}

/// `instance.callable params`.
pub open spec fn callable_ref_text(c: CallableRef) -> Seq<char> {
    c.instance@ + "."@ + c.callable@ + " "@ + params_text(c.params)
}

/// A link from a machine to an operation of a submachine, under a flag.
pub struct LinkDeclaration {
    pub flag: Expression,
    pub to: CallableRef,
    pub is_permutation: bool,
}

/// `link flag => to;`, with `~>` for a permutation.
pub open spec fn link_text(l: LinkDeclaration) -> Seq<char> {
    "link "@ + expr_text(l.flag) + " "@ + (if l.is_permutation {
        "~>"@
    } else {
        "=>"@
    }) + " "@ + callable_ref_text(l.to) + ";"@
}

impl LinkDeclaration {
    fn write_to(&self, out: &mut String)
        ensures
            final(out)@ == old(out)@ + link_text(*self),
    {
        push_str_chars(out, "link ");
        write_expr(&self.flag, out);
        push_str_chars(out, " ");
        if self.is_permutation {
            push_str_chars(out, "~>");
        } else {
            push_str_chars(out, "=>");
        }
        push_str_chars(out, " ");
        push_string(out, &self.to.instance);
        push_str_chars(out, ".");
        push_string(out, &self.to.callable);
        push_str_chars(out, " ");
        let p = self.to.params.to_string();
        push_string(out, &p);
        push_str_chars(out, ";");
        proof {
            assert(final(out)@ =~= old(out)@ + link_text(*self));
        }
    }

    /// The text of the link.
    pub fn to_string(&self) -> (r: String)
        ensures
            r@ == link_text(*self),
    {
        let mut s = String::new();
        self.write_to(&mut s);
        proof {
            assert(s@ =~= link_text(*self));
        }
        s
    }
}

/// A polynomial name with an optional array size.
pub struct PolynomialName {
    pub name: String,
    pub array_size: Option<Expression>,
}

/// `name[size]`, without the brackets if there is no size.
pub open spec fn polynomial_name_text(p: PolynomialName) -> Seq<char> {
    p.name@ + match p.array_size {
        Some(e) => "["@ + expr_text(e) + "]"@,
        None => seq![],
    }
}

impl PolynomialName {
    /// The text of the name.
    pub fn to_string(&self) -> (r: String)
        ensures
            r@ == polynomial_name_text(*self),
    {
        let mut s = String::new();
        push_string(&mut s, &self.name);
        match &self.array_size {
            Some(e) => {
                push_str_chars(&mut s, "[");
                write_expr(e, &mut s);
                push_str_chars(&mut s, "]");
            },
            None => {},
        }
        proof {
            assert(s@ =~= polynomial_name_text(*self));
        }
        s
    }
}

/// A `let` statement inside a block, with an optional value.
pub struct LetStatementInsideBlock {
    pub name: String,
    pub value: Option<Expression>,
}

/// `let name = value;`, or `let name;` without a value.
pub open spec fn let_statement_text(l: LetStatementInsideBlock) -> Seq<char> {
    "let "@ + l.name@ + match l.value {
        Some(v) => " = "@ + expr_text(v) + ";"@,
        None => ";"@,
    }
}

impl LetStatementInsideBlock {
    /// The text of the statement.
    pub fn to_string(&self) -> (r: String)
        ensures
            r@ == let_statement_text(*self),
    {
        let mut s = String::new();
        push_str_chars(&mut s, "let ");
        push_string(&mut s, &self.name);
        match &self.value {
            Some(v) => {
                push_str_chars(&mut s, " = ");
                write_expr(v, &mut s);
                push_str_chars(&mut s, ";");
            },
            None => push_str_chars(&mut s, ";"),
        }
        proof {
            assert(s@ =~= let_statement_text(*self));
        }
        s
    }
}

/// A pattern of a match arm: anything, or a value.
pub enum MatchPattern {
    CatchAll,
    Pattern(Expression),
}

/// `_` or the pattern's expression.
pub open spec fn match_pattern_text(p: MatchPattern) -> Seq<char> {
    match p {
        MatchPattern::CatchAll => "_"@,
        MatchPattern::Pattern(e) => expr_text(e),
    }
}

/// An arm of a match expression.
pub struct MatchArm {
    pub pattern: MatchPattern,
    pub value: Expression,
}

/// `pattern => value,`.
pub open spec fn match_arm_text(a: MatchArm) -> Seq<char> {
    match_pattern_text(a.pattern) + " => "@ + expr_text(a.value) + ","@
}

impl MatchPattern {
    fn write_to(&self, out: &mut String)
        ensures
            final(out)@ == old(out)@ + match_pattern_text(*self),
    {
        match self {
            MatchPattern::CatchAll => push_str_chars(out, "_"),
            MatchPattern::Pattern(e) => write_expr(e, out),
        }
    }

    /// The text of the pattern.
    pub fn to_string(&self) -> (r: String)
        ensures
            r@ == match_pattern_text(*self),
    {
        let mut s = String::new();
        self.write_to(&mut s);
        proof {
            assert(s@ =~= match_pattern_text(*self));
        }
        s
    }
}

impl MatchArm {
    /// The text of the arm.
    pub fn to_string(&self) -> (r: String)
        ensures
            r@ == match_arm_text(*self),
    {
        let mut s = String::new();
        self.pattern.write_to(&mut s);
        push_str_chars(&mut s, " => ");
        write_expr(&self.value, &mut s);
        push_str_chars(&mut s, ",");
        proof {
            assert(s@ =~= match_arm_text(*self));
        }
        s
    }
}

/// A statement of a machine (those without PIL code).
pub enum MachineStatement {
    Degree(Expression),
    CallSelectors(String),
    /// The machine type and the instance name.
    Submachine(SymbolPath, String),
    /// The register name and its flag, if any.
    RegisterDeclaration(String, Option<RegisterFlag>),
    LinkDeclaration(LinkDeclaration),
    /// The name, the parameters and the statements.
    FunctionDeclaration(String, Params, Vec<FunctionStatement>),
    /// The name, the operation id and the parameters.
    OperationDeclaration(String, OperationId, Params),
}

/// The parameters after a space, or nothing if they are empty.
pub open spec fn spaced_params_text(p: Params) -> Seq<char> {
    if params_text(p).len() == 0 {
        seq![]
    } else {
        seq![' '] + params_text(p)
    }
}

/// The texts of function statements.
pub open spec fn function_statement_texts(v: Seq<FunctionStatement>) -> Seq<Seq<char>> {
    v.map_values(|s: FunctionStatement| function_statement_text(s))
}

/// The text of a machine statement.
pub open spec fn machine_statement_text(m: MachineStatement) -> Seq<char> {
    match m {
        MachineStatement::Degree(e) => "degree "@ + expr_text(e) + ";"@,
        MachineStatement::CallSelectors(s) => "call_selectors "@ + s@ + ";"@,
        MachineStatement::Submachine(ty, name) => symbol_path_text(ty.parts@) + " "@ + name@ + ";"@,
        MachineStatement::RegisterDeclaration(name, flag) => "reg "@ + name@ + match flag {
            Some(f) => "["@ + register_flag_text(f) + "]"@,
            None => seq![],
        } + ";"@,
        MachineStatement::LinkDeclaration(l) => link_text(l),
        MachineStatement::FunctionDeclaration(name, params, statements) => "function "@ + name@ + spaced_params_text(
            params,
        ) + " {\n"@ + join_with(function_statement_texts(statements@), "\n"@) + "\n}"@,
        MachineStatement::OperationDeclaration(name, id, params) => "operation "@ + name@ + operation_id_text(id)
            + spaced_params_text(params) + ";"@,
    }
}

/// Appends the statements' texts joined by newlines.
fn push_function_statements(out: &mut String, v: &Vec<FunctionStatement>)
    ensures
        final(out)@ == old(out)@ + join_with(function_statement_texts(v@), "\n"@),
{
    let ghost start = out@;
    let ghost texts = function_statement_texts(v@);
    let n = v.len();
    for i in 0..n
        invariant
            n == v@.len(),
            texts == function_statement_texts(v@),
            out@ == start + join_with(texts.subrange(0, i as int), "\n"@),
    {
        proof {
            assert(texts.subrange(0, i + 1) =~= texts.subrange(0, i as int).push(texts[i as int]));
            lemma_join_push(texts.subrange(0, i as int), texts[i as int], "\n"@);
        }
        if i > 0 {
            push_str_chars(out, "\n");
        }
        v[i].write_to(out);
        proof {
            assert(out@ =~= start + join_with(texts.subrange(0, i + 1), "\n"@));
        }
    }
    proof {
        assert(texts.subrange(0, n as int) =~= texts);
    }
}

impl MachineStatement {
    /// The text of the statement.
    pub fn to_string(&self) -> (r: String)
        ensures
            r@ == machine_statement_text(*self),
    {
        let mut s = String::new();
        match self {
            MachineStatement::Degree(e) => {
                push_str_chars(&mut s, "degree ");
                write_expr(e, &mut s);
                push_str_chars(&mut s, ";");
            },
            MachineStatement::CallSelectors(sel) => {
                push_str_chars(&mut s, "call_selectors ");
                push_string(&mut s, sel);
                push_str_chars(&mut s, ";");
            },
            MachineStatement::Submachine(ty, name) => {
                let t = ty.to_string();
                push_string(&mut s, &t);
                push_str_chars(&mut s, " ");
                push_string(&mut s, name);
                push_str_chars(&mut s, ";");
            },
            MachineStatement::RegisterDeclaration(name, flag) => {
                push_str_chars(&mut s, "reg ");
                push_string(&mut s, name);
                match flag {
                    Some(f) => {
                        push_str_chars(&mut s, "[");
                        let t = f.to_string();
                        push_string(&mut s, &t);
                        push_str_chars(&mut s, "]");
                    },
                    None => {},
                }
                push_str_chars(&mut s, ";");
            },
            MachineStatement::LinkDeclaration(l) => {
                l.write_to(&mut s);
            },
            MachineStatement::FunctionDeclaration(name, params, statements) => {
                push_str_chars(&mut s, "function ");
                push_string(&mut s, name);
                let p = params.prepend_space_if_non_empty();
                push_string(&mut s, &p);
                push_str_chars(&mut s, " {\n");
                push_function_statements(&mut s, statements);
                push_str_chars(&mut s, "\n}");
            },
            MachineStatement::OperationDeclaration(name, id, params) => {
                push_str_chars(&mut s, "operation ");
                push_string(&mut s, name);
                let t = id.to_string();
                push_string(&mut s, &t);
                let p = params.prepend_space_if_non_empty();
                push_string(&mut s, &p);
                push_str_chars(&mut s, ";");
            },
        }
        proof {
            assert(s@ =~= machine_statement_text(*self));
        }
        s
    }
}

// ---------------------------------------------------------------------------
// Reading operators back
// ---------------------------------------------------------------------------
/// The binary operator that a source symbol stands for, as the language's grammar
/// reads it.
pub open spec fn binary_op_of_symbol(t: Seq<char>) -> Option<BinaryOperator> {
    if t.len() == 1 {
        let c = t[0];
        if c == '+' {
            Some(BinaryOperator::Add)
        } else if c == '-' {
            Some(BinaryOperator::Sub)
        } else if c == '*' {
            Some(BinaryOperator::Mul)
        } else if c == '/' {
            Some(BinaryOperator::Div)
        } else if c == '%' {
            Some(BinaryOperator::Mod)
        } else if c == '&' {
            Some(BinaryOperator::BinaryAnd)
        } else if c == '^' {
            Some(BinaryOperator::BinaryXor)
        } else if c == '|' {
            Some(BinaryOperator::BinaryOr)
        } else if c == '<' {
            Some(BinaryOperator::Less)
        } else if c == '=' {
            Some(BinaryOperator::Identity)
        } else if c == '>' {
            Some(BinaryOperator::Greater)
        } else {
            None
        }
    } else if t.len() == 2 {
        let (c, d) = (t[0], t[1]);
        if c == '*' && d == '*' {
            Some(BinaryOperator::Pow)
        } else if c == '<' && d == '<' {
            Some(BinaryOperator::ShiftLeft)
        } else if c == '>' && d == '>' {
            Some(BinaryOperator::ShiftRight)
        } else if c == '|' && d == '|' {
            Some(BinaryOperator::LogicalOr)
        } else if c == '&' && d == '&' {
            Some(BinaryOperator::LogicalAnd)
        } else if c == '<' && d == '=' {
            Some(BinaryOperator::LessEqual)
        } else if c == '=' && d == '=' {
            Some(BinaryOperator::Equal)
        } else if c == '!' && d == '=' {
            Some(BinaryOperator::NotEqual)
        } else if c == '>' && d == '=' {
            Some(BinaryOperator::GreaterEqual)
        } else {
            None
        }
    } else {
        None
    }
}

/// The unary operator that a source symbol stands for.
pub open spec fn unary_op_of_symbol(t: Seq<char>) -> Option<UnaryOperator> {
    if t.len() != 1 {
        None
    } else if t[0] == '-' {
        Some(UnaryOperator::Minus)
    } else if t[0] == '!' {
        Some(UnaryOperator::LogicalNot)
    } else if t[0] == '\'' {
        Some(UnaryOperator::Next)
    } else {
        None
    }
}

/// Every binary operator prints as the source symbol that reads back as it, so
/// printing tells operators apart: two operators with the same text are the same.
pub proof fn law_binary_operator_text_reads_back(a: BinaryOperator, b: BinaryOperator)
    ensures
        binary_op_of_symbol(binary_op_text(a)) == Some(a),
        binary_op_text(a) == binary_op_text(b) ==> a == b,
{
    lemma_binary_reads_back(a);
    lemma_binary_reads_back(b);
}

proof fn lemma_binary_reads_back(a: BinaryOperator)
    ensures
        binary_op_of_symbol(binary_op_text(a)) == Some(a),
{
}

/// Every unary operator prints as the source symbol that reads back as it.
pub proof fn law_unary_operator_text_reads_back(a: UnaryOperator, b: UnaryOperator)
    ensures
        unary_op_of_symbol(unary_op_text(a)) == Some(a),
        unary_op_text(a) == unary_op_text(b) ==> a == b,
{
    lemma_unary_reads_back(a);
    lemma_unary_reads_back(b);
}

proof fn lemma_unary_reads_back(a: UnaryOperator)
    ensures
        unary_op_of_symbol(unary_op_text(a)) == Some(a),
{
}

} // verus!
