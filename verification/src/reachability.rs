//! Reachability analysis of RISC-V assembly: starting from a label, find the code
//! blocks and data objects that can be reached, and drop everything else.
use vstd::prelude::*;

use crate::text::{
    insert_sorted, lemma_push_to_set, lemma_seq_lt_order, lemma_seq_lt_trans, seq_lt, str_eq, str_lt,
    strictly_sorted, string_views,
};

verus! {

// ---------------------------------------------------------------------------
// Assembly statements and data values
// ---------------------------------------------------------------------------
/// A machine register.
#[derive(Clone, Copy, Debug, PartialEq, Eq, Structural)]
pub struct Register {
    pub value: u8,
}

/// A constant operand: a number, or the high or low part of a data address.
#[derive(Debug, PartialEq, Eq)]
pub enum Constant {
    Number(i64),
    HiDataRef(String, i64),
    LoDataRef(String, i64),
}

/// An operand of a directive or an instruction.
#[derive(Debug, PartialEq, Eq)]
pub enum Argument {
    Register(Register),
    RegOffset(Option<Register>, Constant),
    StringLiteral(Vec<u8>),
    Symbol(String),
    Constant(Constant),
    Difference(String, String),
}

/// A statement of an assembly file.
#[derive(Debug, PartialEq, Eq)]
pub enum Statement {
    Label(String),
    Directive(String, Vec<Argument>),
    Instruction(String, Vec<Argument>),
}

/// A piece of an initialized data object.
#[derive(Debug, PartialEq, Eq)]
pub enum DataValue {
    Direct(Vec<u8>),
    Zero(usize),
    Alignment(usize, usize),
    Reference(String),
    Offset(String, String),
}

/// The mathematical value of a `Constant`.
pub enum ConstantV {
    Number(i64),
    HiDataRef(Seq<char>, i64),
    LoDataRef(Seq<char>, i64),
}

/// The mathematical value of an `Argument`.
pub enum ArgumentV {
    Register(Register),
    RegOffset(Option<Register>, ConstantV),
    StringLiteral(Seq<u8>),
    Symbol(Seq<char>),
    Constant(ConstantV),
    Difference(Seq<char>, Seq<char>),
}

/// The mathematical value of a `Statement`.
pub enum StatementV {
    Label(Seq<char>),
    Directive(Seq<char>, Seq<ArgumentV>),
    Instruction(Seq<char>, Seq<ArgumentV>),
}

/// The mathematical value of a `DataValue`.
pub enum DataValueV {
    Direct(Seq<u8>),
    Zero(usize),
    Alignment(usize, usize),
    Reference(Seq<char>),
    Offset(Seq<char>, Seq<char>),
}

impl View for Constant {
    type V = ConstantV;

    open spec fn view(&self) -> ConstantV {
        match self {
            Constant::Number(n) => ConstantV::Number(*n),
            Constant::HiDataRef(s, o) => ConstantV::HiDataRef(s@, *o),
            Constant::LoDataRef(s, o) => ConstantV::LoDataRef(s@, *o),
        }
    }
}

impl View for Argument {
    type V = ArgumentV;

    open spec fn view(&self) -> ArgumentV {
        match self {
            Argument::Register(r) => ArgumentV::Register(*r),
            Argument::RegOffset(r, c) => ArgumentV::RegOffset(*r, c@),
            Argument::StringLiteral(b) => ArgumentV::StringLiteral(b@),
            Argument::Symbol(s) => ArgumentV::Symbol(s@),
            Argument::Constant(c) => ArgumentV::Constant(c@),
            Argument::Difference(l, r) => ArgumentV::Difference(l@, r@),
        }
    }
}

/// The mathematical values of a sequence of arguments.
pub open spec fn args_view(args: Seq<Argument>) -> Seq<ArgumentV> {
    args.map_values(|a: Argument| a@)
}

impl View for Statement {
    type V = StatementV;

    open spec fn view(&self) -> StatementV {
        match self {
            Statement::Label(l) => StatementV::Label(l@),
            Statement::Directive(d, args) => StatementV::Directive(d@, args_view(args@)),
            Statement::Instruction(i, args) => StatementV::Instruction(i@, args_view(args@)),
        }
    }
}

impl View for DataValue {
    type V = DataValueV;

    open spec fn view(&self) -> DataValueV {
        match self {
            DataValue::Direct(b) => DataValueV::Direct(b@),
            DataValue::Zero(n) => DataValueV::Zero(*n),
            DataValue::Alignment(a, b) => DataValueV::Alignment(*a, *b),
            DataValue::Reference(s) => DataValueV::Reference(s@),
            DataValue::Offset(a, b) => DataValueV::Offset(a@, b@),
        }
    }
}

/// The mathematical values of a sequence of statements.
pub open spec fn stmts_view(s: Seq<Statement>) -> Seq<StatementV> {
    s.map_values(|x: Statement| x@)
}

/// The mathematical values of the pieces of a data object.
pub open spec fn values_view(v: Seq<DataValue>) -> Seq<DataValueV> {
    v.map_values(|x: DataValue| x@)
}

/// The mathematical value of a list of named data objects.
pub open spec fn objects_view(o: Seq<(String, Vec<DataValue>)>) -> Seq<(Seq<char>, Seq<DataValueV>)> {
    o.map_values(|x: (String, Vec<DataValue>)| (x.0@, values_view(x.1@)))
}

// ---------------------------------------------------------------------------
// Control flow
// ---------------------------------------------------------------------------
/// The instructions after which execution does not fall through.
pub open spec fn is_jump_name(n: Seq<char>) -> bool {
    n == "j"@ || n == "jr"@ || n == "tail"@ || n == "ret"@ || n == "unimp"@
}

/// The instructions after which execution continues with the next statement.
pub open spec fn is_plain_name(n: Seq<char>) -> bool {
    ||| n == "li"@ || n == "lui"@ || n == "la"@ || n == "mv"@ || n == "add"@ || n == "addi"@
    ||| n == "sub"@ || n == "neg"@ || n == "mul"@ || n == "mulhu"@ || n == "xor"@
    ||| n == "xori"@ || n == "and"@ || n == "andi"@ || n == "or"@ || n == "ori"@
    ||| n == "not"@ || n == "slli"@ || n == "sll"@ || n == "srli"@ || n == "srl"@
    ||| n == "srai"@ || n == "seqz"@ || n == "snez"@ || n == "slt"@ || n == "slti"@
    ||| n == "sltu"@ || n == "sltiu"@ || n == "sgtz"@ || n == "beq"@ || n == "beqz"@
    ||| n == "bgeu"@ || n == "bltu"@ || n == "blt"@ || n == "bge"@ || n == "bltz"@
    ||| n == "blez"@ || n == "bgtz"@ || n == "bgez"@ || n == "bne"@ || n == "bnez"@
    ||| n == "jal"@ || n == "jalr"@ || n == "call"@ || n == "ecall"@ || n == "ebreak"@
    ||| n == "lw"@ || n == "lb"@ || n == "lbu"@ || n == "sw"@ || n == "sh"@ || n == "sb"@
    ||| n == "nop"@
}

/// An instruction whose name is neither a jump nor a plain instruction.
pub open spec fn is_unknown_instruction(s: StatementV) -> bool {
    s matches StatementV::Instruction(n, _) && !is_jump_name(n) && !is_plain_name(n)
}

/// Whether the statement ends a basic block.
pub open spec fn ends_flow(s: StatementV) -> bool {
    s matches StatementV::Instruction(n, _) && is_jump_name(n)
}

fn ends_control_flow(s: &Statement) -> (r: bool)
    requires
        !is_unknown_instruction(s@),
    ensures
        r == ends_flow(s@),
{
    match s {
        Statement::Instruction(name, _) => {
            let n = name.as_str();
            str_eq(n, "j") || str_eq(n, "jr") || str_eq(n, "tail") || str_eq(n, "ret")
                || str_eq(n, "unimp")
        },
        _ => false,
    }
}

// ---------------------------------------------------------------------------
// References
// ---------------------------------------------------------------------------
/// The symbol that a constant refers to, if any.
pub open spec fn const_ref(c: ConstantV) -> Option<Seq<char>> {
    match c {
        ConstantV::Number(_) => None,
        ConstantV::HiDataRef(s, _) => Some(s),
        ConstantV::LoDataRef(s, _) => Some(s),
    }
}

/// The symbol that an argument refers to, if any (a difference refers to none).
pub open spec fn arg_ref(a: ArgumentV) -> Option<Seq<char>> {
    match a {
        ArgumentV::Symbol(s) => Some(s),
        ArgumentV::RegOffset(_, c) => const_ref(c),
        ArgumentV::Constant(c) => const_ref(c),
        _ => None,
    }
}

/// Whether an instruction has a difference of symbols among its arguments.
pub open spec fn has_difference(s: StatementV) -> bool {
    s matches StatementV::Instruction(_, args) && exists|j: int|
        0 <= j < args.len() && #[trigger] args[j] is Difference
}

/// Whether the statement is an instruction that refers to the symbol `n`.
pub open spec fn refers_to(s: StatementV, n: Seq<char>) -> bool {
    s matches StatementV::Instruction(_, args) && exists|j: int|
        0 <= j < args.len() && #[trigger] arg_ref(args[j]) == Some(n)
}

/// The symbols that a statement refers to.
pub open spec fn stmt_refs(s: StatementV) -> Set<Seq<char>> {
    Set::new(|n: Seq<char>| refers_to(s, n))
}

fn const_symbol(c: &Constant) -> (r: Option<&String>)
    ensures
        match r {
            Some(s) => const_ref(c@) == Some(s@),
            None => const_ref(c@) is None,
        },
{
    match c {
        Constant::Number(_) => None,
        Constant::HiDataRef(s, _) => Some(s),
        Constant::LoDataRef(s, _) => Some(s),
    }
}

fn arg_symbol(a: &Argument) -> (r: Option<&String>)
    ensures
        match r {
            Some(s) => arg_ref(a@) == Some(s@),
            None => arg_ref(a@) is None,
        },
{
    match a {
        Argument::Symbol(s) => Some(s),
        Argument::RegOffset(_, c) => const_symbol(c),
        Argument::Constant(c) => const_symbol(c),
        _ => None,
    }
}

/// The symbols that a statement refers to, in ascending order. Labels and
/// directives refer to none; an instruction refers to its symbol arguments and to
/// the symbols of its data address constants.
pub fn references_in_statement(statement: &Statement) -> (r: Vec<String>)
    requires
        !has_difference(statement@),
    ensures
        strictly_sorted(string_views(r@)),
        string_views(r@).to_set() == stmt_refs(statement@),
{
    let mut out: Vec<String> = Vec::new();
    match statement {
        Statement::Instruction(_, args) => {
            let ghost av = args_view(args@);
            for j in 0..args.len()
                invariant
                    av == args_view(args@),
                    statement@ == StatementV::Instruction(statement@->Instruction_0, av),
                    strictly_sorted(string_views(out@)),
                    forall|n: Seq<char>|
                        string_views(out@).to_set().contains(n) <==> exists|k: int|
                            0 <= k < j && #[trigger] arg_ref(av[k]) == Some(n),
            {
                let ghost before = string_views(out@).to_set();
                match arg_symbol(&args[j]) {
                    Some(s) => {
                        insert_sorted(&mut out, s.clone());
                    },
                    None => {},
                }
                proof {
                    assert forall|n: Seq<char>|
                        string_views(out@).to_set().contains(n) <==> exists|k: int|
                            0 <= k < j + 1 && #[trigger] arg_ref(av[k]) == Some(n) by {
                        if string_views(out@).to_set().contains(n) && !before.contains(n) {
                            assert(arg_ref(av[j as int]) == Some(n));
                        }
                        if exists|k: int| 0 <= k < j + 1 && #[trigger] arg_ref(av[k]) == Some(n) {
                            let k = choose|k: int| 0 <= k < j + 1 && #[trigger] arg_ref(av[k]) == Some(n);
                            if k < j {
                                assert(before.contains(n));
                            }
                        }
                    }
                }
            }
            proof {
                assert(string_views(out@).to_set() =~= stmt_refs(statement@));
            }
        },
        _ => {
            proof {
                assert(string_views(out@).to_set() =~= stmt_refs(statement@));
            }
        },
    }
    out
}


// ---------------------------------------------------------------------------
// Named entries kept in ascending order of their names
// ---------------------------------------------------------------------------
/// The names of a list of named entries.
pub open spec fn names_of<V>(v: Seq<(String, V)>) -> Seq<Seq<char>> {
    v.map_values(|e: (String, V)| e.0@)
}

/// Inserts a named entry, whose name is new, at its place in a list kept in
/// strictly ascending order of names.
fn insert_by_name<V>(v: &mut Vec<(String, V)>, x: (String, V))
    requires
        strictly_sorted(names_of(old(v)@)),
        !names_of(old(v)@).contains(x.0@),
    ensures
        strictly_sorted(names_of(final(v)@)),
        exists|p: int| 0 <= p <= old(v)@.len() && final(v)@ == old(v)@.insert(p, x),
{
    let ghost old_names = names_of(v@);
    let mut p: usize = 0;
    while p < v.len() && str_lt(v[p].0.as_str(), x.0.as_str())
        invariant
            p <= v.len(),
            v@ == old(v)@,
            old_names == names_of(v@),
            strictly_sorted(old_names),
            forall|j: int| 0 <= j < p ==> seq_lt(old_names[j], x.0@),
        decreases v.len() - p,
    {
        p = p + 1;
    }
    proof {
        if p < v.len() {
            assert(old_names[p as int] != x.0@) by {
                if old_names[p as int] == x.0@ {
                    assert(old_names.contains(x.0@));
                }
            }
            lemma_seq_lt_order(old_names[p as int], x.0@);
            assert forall|j: int| p <= j < old_names.len() implies seq_lt(x.0@, old_names[j]) by {
                if j > p {
                    lemma_seq_lt_trans(x.0@, old_names[p as int], old_names[j]);
                }
            }
        }
    }
    let ghost xn = x.0@;
    v.insert(p, x);
    proof {
        let nv = names_of(v@);
        assert(nv =~= old_names.insert(p as int, xn));
        assert forall|i: int, j: int| 0 <= i < j < nv.len() implies seq_lt(nv[i], nv[j]) by {
            if i < p && j > p {
                lemma_seq_lt_trans(nv[i], xn, nv[j]);
            }
        }
    }
}

// ---------------------------------------------------------------------------
// Labels
// ---------------------------------------------------------------------------
/// No label is defined twice.
pub open spec fn labels_distinct(ss: Seq<StatementV>) -> bool {
    forall|i: int, j: int|
        0 <= i < j < ss.len() && #[trigger] ss[i] is Label && #[trigger] ss[j] is Label
            ==> ss[i]->Label_0 != ss[j]->Label_0
}

/// The position of each label, in ascending order of label names: each entry is a
/// label and its position, and each label of the statements has an entry.
pub open spec fn is_label_offsets(ss: Seq<StatementV>, r: Seq<(String, usize)>) -> bool {
    &&& strictly_sorted(names_of(r))
    &&& forall|e: int|
        0 <= e < r.len() ==> (r[e].1 < ss.len() && ss[r[e].1 as int] == StatementV::Label(r[e].0@))
    &&& forall|i: int|
        0 <= i < ss.len() && #[trigger] ss[i] is Label ==> exists|e: int|
            0 <= e < r.len() && #[trigger] r[e].1 == i
}

/// The position of each label. Every label may be defined only once.
pub fn extract_label_offsets(statements: &Vec<Statement>) -> (r: Vec<(String, usize)>)
    requires
        labels_distinct(stmts_view(statements@)),
    ensures
        is_label_offsets(stmts_view(statements@), r@),
{
    let ghost ss = stmts_view(statements@);
    let mut out: Vec<(String, usize)> = Vec::new();
    let mut i: usize = 0;
    while i < statements.len()
        invariant
            i <= statements.len(),
            ss == stmts_view(statements@),
            labels_distinct(ss),
            strictly_sorted(names_of(out@)),
            forall|e: int|
                0 <= e < out@.len() ==> (out@[e].1 < i && ss[out@[e].1 as int]
                    == StatementV::Label(out@[e].0@)),
            forall|k: int|
                0 <= k < i && #[trigger] ss[k] is Label ==> exists|e: int|
                    0 <= e < out@.len() && #[trigger] out@[e].1 == k,
        decreases statements.len() - i,
    {
        match &statements[i] {
            Statement::Label(l) => {
                let ghost before = out@;
                proof {
                    assert(ss[i as int] == StatementV::Label(l@));
                    assert(!names_of(before).contains(l@)) by {
                        if names_of(before).contains(l@) {
                            let e = choose|e: int| 0 <= e < before.len() && names_of(before)[e] == l@;
                            assert(before[e].0@ == l@);
                            let k = before[e].1 as int;
                            assert(ss[k] is Label && ss[i as int] is Label);
                        }
                    }
                }
                let lc = l.clone();
                let ghost entry = (lc, i);
                insert_by_name(&mut out, (lc, i));
                proof {
                    let p = choose|p: int| 0 <= p <= before.len() && out@ == before.insert(p, entry);
                    assert(out@[p] == entry);
                    assert(entry.0@ == l@);
                    assert(entry.1 == i);
                    assert forall|e: int| 0 <= e < out@.len() implies (out@[e].1 < i + 1 && ss[out@[e].1 as int]
                        == StatementV::Label(out@[e].0@)) by {
                        if e < p {
                            assert(out@[e] == before[e]);
                            assert(before[e].1 < i && ss[before[e].1 as int] == StatementV::Label(before[e].0@));
                        } else if e > p {
                            assert(out@[e] == before[e - 1]);
                            assert(before[e - 1].1 < i && ss[before[e - 1].1 as int] == StatementV::Label(before[e - 1].0@));
                        } else {
                            assert(out@[e] == entry);
                        }
                    }
                    assert forall|k: int| 0 <= k < i + 1 && #[trigger] ss[k] is Label implies exists|e: int|
                        0 <= e < out@.len() && #[trigger] out@[e].1 == k by {
                        if k < i {
                            let e = choose|e: int| 0 <= e < before.len() && #[trigger] before[e].1 == k;
                            if e < p {
                                assert(out@[e] == before[e]);
                            } else {
                                assert(out@[e + 1] == before[e]);
                            }
                        } else {
                            assert(out@[p].1 == k);
                        }
                    }
                }
            },
            _ => {
                proof {
                    assert(!(ss[i as int] is Label));
                }
            },
        }
        i = i + 1;
    }
    out
}

/// The position of the label `name`, if it is one.
fn find_offset(offsets: &Vec<(String, usize)>, name: &str) -> (r: Option<usize>)
    ensures
        match r {
            Some(i) => exists|e: int| 0 <= e < offsets@.len() && offsets@[e].0@ == name@ && offsets@[e].1 == i,
            None => forall|e: int| 0 <= e < offsets@.len() ==> offsets@[e].0@ != name@,
        },
{
    for e in 0..offsets.len()
        invariant
            forall|f: int| 0 <= f < e ==> offsets@[f].0@ != name@,
    {
        if str_eq(offsets[e].0.as_str(), name) {
            return Some(offsets[e].1);
        }
    }
    None
}


// ---------------------------------------------------------------------------
// Replacements, objects and labels as maps
// ---------------------------------------------------------------------------
/// The map given by a list of pairs of names; a later pair wins over an earlier
/// one with the same first name.
pub open spec fn view_map(ps: Seq<(Seq<char>, Seq<char>)>) -> Map<Seq<char>, Seq<char>>
    decreases ps.len(),
{
    if ps.len() == 0 {
        Map::empty()
    } else {
        view_map(ps.drop_last()).insert(ps.last().0, ps.last().1)
    }
}

/// The first names of a list of pairs of names.
pub open spec fn firsts(ps: Seq<(Seq<char>, Seq<char>)>) -> Seq<Seq<char>> {
    ps.map_values(|e: (Seq<char>, Seq<char>)| e.0)
}

/// The character views of a list of pairs of strings.
pub open spec fn pair_views(p: Seq<(String, String)>) -> Seq<(Seq<char>, Seq<char>)> {
    p.map_values(|e: (String, String)| (e.0@, e.1@))
}

/// The map given by a list of pairs of strings.
pub open spec fn pairs_map(p: Seq<(String, String)>) -> Map<Seq<char>, Seq<char>> {
    view_map(pair_views(p))
}

/// A name after one replacement.
pub open spec fn replaced(rm: Map<Seq<char>, Seq<char>>, s: Seq<char>) -> Seq<char> {
    if rm.contains_key(s) {
        rm[s]
    } else {
        s
    }
}

proof fn lemma_view_map(ps: Seq<(Seq<char>, Seq<char>)>)
    requires
        firsts(ps).no_duplicates(),
    ensures
        forall|e: int|
            0 <= e < ps.len() ==> view_map(ps).contains_key(#[trigger] firsts(ps)[e]) && view_map(ps)[firsts(
                ps,
            )[e]] == ps[e].1,
        forall|k: Seq<char>| #[trigger] view_map(ps).contains_key(k) ==> firsts(ps).contains(k),
        view_map(ps).dom().finite(),
        view_map(ps).dom().len() == ps.len(),
    decreases ps.len(),
{
    if ps.len() > 0 {
        let q = ps.drop_last();
        assert(firsts(q) =~= firsts(ps).drop_last());
        assert(firsts(q).no_duplicates()) by {
            assert forall|i: int, j: int|
                0 <= i < firsts(q).len() && 0 <= j < firsts(q).len() && i != j implies firsts(q)[i]
                != firsts(q)[j] by {
                assert(firsts(q)[i] == firsts(ps)[i]);
                assert(firsts(q)[j] == firsts(ps)[j]);
            }
        }
        lemma_view_map(q);
        let last = ps.len() - 1;
        assert(ps.last().0 == firsts(ps)[last]);
        assert forall|e: int| 0 <= e < ps.len() implies view_map(ps).contains_key(#[trigger] firsts(ps)[e])
            && view_map(ps)[firsts(ps)[e]] == ps[e].1 by {
            if e < last {
                assert(firsts(q)[e] == firsts(ps)[e]);
                assert(q[e] == ps[e]);
                assert(firsts(ps)[e] != firsts(ps)[last]);
            }
        }
        assert forall|k: Seq<char>| #[trigger] view_map(ps).contains_key(k) implies firsts(ps).contains(k) by {
            if k != firsts(ps)[last] {
                assert(view_map(q).contains_key(k));
                let e = choose|e: int| 0 <= e < firsts(q).len() && firsts(q)[e] == k;
                assert(firsts(ps)[e] == k);
            } else {
                assert(firsts(ps)[last] == k);
            }
        }
        assert(!view_map(q).contains_key(ps.last().0)) by {
            if view_map(q).contains_key(ps.last().0) {
                let e = choose|e: int| 0 <= e < firsts(q).len() && firsts(q)[e] == ps.last().0;
                assert(firsts(ps)[e] == firsts(ps)[last]);
            }
        }
        assert(view_map(ps).dom() =~= view_map(q).dom().insert(ps.last().0));
    } else {
        assert(view_map(ps).dom() =~= Set::empty());
    }
}

proof fn lemma_pairs_map(p: Seq<(String, String)>)
    requires
        names_of(p).no_duplicates(),
    ensures
        forall|e: int|
            0 <= e < p.len() ==> pairs_map(p).contains_key(#[trigger] names_of(p)[e]) && pairs_map(p)[names_of(
                p,
            )[e]] == p[e].1@,
        forall|k: Seq<char>| #[trigger] pairs_map(p).contains_key(k) ==> names_of(p).contains(k),
{
    assert(firsts(pair_views(p)) =~= names_of(p));
    lemma_view_map(pair_views(p));
    assert forall|e: int| 0 <= e < p.len() implies pairs_map(p).contains_key(#[trigger] names_of(p)[e])
        && pairs_map(p)[names_of(p)[e]] == p[e].1@ by {
        assert(firsts(pair_views(p))[e] == names_of(p)[e]);
        assert(pair_views(p)[e].1 == p[e].1@);
    }
}

/// The name that `s` is replaced by.
fn replace(replacements: &Vec<(String, String)>, s: &String) -> (r: String)
    requires
        names_of(replacements@).no_duplicates(),
    ensures
        r@ == replaced(pairs_map(replacements@), s@),
{
    proof {
        lemma_pairs_map(replacements@);
    }
    for e in 0..replacements.len()
        invariant
            names_of(replacements@).no_duplicates(),
            forall|f: int| 0 <= f < e ==> names_of(replacements@)[f] != s@,
    {
        if str_eq(replacements[e].0.as_str(), s.as_str()) {
            proof {
                lemma_pairs_map(replacements@);
            }
            assert(names_of(replacements@)[e as int] == s@);
            return replacements[e].1.clone();
        }
    }
    proof {
        if pairs_map(replacements@).contains_key(s@) {
            let e = choose|e: int| 0 <= e < names_of(replacements@).len() && names_of(replacements@)[e] == s@;
        }
    }
    s.clone()
}

/// The values of the data object called `n`, if there is one.
pub open spec fn object_of(ov: Seq<(Seq<char>, Seq<DataValueV>)>, n: Seq<char>) -> Option<Seq<DataValueV>> {
    if exists|i: int| 0 <= i < ov.len() && ov[i].0 == n {
        Some(ov[choose|i: int| 0 <= i < ov.len() && ov[i].0 == n].1)
    } else {
        None
    }
}

/// No two data objects have the same name.
pub open spec fn object_names_distinct(ov: Seq<(Seq<char>, Seq<DataValueV>)>) -> bool {
    forall|i: int, j: int| 0 <= i < j < ov.len() ==> #[trigger] ov[i].0 != #[trigger] ov[j].0
}

/// The names that the pieces of a data object refer to.
pub open spec fn value_refs(vals: Seq<DataValueV>) -> Set<Seq<char>> {
    Set::new(|r: Seq<char>| exists|j: int| 0 <= j < vals.len() && vals[j] == DataValueV::Reference(r))
}

/// The position of the label `n`, if there is one.
pub open spec fn label_pos(ss: Seq<StatementV>, n: Seq<char>) -> Option<int> {
    if exists|k: int| 0 <= k < ss.len() && ss[k] == StatementV::Label(n) {
        Some(choose|k: int| 0 <= k < ss.len() && ss[k] == StatementV::Label(n))
    } else {
        None
    }
}

/// The position of the last statement of the basic block that starts at `off`:
/// the first statement that ends control flow, or the last statement.
pub open spec fn block_last(ss: Seq<StatementV>, off: int) -> int
    decreases ss.len() - off,
{
    if off + 1 >= ss.len() || ends_flow(ss[off]) {
        off
    } else {
        block_last(ss, off + 1)
    }
}

/// A statement that cannot be scanned: an unknown instruction, or an instruction
/// with a difference of symbols.
pub open spec fn is_bad_in_block(s: StatementV) -> bool {
    is_unknown_instruction(s) || has_difference(s)
}

/// Every statement of the basic block at `off` can be scanned.
pub open spec fn block_ok(ss: Seq<StatementV>, off: int) -> bool {
    forall|k: int| off <= k <= block_last(ss, off) ==> !is_bad_in_block(#[trigger] ss[k])
}

/// The names that the instructions of the basic block at `off` refer to.
pub open spec fn block_refs(ss: Seq<StatementV>, off: int) -> Set<Seq<char>> {
    Set::new(|n: Seq<char>| exists|k: int| off <= k <= block_last(ss, off) && refers_to(ss[k], n))
}

/// The labels inside the basic block at `off`.
pub open spec fn block_labels(ss: Seq<StatementV>, off: int) -> Set<Seq<char>> {
    Set::new(
        |n: Seq<char>| exists|k: int| off <= k <= block_last(ss, off) && ss[k] == StatementV::Label(n),
    )
}

// ---------------------------------------------------------------------------
// The search
// ---------------------------------------------------------------------------
/// The state of the search: names still to visit, names visited, and whether the
/// search reached a name that is neither a data object nor a label, or a basic
/// block that cannot be scanned.
pub type ReachState = (Set<Seq<char>>, Set<Seq<char>>, bool);

/// The least name of a set.
pub open spec fn set_min(q: Set<Seq<char>>) -> Seq<char> {
    choose|x: Seq<char>| q.contains(x) && forall|y: Seq<char>| q.contains(y) && y != x ==> seq_lt(x, y)
}

/// Whether the search has ended.
pub open spec fn reach_done(st: ReachState) -> bool {
    st.2 || st.0.is_empty()
}

#[verifier::opaque]
/// One step of the search: take the least name to visit and replace it. A name
/// visited before is dropped. A data object is marked visited and the names its
/// pieces refer to are queued; a label is marked visited together with the labels
/// of its basic block, and the names its instructions refer to are queued. Only
/// names not yet visited are queued.
pub open spec fn reach_step(
    ss: Seq<StatementV>,
    ov: Seq<(Seq<char>, Seq<DataValueV>)>,
    rm: Map<Seq<char>, Seq<char>>,
    st: ReachState,
) -> ReachState {
    if reach_done(st) {
        st
    } else {
        let l0 = set_min(st.0);
        let rest = st.0.remove(l0);
        let l = replaced(rm, l0);
        if st.1.contains(l) {
            (rest, st.1, false)
        } else {
            match object_of(ov, l) {
                Some(vals) => {
                    let d = st.1.insert(l);
                    (rest.union(value_refs(vals).difference(d)), d, false)
                },
                None => match label_pos(ss, l) {
                    Some(off) => if block_ok(ss, off) {
                        let d = st.1.insert(l).union(block_labels(ss, off));
                        (rest.union(block_refs(ss, off).difference(d)), d, false)
                    } else {
                        (rest, st.1, true)
                    },
                    None => (rest, st.1, true),
                },
            }
        }
    }
}

/// The state of the search from `label` after `n` steps.
pub open spec fn reach_run(
    ss: Seq<StatementV>,
    ov: Seq<(Seq<char>, Seq<DataValueV>)>,
    rm: Map<Seq<char>, Seq<char>>,
    label: Seq<char>,
    n: nat,
) -> ReachState
    decreases n,
{
    if n == 0 {
        (set![label], Set::empty(), false)
    } else {
        reach_step(ss, ov, rm, reach_run(ss, ov, rm, label, (n - 1) as nat))
    }
}

/// The search from `label` ends without reaching an unknown name or a basic block
/// that cannot be scanned.
pub open spec fn reach_ok(
    ss: Seq<StatementV>,
    ov: Seq<(Seq<char>, Seq<DataValueV>)>,
    rm: Map<Seq<char>, Seq<char>>,
    label: Seq<char>,
) -> bool {
    exists|n: nat| reach_done(#[trigger] reach_run(ss, ov, rm, label, n)) && !reach_run(ss, ov, rm, label, n).2
}

/// The names visited by the search from `label` when it ends.
pub open spec fn reach_result(
    ss: Seq<StatementV>,
    ov: Seq<(Seq<char>, Seq<DataValueV>)>,
    rm: Map<Seq<char>, Seq<char>>,
    label: Seq<char>,
) -> Set<Seq<char>> {
    reach_run(ss, ov, rm, label, choose|n: nat| reach_done(#[trigger] reach_run(ss, ov, rm, label, n))).1
}

proof fn lemma_step_done(
    ss: Seq<StatementV>,
    ov: Seq<(Seq<char>, Seq<DataValueV>)>,
    rm: Map<Seq<char>, Seq<char>>,
    st: ReachState,
)
    requires
        reach_done(st),
    ensures
        reach_step(ss, ov, rm, st) == st,
{
    reveal(reach_step);
}

proof fn lemma_reach_stays(
    ss: Seq<StatementV>,
    ov: Seq<(Seq<char>, Seq<DataValueV>)>,
    rm: Map<Seq<char>, Seq<char>>,
    label: Seq<char>,
    k: nat,
    m: nat,
)
    requires
        reach_done(reach_run(ss, ov, rm, label, k)),
    ensures
        reach_run(ss, ov, rm, label, k + m) == reach_run(ss, ov, rm, label, k),
    decreases m,
{
    if m > 0 {
        lemma_reach_stays(ss, ov, rm, label, k, (m - 1) as nat);
        lemma_step_done(ss, ov, rm, reach_run(ss, ov, rm, label, k));
        assert(reach_run(ss, ov, rm, label, k + m) == reach_step(
            ss,
            ov,
            rm,
            reach_run(ss, ov, rm, label, (k + m - 1) as nat),
        ));
    }
}

/// Once the search ended at step `k`, its outcome is that of step `k`.
proof fn lemma_reach_outcome(
    ss: Seq<StatementV>,
    ov: Seq<(Seq<char>, Seq<DataValueV>)>,
    rm: Map<Seq<char>, Seq<char>>,
    label: Seq<char>,
    k: nat,
)
    requires
        reach_done(reach_run(ss, ov, rm, label, k)),
    ensures
        reach_ok(ss, ov, rm, label) == !reach_run(ss, ov, rm, label, k).2,
        reach_result(ss, ov, rm, label) == reach_run(ss, ov, rm, label, k).1,
{
    let n = choose|n: nat| reach_done(#[trigger] reach_run(ss, ov, rm, label, n));
    assert(reach_done(reach_run(ss, ov, rm, label, n)));
    if n >= k {
        lemma_reach_stays(ss, ov, rm, label, k, (n - k) as nat);
    } else {
        lemma_reach_stays(ss, ov, rm, label, n, (k - n) as nat);
    }
    if reach_ok(ss, ov, rm, label) {
        let j = choose|j: nat| reach_done(#[trigger] reach_run(ss, ov, rm, label, j)) && !reach_run(ss, ov, rm, label, j).2;
        if j >= k {
            lemma_reach_stays(ss, ov, rm, label, k, (j - k) as nat);
        } else {
            lemma_reach_stays(ss, ov, rm, label, j, (k - j) as nat);
        }
    }
    if !reach_run(ss, ov, rm, label, k).2 {
        assert(reach_ok(ss, ov, rm, label));
    }
}


// ---------------------------------------------------------------------------
// Executable pieces of the search
// ---------------------------------------------------------------------------
/// Whether the list of names holds `s`.
fn contains_name(v: &Vec<String>, s: &str) -> (r: bool)
    ensures
        r == string_views(v@).contains(s@),
{
    for i in 0..v.len()
        invariant
            forall|j: int| 0 <= j < i ==> string_views(v@)[j] != s@,
    {
        if str_eq(v[i].as_str(), s) {
            assert(string_views(v@)[i as int] == s@);
            return true;
        }
    }
    false
}

/// The position of the entry called `name`, if there is one.
fn find_name<V>(objects: &Vec<(String, V)>, name: &str) -> (r: Option<usize>)
    ensures
        match r {
            Some(i) => i < objects@.len() && names_of(objects@)[i as int] == name@,
            None => !names_of(objects@).contains(name@),
        },
{
    for i in 0..objects.len()
        invariant
            forall|j: int| 0 <= j < i ==> names_of(objects@)[j] != name@,
    {
        if str_eq(objects[i].0.as_str(), name) {
            assert(names_of(objects@)[i as int] == name@);
            return Some(i);
        }
    }
    None
}

/// Whether an instruction name is one of the known ones.
fn is_known_instruction(n: &str) -> (r: bool)
    ensures
        r == (is_jump_name(n@) || is_plain_name(n@)),
{
    str_eq(n, "j") || str_eq(n, "jr") || str_eq(n, "tail") || str_eq(n, "ret") || str_eq(n, "unimp")
        || str_eq(n, "li") || str_eq(n, "lui") || str_eq(n, "la") || str_eq(n, "mv") || str_eq(
        n,
        "add",
    ) || str_eq(n, "addi") || str_eq(n, "sub") || str_eq(n, "neg") || str_eq(n, "mul") || str_eq(
        n,
        "mulhu",
    ) || str_eq(n, "xor") || str_eq(n, "xori") || str_eq(n, "and") || str_eq(n, "andi") || str_eq(
        n,
        "or",
    ) || str_eq(n, "ori") || str_eq(n, "not") || str_eq(n, "slli") || str_eq(n, "sll") || str_eq(
        n,
        "srli",
    ) || str_eq(n, "srl") || str_eq(n, "srai") || str_eq(n, "seqz") || str_eq(n, "snez")
        || str_eq(n, "slt") || str_eq(n, "slti") || str_eq(n, "sltu") || str_eq(n, "sltiu")
        || str_eq(n, "sgtz") || str_eq(n, "beq") || str_eq(n, "beqz") || str_eq(n, "bgeu")
        || str_eq(n, "bltu") || str_eq(n, "blt") || str_eq(n, "bge") || str_eq(n, "bltz")
        || str_eq(n, "blez") || str_eq(n, "bgtz") || str_eq(n, "bgez") || str_eq(n, "bne")
        || str_eq(n, "bnez") || str_eq(n, "jal") || str_eq(n, "jalr") || str_eq(n, "call")
        || str_eq(n, "ecall") || str_eq(n, "ebreak") || str_eq(n, "lw") || str_eq(n, "lb")
        || str_eq(n, "lbu") || str_eq(n, "sw") || str_eq(n, "sh") || str_eq(n, "sb") || str_eq(
        n,
        "nop",
    )
}

/// Whether some argument is a difference of symbols.
fn has_difference_arg(args: &Vec<Argument>) -> (r: bool)
    ensures
        r == exists|j: int| 0 <= j < args@.len() && #[trigger] args_view(args@)[j] is Difference,
{
    for j in 0..args.len()
        invariant
            forall|k: int| 0 <= k < j ==> !(#[trigger] args_view(args@)[k] is Difference),
    {
        match &args[j] {
            Argument::Difference(_, _) => {
                assert(args_view(args@)[j as int] is Difference);
                return true;
            },
            _ => {},
        }
    }
    false
}

/// Whether a statement cannot be scanned as part of a basic block.
fn is_bad_statement(s: &Statement) -> (r: bool)
    ensures
        r == is_bad_in_block(s@),
{
    match s {
        Statement::Instruction(name, args) => !is_known_instruction(name.as_str())
            || has_difference_arg(args),
        _ => false,
    }
}

proof fn lemma_block_last_ge(ss: Seq<StatementV>, off: int, k: int)
    requires
        0 <= off <= k < ss.len(),
        forall|j: int| off <= j < k ==> !ends_flow(#[trigger] ss[j]),
    ensures
        k <= block_last(ss, off),
    decreases k - off,
{
    if off < k {
        lemma_block_last_ge(ss, off + 1, k);
    } else {
        lemma_block_last_from(ss, off);
    }
}

proof fn lemma_block_last_from(ss: Seq<StatementV>, off: int)
    ensures
        off <= block_last(ss, off),
    decreases ss.len() - off,
{
    if !(off + 1 >= ss.len() || ends_flow(ss[off])) {
        lemma_block_last_from(ss, off + 1);
    }
}

proof fn lemma_block_last(ss: Seq<StatementV>, off: int, t: int)
    requires
        0 <= off <= t < ss.len(),
        forall|j: int| off <= j < t ==> !ends_flow(#[trigger] ss[j]),
        ends_flow(ss[t]) || t == ss.len() - 1,
    ensures
        block_last(ss, off) == t,
    decreases t - off,
{
    if off < t {
        lemma_block_last(ss, off + 1, t);
    }
}

/// Adds each name of `src` to the strictly ascending `dst`.
fn insert_all(dst: &mut Vec<String>, src: &Vec<String>)
    requires
        strictly_sorted(string_views(old(dst)@)),
    ensures
        strictly_sorted(string_views(final(dst)@)),
        string_views(final(dst)@).to_set() == string_views(old(dst)@).to_set().union(
            string_views(src@).to_set(),
        ),
{
    for i in 0..src.len()
        invariant
            strictly_sorted(string_views(dst@)),
            string_views(dst@).to_set() == string_views(old(dst)@).to_set().union(
                string_views(src@.subrange(0, i as int)).to_set(),
            ),
    {
        insert_sorted(dst, src[i].clone());
        proof {
            assert(string_views(src@.subrange(0, i + 1)) =~= string_views(src@.subrange(0, i as int)).push(src@[i as int]@));
            lemma_push_to_set(string_views(src@.subrange(0, i as int)), src@[i as int]@);
            assert(string_views(dst@).to_set() =~= string_views(old(dst)@).to_set().union(
                string_views(src@.subrange(0, i + 1)).to_set()));
        }
    }
    proof {
        assert(src@.subrange(0, src@.len() as int) =~= src@);
    }
}

/// The names referred to and the labels seen in the basic block at `off`, or
/// `None` when one of its statements cannot be scanned.
fn basic_block_references_starting_from(statements: &Vec<Statement>, off: usize) -> (r: Option<(Vec<String>, Vec<String>)>)
    requires
        off < statements@.len(),
    ensures
        match r {
            None => !block_ok(stmts_view(statements@), off as int),
            Some((refs, labels)) => {
                &&& block_ok(stmts_view(statements@), off as int)
                &&& strictly_sorted(string_views(refs@))
                &&& strictly_sorted(string_views(labels@))
                &&& string_views(refs@).to_set() == block_refs(stmts_view(statements@), off as int)
                &&& string_views(labels@).to_set() == block_labels(stmts_view(statements@), off as int)
            },
        },
{
    let ghost ss = stmts_view(statements@);
    let mut refs: Vec<String> = Vec::new();
    let mut labels: Vec<String> = Vec::new();
    let mut k: usize = off;
    let mut finished = false;
    while !finished && k < statements.len()
        invariant
            ss == stmts_view(statements@),
            off <= k <= statements@.len(),
            finished ==> k > off && ends_flow(ss[k - 1]),
            forall|j: int| off <= j < k ==> !is_bad_in_block(#[trigger] ss[j]),
            forall|j: int| off <= j < k && !(finished && j == k - 1) ==> !ends_flow(#[trigger] ss[j]),
            strictly_sorted(string_views(refs@)),
            strictly_sorted(string_views(labels@)),
            forall|n: Seq<char>|
                string_views(refs@).to_set().contains(n) <==> exists|j: int|
                    off <= j < k && #[trigger] refers_to(ss[j], n),
            forall|n: Seq<char>|
                string_views(labels@).to_set().contains(n) <==> exists|j: int|
                    off <= j < k && #[trigger] ss[j] == StatementV::Label(n),
        decreases statements@.len() - k,
    {
        let st = &statements[k];
        if is_bad_statement(st) {
            proof {
                assert(forall|j: int| off <= j < k ==> !ends_flow(#[trigger] ss[j]));
                lemma_block_last_ge(ss, off as int, k as int);
                assert(ss[k as int] == st@);
            }
            return None;
        }
        let ghost refs_before = string_views(refs@).to_set();
        let ghost labels_before = string_views(labels@).to_set();
        match st {
            Statement::Label(l) => {
                insert_sorted(&mut labels, l.clone());
                proof {
                    assert(ss[k as int] == StatementV::Label(l@));
                    assert forall|n: Seq<char>| string_views(refs@).to_set().contains(n) <==> exists|j: int|
                        off <= j < k + 1 && #[trigger] refers_to(ss[j], n) by {
                        if exists|j: int| off <= j < k + 1 && #[trigger] refers_to(ss[j], n) {
                            let j = choose|j: int| off <= j < k + 1 && #[trigger] refers_to(ss[j], n);
                            assert(j < k);
                        }
                    }
                    assert forall|n: Seq<char>| string_views(labels@).to_set().contains(n) <==> exists|j: int|
                        off <= j < k + 1 && #[trigger] ss[j] == StatementV::Label(n) by {
                        if string_views(labels@).to_set().contains(n) && n != l@ {
                            assert(labels_before.contains(n));
                        }
                        if n == l@ {
                            assert(ss[k as int] == StatementV::Label(n));
                        }
                    }
                }
            },
            Statement::Instruction(_, _) => {
                let found = references_in_statement(st);
                insert_all(&mut refs, &found);
                proof {
                    assert(ss[k as int] == st@);
                    assert forall|n: Seq<char>| string_views(refs@).to_set().contains(n) <==> exists|j: int|
                        off <= j < k + 1 && #[trigger] refers_to(ss[j], n) by {
                        if string_views(found@).to_set().contains(n) {
                            assert(stmt_refs(st@).contains(n));
                            assert(refers_to(ss[k as int], n));
                        }
                        if exists|j: int| off <= j < k + 1 && #[trigger] refers_to(ss[j], n) {
                            let j = choose|j: int| off <= j < k + 1 && #[trigger] refers_to(ss[j], n);
                            if j == k {
                                assert(stmt_refs(st@).contains(n));
                            }
                        }
                    }
                    assert forall|n: Seq<char>| string_views(labels@).to_set().contains(n) <==> exists|j: int|
                        off <= j < k + 1 && #[trigger] ss[j] == StatementV::Label(n) by {
                        if exists|j: int| off <= j < k + 1 && #[trigger] ss[j] == StatementV::Label(n) {
                            let j = choose|j: int| off <= j < k + 1 && #[trigger] ss[j] == StatementV::Label(n);
                            assert(j < k);
                        }
                    }
                }
            },
            Statement::Directive(_, _) => {
                proof {
                    assert(ss[k as int] == st@);
                    assert forall|n: Seq<char>| string_views(refs@).to_set().contains(n) <==> exists|j: int|
                        off <= j < k + 1 && #[trigger] refers_to(ss[j], n) by {
                        if exists|j: int| off <= j < k + 1 && #[trigger] refers_to(ss[j], n) {
                            let j = choose|j: int| off <= j < k + 1 && #[trigger] refers_to(ss[j], n);
                            assert(j < k);
                        }
                    }
                    assert forall|n: Seq<char>| string_views(labels@).to_set().contains(n) <==> exists|j: int|
                        off <= j < k + 1 && #[trigger] ss[j] == StatementV::Label(n) by {
                        if exists|j: int| off <= j < k + 1 && #[trigger] ss[j] == StatementV::Label(n) {
                            let j = choose|j: int| off <= j < k + 1 && #[trigger] ss[j] == StatementV::Label(n);
                            assert(j < k);
                        }
                    }
                }
            },
        }
        if ends_control_flow(st) {
            finished = true;
        }
        k = k + 1;
    }
    proof {
        let t = (k - 1) as int;
        assert(forall|j: int| off <= j < t ==> !ends_flow(#[trigger] ss[j]));
        lemma_block_last(ss, off as int, t);
        assert forall|j: int| off <= j <= block_last(ss, off as int) implies !is_bad_in_block(#[trigger] ss[j]) by {}
        assert(string_views(refs@).to_set() =~= block_refs(ss, off as int));
        assert(string_views(labels@).to_set() =~= block_labels(ss, off as int));
    }
    Some((refs, labels))
}


/// The names that can be marked visited: labels and data objects.
pub open spec fn known_names(
    offsets: Seq<(String, usize)>,
    objects: Seq<(String, Vec<DataValue>)>,
) -> Set<Seq<char>> {
    names_of(offsets).to_set().union(names_of(objects).to_set())
}

proof fn lemma_sorted_min(q: Seq<Seq<char>>)
    requires
        strictly_sorted(q),
        q.len() > 0,
    ensures
        set_min(q.to_set()) == q[0],
        q.drop_first().to_set() == q.to_set().remove(q[0]),
        strictly_sorted(q.drop_first()),
{
    let qs = q.to_set();
    assert(qs.contains(q[0]));
    assert forall|y: Seq<char>| qs.contains(y) && y != q[0] implies seq_lt(q[0], y) by {
        let j = choose|j: int| 0 <= j < q.len() && q[j] == y;
    }
    let x = set_min(qs);
    assert(qs.contains(x) && forall|y: Seq<char>| qs.contains(y) && y != x ==> seq_lt(x, y));
    if x != q[0] {
        lemma_seq_lt_order(x, q[0]);
    }
    assert forall|y: Seq<char>| q.drop_first().to_set().contains(y) <==> qs.remove(q[0]).contains(y) by {
        if q.drop_first().to_set().contains(y) {
            let j = choose|j: int| 0 <= j < q.drop_first().len() && q.drop_first()[j] == y;
            assert(q[j + 1] == y);
            lemma_seq_lt_order(q[0], q[0]);
        }
        if qs.remove(q[0]).contains(y) {
            let j = choose|j: int| 0 <= j < q.len() && q[j] == y;
            assert(j > 0);
            assert(q.drop_first()[j - 1] == y);
        }
    }
    assert(q.drop_first().to_set() =~= qs.remove(q[0]));
}

proof fn lemma_diff_shrinks(k: Set<Seq<char>>, d: Set<Seq<char>>, d2: Set<Seq<char>>, l: Seq<char>)
    requires
        k.finite(),
        d.subset_of(d2),
        k.contains(l),
        !d.contains(l),
        d2.contains(l),
    ensures
        k.difference(d2).len() < k.difference(d).len(),
{
    let a = k.difference(d);
    let b = k.difference(d2);
    assert(a.finite()) by {
        assert(a.subset_of(k));
        vstd::set_lib::lemma_len_subset(a, k);
    }
    assert(b.subset_of(a.remove(l)));
    vstd::set_lib::lemma_len_subset(b, a.remove(l));
    assert(a.contains(l));
}

/// The search from `label`: the names visited, in ascending order, or `None` when
/// the search reaches an unknown name or a basic block that cannot be scanned.
fn search(
    label: &str,
    statements: &Vec<Statement>,
    offsets: &Vec<(String, usize)>,
    objects: &Vec<(String, Vec<DataValue>)>,
    replacements: &Vec<(String, String)>,
) -> (r: Option<Vec<String>>)
    requires
        labels_distinct(stmts_view(statements@)),
        is_label_offsets(stmts_view(statements@), offsets@),
        object_names_distinct(objects_view(objects@)),
        names_of(replacements@).no_duplicates(),
    ensures
        r is Some <==> reach_ok(
            stmts_view(statements@),
            objects_view(objects@),
            pairs_map(replacements@),
            label@,
        ),
        r matches Some(v) ==> strictly_sorted(string_views(v@)) && string_views(v@).to_set()
            == reach_result(
            stmts_view(statements@),
            objects_view(objects@),
            pairs_map(replacements@),
            label@,
        ),
{
    let ghost ss = stmts_view(statements@);
    let ghost ov = objects_view(objects@);
    let ghost rm = pairs_map(replacements@);
    let ghost kn = known_names(offsets@, objects@);
    let mut queue: Vec<String> = Vec::new();
    let mut done: Vec<String> = Vec::new();
    insert_sorted(&mut queue, String::from_str(label));
    let ghost mut steps: nat = 0;
    proof {
        assert(string_views(done@).to_set() =~= Set::empty());
        assert(string_views(queue@).to_set() =~= set![label@]);
    }
    while queue.len() > 0
        invariant
            ss == stmts_view(statements@),
            ov == objects_view(objects@),
            rm == pairs_map(replacements@),
            kn == known_names(offsets@, objects@),
            kn.finite(),
            labels_distinct(ss),
            is_label_offsets(ss, offsets@),
            object_names_distinct(ov),
            names_of(replacements@).no_duplicates(),
            strictly_sorted(string_views(queue@)),
            strictly_sorted(string_views(done@)),
            reach_run(ss, ov, rm, label@, steps) == (
                string_views(queue@).to_set(),
                string_views(done@).to_set(),
                false,
            ),
            string_views(done@).to_set().subset_of(kn),
        decreases kn.difference(string_views(done@).to_set()).len(), queue@.len(),
    {
        let ghost qv = string_views(queue@);
        let ghost d = string_views(done@).to_set();
        let ghost st = reach_run(ss, ov, rm, label@, steps);
        proof {
            lemma_sorted_min(qv);
            assert(qv.to_set().contains(qv[0]));
            assert(!reach_done(st));
        }
        let l0 = queue.remove(0);
        let ghost rest = qv.to_set().remove(l0@);
        proof {
            assert(string_views(queue@) =~= qv.drop_first());
            assert(l0@ == qv[0]);
        }
        let l = replace(replacements, &l0);
        if contains_name(&done, l.as_str()) {
            proof {
                assert(reach_step(ss, ov, rm, st) == (rest, d, false)) by {
                    reveal(reach_step);
                }
                steps = steps + 1;
            }
            continue;
        }
        match find_name(objects, l.as_str()) {
            Some(i) => {
                let ghost vals = values_view(objects@[i as int].1@);
                proof {
                    assert(ov[i as int].0 == l@);
                    assert(exists|j: int| 0 <= j < ov.len() && ov[j].0 == l@);
                    let j = choose|j: int| 0 <= j < ov.len() && ov[j].0 == l@;
                    if j != i {
                        if j < i {
                            assert(ov[j].0 != ov[i as int].0);
                        } else {
                            assert(ov[i as int].0 != ov[j].0);
                        }
                    }
                    assert(object_of(ov, l@) == Some(vals));
                    assert(kn.contains(l@)) by {
                        assert(names_of(objects@)[i as int] == l@);
                    }
                }
                insert_sorted(&mut done, l);
                let ghost d2 = string_views(done@).to_set();
                let vs = &objects[i].1;
                for j in 0..vs.len()
                    invariant
                        vals == values_view(vs@),
                        d2 == string_views(done@).to_set(),
                        strictly_sorted(string_views(queue@)),
                        forall|n: Seq<char>|
                            string_views(queue@).to_set().contains(n) <==> (rest.contains(n) || (
                            !d2.contains(n) && exists|jj: int|
                                0 <= jj < j && #[trigger] vals[jj] == DataValueV::Reference(n))),
                {
                    let ghost before = string_views(queue@).to_set();
                    match &vs[j] {
                        DataValue::Reference(sym) => {
                            if !contains_name(&done, sym.as_str()) {
                                insert_sorted(&mut queue, sym.clone());
                            }
                            proof {
                                assert(vals[j as int] == DataValueV::Reference(sym@));
                            }
                        },
                        _ => {
                            proof {
                                assert(!(vals[j as int] is Reference));
                            }
                        },
                    }
                    proof {
                        assert forall|n: Seq<char>|
                            string_views(queue@).to_set().contains(n) <==> (rest.contains(n) || (
                            !d2.contains(n) && exists|jj: int|
                                0 <= jj < j + 1 && #[trigger] vals[jj] == DataValueV::Reference(n))) by {
                            if exists|jj: int| 0 <= jj < j + 1 && #[trigger] vals[jj] == DataValueV::Reference(n) {
                                let jj = choose|jj: int| 0 <= jj < j + 1 && #[trigger] vals[jj] == DataValueV::Reference(n);
                                if jj < j {
                                    assert(exists|k: int| 0 <= k < j && #[trigger] vals[k] == DataValueV::Reference(n));
                                }
                            }
                            if string_views(queue@).to_set().contains(n) && !before.contains(n) {
                                assert(vals[j as int] == DataValueV::Reference(n));
                            }
                        }
                    }
                }
                proof {
                    assert(string_views(queue@).to_set() =~= rest.union(value_refs(vals).difference(d.insert(l@))));
                    assert(d2 =~= d.insert(l@));
                    assert(reach_step(ss, ov, rm, st) == (rest.union(value_refs(vals).difference(d.insert(l@))), d.insert(l@), false)) by {
                        reveal(reach_step);
                    }
                    lemma_diff_shrinks(kn, d, d2, l@);
                    steps = steps + 1;
                }
            },
            None => {
                proof {
                    assert(object_of(ov, l@) is None) by {
                        if exists|j: int| 0 <= j < ov.len() && ov[j].0 == l@ {
                            let j = choose|j: int| 0 <= j < ov.len() && ov[j].0 == l@;
                            assert(names_of(objects@)[j] == l@);
                        }
                    }
                }
                match find_offset(offsets, l.as_str()) {
                    Some(off) => {
                        proof {
                            let e = choose|e: int| 0 <= e < offsets@.len() && offsets@[e].0@ == l@ && offsets@[e].1 == off;
                            assert(ss[off as int] == StatementV::Label(l@));
                            assert(exists|k: int| 0 <= k < ss.len() && ss[k] == StatementV::Label(l@));
                            let k = choose|k: int| 0 <= k < ss.len() && ss[k] == StatementV::Label(l@);
                            if k != off {
                                if k < off {
                                    assert(ss[k] is Label && ss[off as int] is Label);
                                } else {
                                    assert(ss[off as int] is Label && ss[k] is Label);
                                }
                            }
                            assert(label_pos(ss, l@) == Some(off as int));
                            assert(kn.contains(l@)) by {
                                assert(names_of(offsets@)[e] == l@);
                            }
                        }
                        match basic_block_references_starting_from(statements, off) {
                            None => {
                                proof {
                                    assert(reach_step(ss, ov, rm, st) == (rest, d, true)) by {
                                        reveal(reach_step);
                                    }
                                    lemma_reach_outcome(ss, ov, rm, label@, steps + 1);
                                }
                                return None;
                            },
                            Some((brefs, blabels)) => {
                                insert_sorted(&mut done, l);
                                insert_all(&mut done, &blabels);
                                let ghost d2 = string_views(done@).to_set();
                                proof {
                                    assert(d2 =~= d.insert(l@).union(block_labels(ss, off as int)));
                                    assert forall|n: Seq<char>| d2.contains(n) implies kn.contains(n) by {
                                        if block_labels(ss, off as int).contains(n) && n != l@ && !d.contains(n) {
                                            let k = choose|k: int| off <= k <= block_last(ss, off as int) && ss[k] == StatementV::Label(n);
                                            lemma_block_last_in(ss, off as int);
                                            assert(ss[k] is Label);
                                            let e = choose|e: int| 0 <= e < offsets@.len() && #[trigger] offsets@[e].1 == k;
                                            assert(ss[offsets@[e].1 as int] == StatementV::Label(offsets@[e].0@));
                                            assert(names_of(offsets@)[e] == n);
                                        }
                                    }
                                }
                                for j in 0..brefs.len()
                                    invariant
                                        d2 == string_views(done@).to_set(),
                                        strictly_sorted(string_views(queue@)),
                                        forall|n: Seq<char>|
                                            string_views(queue@).to_set().contains(n) <==> (rest.contains(n) || (
                                            !d2.contains(n) && exists|jj: int|
                                                0 <= jj < j && #[trigger] string_views(brefs@)[jj] == n)),
                                {
                                    let ghost before = string_views(queue@).to_set();
                                    if !contains_name(&done, brefs[j].as_str()) {
                                        insert_sorted(&mut queue, brefs[j].clone());
                                    }
                                    proof {
                                        assert(string_views(brefs@)[j as int] == brefs@[j as int]@);
                                        assert forall|n: Seq<char>|
                                            string_views(queue@).to_set().contains(n) <==> (rest.contains(n) || (
                                            !d2.contains(n) && exists|jj: int|
                                                0 <= jj < j + 1 && #[trigger] string_views(brefs@)[jj] == n)) by {
                                            if exists|jj: int| 0 <= jj < j + 1 && #[trigger] string_views(brefs@)[jj] == n {
                                                let jj = choose|jj: int| 0 <= jj < j + 1 && #[trigger] string_views(brefs@)[jj] == n;
                                                if jj < j {
                                                    assert(exists|k: int| 0 <= k < j && #[trigger] string_views(brefs@)[k] == n);
                                                }
                                            }
                                        }
                                    }
                                }
                                proof {
                                    assert(string_views(queue@).to_set() =~= rest.union(block_refs(ss, off as int).difference(d2)));
                                    assert(reach_step(ss, ov, rm, st) == (rest.union(block_refs(ss, off as int).difference(d2)), d2, false)) by {
                                        reveal(reach_step);
                                    }
                                    lemma_diff_shrinks(kn, d, d2, l@);
                                    steps = steps + 1;
                                }
                            },
                        }
                    },
                    None => {
                        proof {
                            assert(label_pos(ss, l@) is None) by {
                                if exists|k: int| 0 <= k < ss.len() && ss[k] == StatementV::Label(l@) {
                                    let k = choose|k: int| 0 <= k < ss.len() && ss[k] == StatementV::Label(l@);
                                    assert(ss[k] is Label);
                                    let e = choose|e: int| 0 <= e < offsets@.len() && #[trigger] offsets@[e].1 == k;
                                    assert(ss[offsets@[e].1 as int] == StatementV::Label(offsets@[e].0@));
                                }
                            }
                            assert(reach_step(ss, ov, rm, st) == (rest, d, true)) by {
                                reveal(reach_step);
                            }
                            lemma_reach_outcome(ss, ov, rm, label@, steps + 1);
                        }
                        return None;
                    },
                }
            },
        }
    }
    proof {
        assert(string_views(queue@).to_set().is_empty()) by {
            assert(string_views(queue@).to_set() =~= Set::empty());
        }
        lemma_reach_outcome(ss, ov, rm, label@, steps);
    }
    Some(done)
}

proof fn lemma_block_last_in(ss: Seq<StatementV>, off: int)
    requires
        0 <= off < ss.len(),
    ensures
        off <= block_last(ss, off) < ss.len(),
    decreases ss.len() - off,
{
    if !(off + 1 >= ss.len() || ends_flow(ss[off])) {
        lemma_block_last_in(ss, off + 1);
    }
}


// ---------------------------------------------------------------------------
// `.set` directives
// ---------------------------------------------------------------------------
/// Whether the statement is a `.set` directive.
pub open spec fn is_set_directive(s: StatementV) -> bool {
    s matches StatementV::Directive(d, _) && d == ".set"@
}

/// The two names of a `.set` directive whose arguments are two symbols.
pub open spec fn set_pair(s: StatementV) -> Option<(Seq<char>, Seq<char>)> {
    match s {
        StatementV::Directive(d, args) => if d == ".set"@ && args.len() == 2 && args[0] is Symbol
            && args[1] is Symbol {
            Some((args[0]->Symbol_0, args[1]->Symbol_0))
        } else {
            None
        },
        _ => None,
    }
}

/// The pairs of names of the `.set` directives, in order.
pub open spec fn set_pairs(ss: Seq<StatementV>) -> Seq<(Seq<char>, Seq<char>)>
    decreases ss.len(),
{
    if ss.len() == 0 {
        seq![]
    } else {
        set_pairs(ss.drop_last()) + match set_pair(ss.last()) {
            Some(p) => seq![p],
            None => seq![],
        }
    }
}

/// The name reached from `x` by following the map at most `n` times.
pub open spec fn chain(m: Map<Seq<char>, Seq<char>>, x: Seq<char>, n: nat) -> Seq<char>
    decreases n,
{
    if n == 0 || !m.contains_key(x) {
        x
    } else {
        chain(m, m[x], (n - 1) as nat)
    }
}

/// Each `.set` directive has two symbols as arguments, no name is set twice, and
/// following the directives from any name leaves them (there is no cycle).
pub open spec fn replacements_ok(ss: Seq<StatementV>) -> bool {
    let ps = set_pairs(ss);
    let m = view_map(ps);
    &&& forall|i: int| 0 <= i < ss.len() && is_set_directive(#[trigger] ss[i]) ==> set_pair(ss[i]) is Some
    &&& firsts(ps).no_duplicates()
    &&& forall|x: Seq<char>| #[trigger] m.contains_key(x) ==> !m.contains_key(chain(m, x, ps.len()))
}

/// Each name set by a `.set` directive, mapped to the name at the end of its chain
/// of directives.
pub open spec fn statement_replacements(ss: Seq<StatementV>) -> Map<Seq<char>, Seq<char>> {
    let ps = set_pairs(ss);
    let m = view_map(ps);
    Map::new(|k: Seq<char>| m.contains_key(k), |k: Seq<char>| chain(m, k, ps.len()))
}

proof fn lemma_chain_succ(m: Map<Seq<char>, Seq<char>>, x: Seq<char>, s: nat)
    ensures
        m.contains_key(chain(m, x, s)) ==> chain(m, x, s + 1) == m[chain(m, x, s)],
        !m.contains_key(chain(m, x, s)) ==> chain(m, x, s + 1) == chain(m, x, s),
    decreases s,
{
    if s > 0 && m.contains_key(x) {
        lemma_chain_succ(m, m[x], (s - 1) as nat);
        assert(chain(m, x, s + 1) == chain(m, m[x], s));
    } else if m.contains_key(x) {
        assert(chain(m, m[x], 0) == m[x]);
    }
}

proof fn lemma_chain_stable(m: Map<Seq<char>, Seq<char>>, x: Seq<char>, s: nat, t: nat)
    requires
        !m.contains_key(chain(m, x, s)),
    ensures
        chain(m, x, s + t) == chain(m, x, s),
    decreases t,
{
    if t > 0 {
        lemma_chain_stable(m, x, s, (t - 1) as nat);
        lemma_chain_succ(m, x, (s + t - 1) as nat);
    }
}

/// The replacements given by the `.set` directives, or `None` when a directive has
/// other arguments than two symbols, sets a name twice, or the directives form a
/// cycle.
fn collect_replacements(statements: &Vec<Statement>) -> (r: Option<Vec<(String, String)>>)
    ensures
        r is Some <==> replacements_ok(stmts_view(statements@)),
        r matches Some(v) ==> names_of(v@).no_duplicates() && pairs_map(v@) == statement_replacements(
            stmts_view(statements@),
        ),
{
    let ghost ss = stmts_view(statements@);
    let mut direct: Vec<(String, String)> = Vec::new();
    for i in 0..statements.len()
        invariant
            ss == stmts_view(statements@),
            pair_views(direct@) == set_pairs(ss.subrange(0, i as int)),
            names_of(direct@).no_duplicates(),
            forall|k: int| 0 <= k < i && is_set_directive(#[trigger] ss[k]) ==> set_pair(ss[k]) is Some,
    {
        proof {
            assert(ss.subrange(0, i + 1).drop_last() =~= ss.subrange(0, i as int));
            assert(ss[i as int] == statements@[i as int]@);
        }
        match &statements[i] {
            Statement::Directive(d, args) => {
                if str_eq(d.as_str(), ".set") {
                    if args.len() != 2 {
                        proof {
                            assert(is_set_directive(ss[i as int]));
                        }
                        return None;
                    }
                    match (&args[0], &args[1]) {
                        (Argument::Symbol(from), Argument::Symbol(to)) => {
                            proof {
                                assert(args_view(args@)[0] == ArgumentV::Symbol(from@));
                                assert(args_view(args@)[1] == ArgumentV::Symbol(to@));
                                assert(set_pair(ss[i as int]) == Some((from@, to@)));
                            }
                            if find_name(&direct, from.as_str()).is_some() {
                                proof {
                                    let ps = set_pairs(ss);
                                    assert(ss.subrange(0, i + 1).last() == ss[i as int]);
                                    assert(set_pairs(ss.subrange(0, i + 1)) == pair_views(direct@) + seq![(from@, to@)]);
                                    lemma_set_pairs_prefix(ss, i as int + 1);
                                    assert(set_pairs(ss.subrange(0, i + 1))[direct@.len() as int] == (from@, to@));
                                    let e = choose|e: int| 0 <= e < direct@.len() && names_of(direct@)[e] == from@;
                                    assert(set_pairs(ss.subrange(0, i + 1))[e] == pair_views(direct@)[e]);
                                    assert(firsts(ps)[e] == from@) by {
                                        assert(ps[e] == pair_views(direct@)[e]);
                                    }
                                    assert(firsts(ps)[direct@.len() as int] == from@) by {
                                        assert(ps[direct@.len() as int] == (from@, to@));
                                    }
                                }
                                return None;
                            }
                            let ghost before = direct@;
                            direct.push((from.clone(), to.clone()));
                            proof {
                                assert(pair_views(direct@) =~= pair_views(before).push((from@, to@)));
                                assert(names_of(direct@) =~= names_of(before).push(from@));
                                assert forall|a: int, b: int|
                                    0 <= a < names_of(direct@).len() && 0 <= b < names_of(direct@).len() && a != b
                                    implies names_of(direct@)[a] != names_of(direct@)[b] by {
                                    if a == before.len() {
                                        assert(names_of(before)[b] != from@);
                                    } else if b == before.len() {
                                        assert(names_of(before)[a] != from@);
                                    }
                                }
                            }
                        },
                        _ => {
                            proof {
                                assert(is_set_directive(ss[i as int]));
                                assert(!(args_view(args@)[0] is Symbol && args_view(args@)[1] is Symbol));
                            }
                            return None;
                        },
                    }
                } else {
                    proof {
                        assert(set_pair(ss[i as int]) is None);
                    }
                }
            },
            _ => {},
        }
    }
    proof {
        assert(ss.subrange(0, ss.len() as int) =~= ss);
    }
    let ghost ps = set_pairs(ss);
    let ghost m = view_map(ps);
    proof {
        assert(firsts(ps) =~= names_of(direct@));
        lemma_view_map(ps);
        lemma_pairs_map(direct@);
    }
    let n = direct.len();
    let mut out: Vec<(String, String)> = Vec::new();
    for i in 0..n
        invariant
            ss == stmts_view(statements@),
            ps == set_pairs(ss),
            n == direct@.len(),
            n == ps.len(),
            ps == pair_views(direct@),
            m == view_map(ps),
            m == pairs_map(direct@),
            names_of(direct@).no_duplicates(),
            firsts(ps) == names_of(direct@),
            forall|e: int|
                0 <= e < ps.len() ==> m.contains_key(#[trigger] firsts(ps)[e]) && m[firsts(ps)[e]] == ps[e].1,
            forall|k: Seq<char>| #[trigger] m.contains_key(k) ==> firsts(ps).contains(k),
            names_of(out@) == names_of(direct@).subrange(0, i as int),
            forall|j: int| 0 <= j < i ==> #[trigger] out@[j].1@ == chain(m, names_of(direct@)[j], n as nat),
            forall|j: int| 0 <= j < i ==> !m.contains_key(chain(m, #[trigger] names_of(direct@)[j], n as nat)),
    {
        let ghost x = names_of(direct@)[i as int];
        let mut cur = direct[i].1.clone();
        let mut steps: usize = 1;
        proof {
            assert(firsts(ps)[i as int] == x);
            assert(m.contains_key(x));
            assert(ps[i as int].1 == direct@[i as int].1@);
            assert(chain(m, x, 1) == chain(m, m[x], 0));
        }
        while steps < n && find_name(&direct, cur.as_str()).is_some()
            invariant
                1 <= steps <= n,
                n == direct@.len(),
                m == pairs_map(direct@),
                names_of(direct@).no_duplicates(),
                forall|k: Seq<char>| #[trigger] m.contains_key(k) ==> names_of(direct@).contains(k),
                cur@ == chain(m, x, steps as nat),
            decreases n - steps,
        {
            proof {
                lemma_pairs_map(direct@);
                let e = choose|e: int| 0 <= e < direct@.len() && names_of(direct@)[e] == cur@;
                assert(m.contains_key(cur@));
                lemma_chain_succ(m, x, steps as nat);
            }
            cur = replace(&direct, &cur);
            steps = steps + 1;
        }
        if find_name(&direct, cur.as_str()).is_some() {
            proof {
                let e = choose|e: int| 0 <= e < direct@.len() && names_of(direct@)[e] == cur@;
                lemma_pairs_map(direct@);
                assert(m.contains_key(cur@));
                assert(steps == n);
                assert(m.contains_key(x) && m.contains_key(chain(m, x, ps.len())));
                assert(view_map(set_pairs(ss)).contains_key(x));
                assert(view_map(set_pairs(ss)).contains_key(chain(view_map(set_pairs(ss)), x, set_pairs(ss).len())));
                assert(!replacements_ok(ss));
            }
            return None;
        }
        proof {
            assert(!m.contains_key(cur@));
            lemma_chain_stable(m, x, steps as nat, (n - steps) as nat);
        }
        let ghost before = out@;
        out.push((direct[i].0.clone(), cur));
        proof {
            assert(names_of(out@) =~= names_of(before).push(x));
            assert(names_of(direct@).subrange(0, i + 1) =~= names_of(direct@).subrange(0, i as int).push(x));
            assert forall|j: int| 0 <= j < i + 1 implies #[trigger] out@[j].1@ == chain(m, names_of(direct@)[j], n as nat) by {
                if j < i {
                    assert(out@[j] == before[j]);
                }
            }
        }
    }
    proof {
        assert(names_of(out@) =~= names_of(direct@));
        lemma_pairs_map(out@);
        assert forall|x: Seq<char>| #[trigger] m.contains_key(x) implies !m.contains_key(chain(m, x, ps.len())) by {
            let e = choose|e: int| 0 <= e < firsts(ps).len() && firsts(ps)[e] == x;
            assert(names_of(direct@)[e] == x);
            assert(out@[e].1@ == chain(m, x, n as nat));
        }
        assert forall|k: Seq<char>| pairs_map(out@).contains_key(k) <==> statement_replacements(ss).contains_key(k) by {
            if pairs_map(out@).contains_key(k) {
                let f = choose|f: int| 0 <= f < names_of(out@).len() && names_of(out@)[f] == k;
                assert(firsts(ps)[f] == k);
            }
            if m.contains_key(k) {
                let f = choose|f: int| 0 <= f < firsts(ps).len() && firsts(ps)[f] == k;
                assert(names_of(out@)[f] == k);
            }
        }
        assert forall|k: Seq<char>| #[trigger] pairs_map(out@).contains_key(k) implies pairs_map(out@)[k]
            == statement_replacements(ss)[k] by {
            let f = choose|f: int| 0 <= f < names_of(out@).len() && names_of(out@)[f] == k;
            assert(names_of(direct@)[f] == k);
        }
        assert(pairs_map(out@) =~= statement_replacements(ss));
    }
    Some(out)
}

proof fn lemma_set_pairs_prefix(ss: Seq<StatementV>, i: int)
    requires
        0 <= i <= ss.len(),
    ensures
        set_pairs(ss.subrange(0, i)).len() <= set_pairs(ss).len(),
        forall|e: int| 0 <= e < set_pairs(ss.subrange(0, i)).len() ==> set_pairs(ss)[e] == #[trigger] set_pairs(
            ss.subrange(0, i),
        )[e],
    decreases ss.len() - i,
{
    if i < ss.len() {
        lemma_set_pairs_prefix(ss, i + 1);
        assert(ss.subrange(0, i + 1).drop_last() =~= ss.subrange(0, i));
        let a = set_pairs(ss.subrange(0, i));
        let b = set_pairs(ss.subrange(0, i + 1));
        assert(b.len() >= a.len());
        assert forall|e: int| 0 <= e < a.len() implies set_pairs(ss)[e] == #[trigger] a[e] by {
            assert(b[e] == a[e]);
        }
    } else {
        assert(ss.subrange(0, i) =~= ss);
    }
}


/// The replacements given by the `.set` directives: each name set by a directive
/// is mapped to the name at the end of its chain of directives.
fn extract_replacements(statements: &Vec<Statement>) -> (r: Vec<(String, String)>)
    requires
        replacements_ok(stmts_view(statements@)),
    ensures
        names_of(r@).no_duplicates(),
        pairs_map(r@) == statement_replacements(stmts_view(statements@)),
{
    match collect_replacements(statements) {
        Some(v) => v,
        None => {
            proof {
                assert(false);
            }
            Vec::new()
        },
    }
}

// ---------------------------------------------------------------------------
// Applying replacements
// ---------------------------------------------------------------------------
/// A constant with its symbol replaced.
pub open spec fn replace_const(rm: Map<Seq<char>, Seq<char>>, c: ConstantV) -> ConstantV {
    match c {
        ConstantV::Number(n) => ConstantV::Number(n),
        ConstantV::HiDataRef(s, o) => ConstantV::HiDataRef(replaced(rm, s), o),
        ConstantV::LoDataRef(s, o) => ConstantV::LoDataRef(replaced(rm, s), o),
    }
}

/// An argument with its symbols replaced.
pub open spec fn replace_arg(rm: Map<Seq<char>, Seq<char>>, a: ArgumentV) -> ArgumentV {
    match a {
        ArgumentV::Symbol(s) => ArgumentV::Symbol(replaced(rm, s)),
        ArgumentV::RegOffset(r, c) => ArgumentV::RegOffset(r, replace_const(rm, c)),
        ArgumentV::Constant(c) => ArgumentV::Constant(replace_const(rm, c)),
        ArgumentV::Difference(l, r) => ArgumentV::Difference(replaced(rm, l), replaced(rm, r)),
        _ => a,
    }
}

/// A statement with the symbols of an instruction replaced; labels and directives
/// stay as they are.
pub open spec fn replace_stmt(rm: Map<Seq<char>, Seq<char>>, s: StatementV) -> StatementV {
    match s {
        StatementV::Instruction(n, args) => StatementV::Instruction(
            n,
            args.map_values(|a: ArgumentV| replace_arg(rm, a)),
        ),
        _ => s,
    }
}

/// A piece of a data object with its reference replaced.
pub open spec fn replace_value(rm: Map<Seq<char>, Seq<char>>, v: DataValueV) -> DataValueV {
    match v {
        DataValueV::Reference(s) => DataValueV::Reference(replaced(rm, s)),
        _ => v,
    }
}

fn copy_bytes(b: &Vec<u8>) -> (r: Vec<u8>)
    ensures
        r@ == b@,
{
    let mut out: Vec<u8> = Vec::new();
    for i in 0..b.len()
        invariant
            out@ == b@.subrange(0, i as int),
    {
        out.push(b[i]);
        proof {
            assert(out@ =~= b@.subrange(0, i + 1));
        }
    }
    proof {
        assert(b@.subrange(0, b@.len() as int) =~= b@);
    }
    out
}

fn apply_replacement_to_constant(c: &Constant, replacements: &Vec<(String, String)>) -> (r: Constant)
    requires
        names_of(replacements@).no_duplicates(),
    ensures
        r@ == replace_const(pairs_map(replacements@), c@),
{
    match c {
        Constant::Number(n) => Constant::Number(*n),
        Constant::HiDataRef(s, o) => Constant::HiDataRef(replace(replacements, s), *o),
        Constant::LoDataRef(s, o) => Constant::LoDataRef(replace(replacements, s), *o),
    }
}

fn replace_argument(a: &Argument, replacements: &Vec<(String, String)>) -> (r: Argument)
    requires
        names_of(replacements@).no_duplicates(),
    ensures
        r@ == replace_arg(pairs_map(replacements@), a@),
{
    match a {
        Argument::Register(r) => Argument::Register(*r),
        Argument::RegOffset(r, c) => Argument::RegOffset(*r, apply_replacement_to_constant(c, replacements)),
        Argument::StringLiteral(b) => Argument::StringLiteral(copy_bytes(b)),
        Argument::Symbol(s) => Argument::Symbol(replace(replacements, s)),
        Argument::Constant(c) => Argument::Constant(apply_replacement_to_constant(c, replacements)),
        Argument::Difference(l, r) => Argument::Difference(
            replace(replacements, l),
            replace(replacements, r),
        ),
    }
}

fn copy_constant(c: &Constant) -> (r: Constant)
    ensures
        r@ == c@,
{
    match c {
        Constant::Number(n) => Constant::Number(*n),
        Constant::HiDataRef(s, o) => Constant::HiDataRef(s.clone(), *o),
        Constant::LoDataRef(s, o) => Constant::LoDataRef(s.clone(), *o),
    }
}

fn copy_argument(a: &Argument) -> (r: Argument)
    ensures
        r@ == a@,
{
    match a {
        Argument::Register(r) => Argument::Register(*r),
        Argument::RegOffset(r, c) => Argument::RegOffset(*r, copy_constant(c)),
        Argument::StringLiteral(b) => Argument::StringLiteral(copy_bytes(b)),
        Argument::Symbol(s) => Argument::Symbol(s.clone()),
        Argument::Constant(c) => Argument::Constant(copy_constant(c)),
        Argument::Difference(l, r) => Argument::Difference(l.clone(), r.clone()),
    }
}

/// A copy of a statement with the symbols of an instruction replaced.
fn apply_replacement_to_instruction(s: &Statement, replacements: &Vec<(String, String)>) -> (r: Statement)
    requires
        names_of(replacements@).no_duplicates(),
    ensures
        r@ == replace_stmt(pairs_map(replacements@), s@),
{
    match s {
        Statement::Label(l) => Statement::Label(l.clone()),
        Statement::Directive(d, args) => {
            let mut out: Vec<Argument> = Vec::new();
            for j in 0..args.len()
                invariant
                    out@.len() == j,
                    args_view(out@) == args_view(args@).subrange(0, j as int),
            {
                let ghost before = out@;
                out.push(copy_argument(&args[j]));
                proof {
                    assert forall|k: int| 0 <= k < j + 1 implies args_view(out@)[k] == args_view(args@).subrange(0, j + 1)[k] by {
                        if k < j {
                            assert(out@[k] == before[k]);
                            assert(args_view(before)[k] == args_view(args@).subrange(0, j as int)[k]);
                        }
                    }
                    assert(args_view(out@) =~= args_view(args@).subrange(0, j + 1));
                }
            }
            proof {
                assert(args_view(args@).subrange(0, args@.len() as int) =~= args_view(args@));
            }
            Statement::Directive(d.clone(), out)
        },
        Statement::Instruction(n, args) => {
            let ghost rm = pairs_map(replacements@);
            let mut out: Vec<Argument> = Vec::new();
            for j in 0..args.len()
                invariant
                    out@.len() == j,
                    names_of(replacements@).no_duplicates(),
                    rm == pairs_map(replacements@),
                    args_view(out@) == args_view(args@).subrange(0, j as int).map_values(
                        |a: ArgumentV| replace_arg(rm, a),
                    ),
            {
                let ghost before = out@;
                out.push(replace_argument(&args[j], replacements));
                proof {
                    assert forall|k: int| 0 <= k < j + 1 implies args_view(out@)[k] == args_view(args@).subrange(0, j + 1).map_values(
                        |a: ArgumentV| replace_arg(rm, a))[k] by {
                        if k < j {
                            assert(out@[k] == before[k]);
                            assert(args_view(before)[k] == args_view(args@).subrange(0, j as int).map_values(
                                |a: ArgumentV| replace_arg(rm, a))[k]);
                        }
                    }
                    assert(args_view(out@) =~= args_view(args@).subrange(0, j + 1).map_values(
                        |a: ArgumentV| replace_arg(rm, a),
                    ));
                }
            }
            proof {
                assert(args_view(args@).subrange(0, args@.len() as int) =~= args_view(args@));
            }
            Statement::Instruction(n.clone(), out)
        },
    }
}

/// A copy of the pieces of a data object with their references replaced.
fn apply_replacement_to_object(values: &Vec<DataValue>, replacements: &Vec<(String, String)>) -> (r: Vec<DataValue>)
    requires
        names_of(replacements@).no_duplicates(),
    ensures
        values_view(r@) == values_view(values@).map_values(
            |v: DataValueV| replace_value(pairs_map(replacements@), v),
        ),
{
    let ghost rm = pairs_map(replacements@);
    let mut out: Vec<DataValue> = Vec::new();
    for j in 0..values.len()
        invariant
            out@.len() == j,
            names_of(replacements@).no_duplicates(),
            rm == pairs_map(replacements@),
            values_view(out@) == values_view(values@).subrange(0, j as int).map_values(
                |v: DataValueV| replace_value(rm, v),
            ),
    {
        let v = match &values[j] {
            DataValue::Direct(b) => DataValue::Direct(copy_bytes(b)),
            DataValue::Zero(n) => DataValue::Zero(*n),
            DataValue::Alignment(a, b) => DataValue::Alignment(*a, *b),
            DataValue::Reference(s) => DataValue::Reference(replace(replacements, s)),
            DataValue::Offset(a, b) => DataValue::Offset(a.clone(), b.clone()),
        };
        let ghost before = out@;
        out.push(v);
        proof {
            assert forall|k: int| 0 <= k < j + 1 implies values_view(out@)[k] == values_view(values@).subrange(0, j + 1).map_values(
                |v: DataValueV| replace_value(rm, v))[k] by {
                if k < j {
                    assert(out@[k] == before[k]);
                    assert(values_view(before)[k] == values_view(values@).subrange(0, j as int).map_values(
                        |v: DataValueV| replace_value(rm, v))[k]);
                }
            }
            assert(values_view(out@) =~= values_view(values@).subrange(0, j + 1).map_values(
                |v: DataValueV| replace_value(rm, v),
            ));
        }
    }
    proof {
        assert(values_view(values@).subrange(0, values@.len() as int) =~= values_view(values@));
    }
    out
}


// ---------------------------------------------------------------------------
// Reachable labels and filtering
// ---------------------------------------------------------------------------
/// The labels and data objects reachable from `label`, in ascending order. Each
/// name taken from the queue is first replaced once through `replacements`; a data
/// object leads to the names its pieces refer to, a label to the labels and the
/// references of its basic block. Every reached name must be a data object or a
/// label, and every reached basic block must hold only known instructions without
/// differences of symbols.
pub fn find_reachable_labels(
    label: &str,
    statements: &Vec<Statement>,
    objects: &Vec<(String, Vec<DataValue>)>,
    replacements: &Vec<(String, String)>,
) -> (r: Vec<String>)
    requires
        labels_distinct(stmts_view(statements@)),
        object_names_distinct(objects_view(objects@)),
        names_of(replacements@).no_duplicates(),
        reach_ok(stmts_view(statements@), objects_view(objects@), pairs_map(replacements@), label@),
    ensures
        strictly_sorted(string_views(r@)),
        string_views(r@).to_set() == reach_result(
            stmts_view(statements@),
            objects_view(objects@),
            pairs_map(replacements@),
            label@,
        ),
{
    let offsets = extract_label_offsets(statements);
    match search(label, statements, &offsets, objects, replacements) {
        Some(v) => v,
        None => {
            proof {
                assert(false);
            }
            Vec::new()
        },
    }
}

/// Whether the statement is a label that opens a kept basic block: a reached
/// label that is not also a data object.
pub open spec fn opens_block(
    s: StatementV,
    reached: Set<Seq<char>>,
    ov: Seq<(Seq<char>, Seq<DataValueV>)>,
) -> bool {
    s matches StatementV::Label(l) && reached.contains(l) && object_of(ov, l) is None
}

/// Whether the statements after the first `i` ones are inside a kept basic block.
pub open spec fn active_after(
    ss: Seq<StatementV>,
    reached: Set<Seq<char>>,
    ov: Seq<(Seq<char>, Seq<DataValueV>)>,
    i: int,
) -> bool
    decreases i,
{
    if i <= 0 {
        false
    } else if active_after(ss, reached, ov, i - 1) {
        !ends_flow(ss[i - 1])
    } else {
        opens_block(ss[i - 1], reached, ov)
    }
}

/// Whether statement `i` is kept.
pub open spec fn kept_at(
    ss: Seq<StatementV>,
    reached: Set<Seq<char>>,
    ov: Seq<(Seq<char>, Seq<DataValueV>)>,
    i: int,
) -> bool {
    active_after(ss, reached, ov, i) || opens_block(ss[i], reached, ov)
}

/// The kept statements among the first `n`, with their symbols replaced.
pub open spec fn kept_statements(
    ss: Seq<StatementV>,
    reached: Set<Seq<char>>,
    ov: Seq<(Seq<char>, Seq<DataValueV>)>,
    rm: Map<Seq<char>, Seq<char>>,
    n: int,
) -> Seq<StatementV>
    decreases n,
{
    if n <= 0 {
        seq![]
    } else {
        kept_statements(ss, reached, ov, rm, n - 1) + if kept_at(ss, reached, ov, n - 1) {
            seq![replace_stmt(rm, ss[n - 1])]
        } else {
            seq![]
        }
    }
}

/// The reached data objects among the first `n`, with their references replaced.
pub open spec fn kept_objects(
    ov: Seq<(Seq<char>, Seq<DataValueV>)>,
    reached: Set<Seq<char>>,
    rm: Map<Seq<char>, Seq<char>>,
    n: int,
) -> Seq<(Seq<char>, Seq<DataValueV>)>
    decreases n,
{
    if n <= 0 {
        seq![]
    } else {
        kept_objects(ov, reached, rm, n - 1) + if reached.contains(ov[n - 1].0) {
            seq![(ov[n - 1].0, ov[n - 1].1.map_values(|v: DataValueV| replace_value(rm, v)))]
        } else {
            seq![]
        }
    }
}

/// No statement inside a kept basic block is an unknown instruction.
pub open spec fn filter_scan_ok(
    ss: Seq<StatementV>,
    reached: Set<Seq<char>>,
    ov: Seq<(Seq<char>, Seq<DataValueV>)>,
) -> bool {
    forall|i: int|
        0 <= i < ss.len() && #[trigger] active_after(ss, reached, ov, i) ==> !is_unknown_instruction(ss[i])
}

/// The names reached from `label` in a program, with the `.set` directives as
/// replacements.
pub open spec fn program_reach(
    ss: Seq<StatementV>,
    ov: Seq<(Seq<char>, Seq<DataValueV>)>,
    label: Seq<char>,
) -> Set<Seq<char>> {
    reach_result(ss, ov, statement_replacements(ss), label)
}

/// What `filter_reachable_from` needs of its input: distinct labels and data
/// object names, sound `.set` directives, a search that ends well and kept basic
/// blocks of known instructions.
pub open spec fn filter_ok(
    ss: Seq<StatementV>,
    ov: Seq<(Seq<char>, Seq<DataValueV>)>,
    label: Seq<char>,
) -> bool {
    &&& labels_distinct(ss)
    &&& object_names_distinct(ov)
    &&& replacements_ok(ss)
    &&& reach_ok(ss, ov, statement_replacements(ss), label)
    &&& filter_scan_ok(ss, program_reach(ss, ov, label), ov)
}

/// Keeps only the code and data reachable from `label`. The `.set` directives give
/// the replacements; the data objects reached stay, in order, with their
/// references replaced; the statements of the basic blocks that start at reached
/// labels (which are not data objects) stay, in order, with their symbols
/// replaced.
pub fn filter_reachable_from(
    label: &str,
    statements: &mut Vec<Statement>,
    objects: &mut Vec<(String, Vec<DataValue>)>,
)
    requires
        filter_ok(stmts_view(old(statements)@), objects_view(old(objects)@), label@),
    ensures
        objects_view(final(objects)@) == kept_objects(
            objects_view(old(objects)@),
            program_reach(stmts_view(old(statements)@), objects_view(old(objects)@), label@),
            statement_replacements(stmts_view(old(statements)@)),
            old(objects)@.len() as int,
        ),
        stmts_view(final(statements)@) == kept_statements(
            stmts_view(old(statements)@),
            program_reach(stmts_view(old(statements)@), objects_view(old(objects)@), label@),
            objects_view(old(objects)@),
            statement_replacements(stmts_view(old(statements)@)),
            old(statements)@.len() as int,
        ),
{
    let ghost ss = stmts_view(statements@);
    let ghost ov = objects_view(objects@);
    let ghost rm = statement_replacements(ss);
    let ghost reached_set = program_reach(ss, ov, label@);
    let replacements = extract_replacements(statements);
    let offsets = extract_label_offsets(statements);
    let reached = match search(label, statements, &offsets, objects, &replacements) {
        Some(v) => v,
        None => {
            proof {
                assert(false);
            }
            return ;
        },
    };
    let mut new_objects: Vec<(String, Vec<DataValue>)> = Vec::new();
    for i in 0..objects.len()
        invariant
            ov == objects_view(objects@),
            names_of(replacements@).no_duplicates(),
            pairs_map(replacements@) == rm,
            string_views(reached@).to_set() == reached_set,
            objects_view(new_objects@) == kept_objects(ov, reached_set, rm, i as int),
    {
        let ghost before = new_objects@;
        if contains_name(&reached, objects[i].0.as_str()) {
            let vals = apply_replacement_to_object(&objects[i].1, &replacements);
            new_objects.push((objects[i].0.clone(), vals));
            proof {
                assert(objects_view(new_objects@) =~= objects_view(before).push(
                    (ov[i as int].0, ov[i as int].1.map_values(|v: DataValueV| replace_value(rm, v))),
                ));
            }
        } else {
            proof {
                assert(!reached_set.contains(ov[i as int].0));
            }
        }
        proof {
            assert(kept_objects(ov, reached_set, rm, i + 1) =~= objects_view(new_objects@));
        }
    }
    let mut new_statements: Vec<Statement> = Vec::new();
    let mut active = false;
    for i in 0..statements.len()
        invariant
            ss == stmts_view(statements@),
            ov == objects_view(objects@),
            names_of(replacements@).no_duplicates(),
            pairs_map(replacements@) == rm,
            string_views(reached@).to_set() == reached_set,
            filter_scan_ok(ss, reached_set, ov),
            active == active_after(ss, reached_set, ov, i as int),
            stmts_view(new_statements@) == kept_statements(ss, reached_set, ov, rm, i as int),
    {
        let s = &statements[i];
        proof {
            assert(ss[i as int] == s@);
        }
        let keep = if active {
            if ends_control_flow(s) {
                active = false;
            }
            true
        } else {
            match s {
                Statement::Label(l) => {
                    let is_object = find_name(objects, l.as_str()).is_some();
                    active = contains_name(&reached, l.as_str()) && !is_object;
                    proof {
                        if is_object {
                            let j = choose|j: int| 0 <= j < objects@.len() && names_of(objects@)[j] == l@;
                            assert(ov[j].0 == l@);
                        } else {
                            assert(object_of(ov, l@) is None) by {
                                if exists|j: int| 0 <= j < ov.len() && ov[j].0 == l@ {
                                    let j = choose|j: int| 0 <= j < ov.len() && ov[j].0 == l@;
                                    assert(names_of(objects@)[j] == l@);
                                }
                            }
                        }
                    }
                },
                _ => {},
            }
            active
        };
        let ghost before = new_statements@;
        if keep {
            new_statements.push(apply_replacement_to_instruction(s, &replacements));
            proof {
                assert(stmts_view(new_statements@) =~= stmts_view(before).push(replace_stmt(rm, ss[i as int])));
            }
        }
        proof {
            assert(keep == kept_at(ss, reached_set, ov, i as int));
            assert(kept_statements(ss, reached_set, ov, rm, i + 1) =~= stmts_view(new_statements@));
        }
    }
    *objects = new_objects;
    *statements = new_statements;
}


fn check_labels_distinct(statements: &Vec<Statement>) -> (r: bool)
    ensures
        r == labels_distinct(stmts_view(statements@)),
{
    let ghost ss = stmts_view(statements@);
    for i in 0..statements.len()
        invariant
            ss == stmts_view(statements@),
            forall|a: int, b: int|
                0 <= a < i && a < b < ss.len() && #[trigger] ss[a] is Label && #[trigger] ss[b] is Label
                    ==> ss[a]->Label_0 != ss[b]->Label_0,
    {
        match &statements[i] {
            Statement::Label(l) => {
                for j in i + 1..statements.len()
                    invariant
                        ss == stmts_view(statements@),
                        i < ss.len(),
                        ss.len() == statements@.len(),
                        ss[i as int] == StatementV::Label(l@),
                        forall|b: int| i < b < j && #[trigger] ss[b] is Label ==> ss[b]->Label_0 != l@,
                {
                    match &statements[j] {
                        Statement::Label(m) => {
                            proof {
                                assert(ss[j as int] == StatementV::Label(m@));
                            }
                            if str_eq(l.as_str(), m.as_str()) {
                                proof {
                                    assert(ss[i as int] is Label && ss[j as int] is Label);
                                }
                                return false;
                            }
                        },
                        _ => {
                            proof {
                                assert(ss[j as int] == statements@[j as int]@);
                            }
                        },
                    }
                }
            },
            _ => {
                proof {
                    assert(ss[i as int] == statements@[i as int]@);
                }
            },
        }
    }
    true
}

fn check_object_names_distinct(objects: &Vec<(String, Vec<DataValue>)>) -> (r: bool)
    ensures
        r == object_names_distinct(objects_view(objects@)),
{
    let ghost ov = objects_view(objects@);
    for i in 0..objects.len()
        invariant
            ov == objects_view(objects@),
            forall|a: int, b: int| 0 <= a < i && a < b < ov.len() ==> #[trigger] ov[a].0 != #[trigger] ov[b].0,
    {
        for j in i + 1..objects.len()
            invariant
                ov == objects_view(objects@),
                i < ov.len(),
                ov.len() == objects@.len(),
                forall|a: int, b: int| 0 <= a < i && a < b < ov.len() ==> #[trigger] ov[a].0 != #[trigger] ov[b].0,
                forall|b: int| i < b < j ==> ov[i as int].0 != #[trigger] ov[b].0,
        {
            if str_eq(objects[i].0.as_str(), objects[j].0.as_str()) {
                proof {
                    assert(ov[i as int].0 == ov[j as int].0);
                }
                return false;
            }
        }
    }
    true
}

/// Whether `filter_reachable_from` can run on this input: the labels and the data
/// object names are distinct, the `.set` directives are sound, the search from
/// `label` ends well and the kept basic blocks hold only known instructions.
pub fn can_filter_reachable_from(
    label: &str,
    statements: &Vec<Statement>,
    objects: &Vec<(String, Vec<DataValue>)>,
) -> (r: bool)
    ensures
        r == filter_ok(stmts_view(statements@), objects_view(objects@), label@),
{
    let ghost ss = stmts_view(statements@);
    let ghost ov = objects_view(objects@);
    if !check_labels_distinct(statements) || !check_object_names_distinct(objects) {
        return false;
    }
    let replacements = match collect_replacements(statements) {
        Some(v) => v,
        None => {
            return false;
        },
    };
    let offsets = extract_label_offsets(statements);
    let reached = match search(label, statements, &offsets, objects, &replacements) {
        Some(v) => v,
        None => {
            return false;
        },
    };
    let ghost reached_set = program_reach(ss, ov, label@);
    let mut active = false;
    for i in 0..statements.len()
        invariant
            ss == stmts_view(statements@),
            ov == objects_view(objects@),
            labels_distinct(ss),
            object_names_distinct(ov),
            replacements_ok(ss),
            reach_ok(ss, ov, statement_replacements(ss), label@),
            reached_set == program_reach(ss, ov, label@),
            string_views(reached@).to_set() == reached_set,
            active == active_after(ss, reached_set, ov, i as int),
            forall|k: int|
                0 <= k < i && #[trigger] active_after(ss, reached_set, ov, k) ==> !is_unknown_instruction(ss[k]),
    {
        let s = &statements[i];
        proof {
            assert(ss[i as int] == s@);
        }
        if active {
            match s {
                Statement::Instruction(name, _) => {
                    if !is_known_instruction(name.as_str()) {
                        proof {
                            assert(active_after(ss, reached_set, ov, i as int) && is_unknown_instruction(ss[i as int]));
                        }
                        return false;
                    }
                },
                _ => {},
            }
            proof {
                assert(!is_unknown_instruction(s@));
            }
            if ends_control_flow(s) {
                active = false;
            }
        } else {
            match s {
                Statement::Label(l) => {
                    let is_object = find_name(objects, l.as_str()).is_some();
                    active = contains_name(&reached, l.as_str()) && !is_object;
                    proof {
                        if is_object {
                            let j = choose|j: int| 0 <= j < objects@.len() && names_of(objects@)[j] == l@;
                            assert(ov[j].0 == l@);
                        } else {
                            assert(object_of(ov, l@) is None) by {
                                if exists|j: int| 0 <= j < ov.len() && ov[j].0 == l@ {
                                    let j = choose|j: int| 0 <= j < ov.len() && ov[j].0 == l@;
                                    assert(names_of(objects@)[j] == l@);
                                }
                            }
                        }
                    }
                },
                _ => {},
            }
        }
    }
    true
}


// ---------------------------------------------------------------------------
// Laws
// ---------------------------------------------------------------------------
/// Replacing a name twice through the `.set` directives gives what replacing it
/// once gives: every chain of directives is followed to its end.
pub proof fn law_replacement_idempotent(ss: Seq<StatementV>, x: Seq<char>)
    requires
        replacements_ok(ss),
    ensures
        replaced(statement_replacements(ss), replaced(statement_replacements(ss), x)) == replaced(
            statement_replacements(ss),
            x,
        ),
{
    let ps = set_pairs(ss);
    let m = view_map(ps);
    let rm = statement_replacements(ss);
    if rm.contains_key(x) {
        assert(m.contains_key(x));
        assert(!m.contains_key(chain(m, x, ps.len())));
        assert(!rm.contains_key(rm[x]));
    }
}

proof fn lemma_reach_grows(
    ss: Seq<StatementV>,
    ov: Seq<(Seq<char>, Seq<DataValueV>)>,
    rm: Map<Seq<char>, Seq<char>>,
    label: Seq<char>,
    k: nat,
    m: nat,
)
    ensures
        reach_run(ss, ov, rm, label, k).1.subset_of(reach_run(ss, ov, rm, label, k + m).1),
        reach_run(ss, ov, rm, label, k).2 ==> reach_run(ss, ov, rm, label, k + m).2,
    decreases m,
{
    if m > 0 {
        lemma_reach_grows(ss, ov, rm, label, k, (m - 1) as nat);
        let st = reach_run(ss, ov, rm, label, (k + m - 1) as nat);
        assert(reach_run(ss, ov, rm, label, k + m) == reach_step(ss, ov, rm, st));
        assert(st.1.subset_of(reach_step(ss, ov, rm, st).1) && (st.2 ==> reach_step(ss, ov, rm, st).2)) by {
            reveal(reach_step);
        }
    }
}

/// A search that ends well visits the start label, after its replacement.
pub proof fn law_start_is_reached(
    ss: Seq<StatementV>,
    ov: Seq<(Seq<char>, Seq<DataValueV>)>,
    rm: Map<Seq<char>, Seq<char>>,
    label: Seq<char>,
)
    requires
        reach_ok(ss, ov, rm, label),
    ensures
        reach_result(ss, ov, rm, label).contains(replaced(rm, label)),
{
    let n = choose|n: nat| reach_done(#[trigger] reach_run(ss, ov, rm, label, n)) && !reach_run(ss, ov, rm, label, n).2;
    lemma_reach_outcome(ss, ov, rm, label, n);
    let st0 = reach_run(ss, ov, rm, label, 0);
    assert(st0.0.contains(label));
    assert(!reach_done(st0));
    assert(n > 0);
    assert(set![label].remove(label) =~= Set::<Seq<char>>::empty());
    assert(set_min(set![label]) == label) by {
        lemma_sorted_min(seq![label]);
        assert(seq![label].to_set() =~= set![label]);
    }
    let st1 = reach_run(ss, ov, rm, label, 1);
    assert(st1 == reach_step(ss, ov, rm, st0));
    assert(st1.2 || st1.1.contains(replaced(rm, label))) by {
        reveal(reach_step);
    }
    lemma_reach_grows(ss, ov, rm, label, 1, (n - 1) as nat);
}

/// The instructions that never fall through to the next statement: the jumps `j`
/// and `jr`, the tail call `tail`, the return `ret`, and `unimp`.
pub open spec fn never_falls_through(s: StatementV) -> bool {
    s matches StatementV::Instruction(n, _) && (n == "j"@ || n == "jr"@ || n == "tail"@ || n == "ret"@
        || n == "unimp"@)
}

/// A basic block ends at the first instruction that does not fall through: the
/// block that starts at `off` never reaches past such an instruction at `k`.
pub proof fn law_blocks_end_at_unconditional_jumps(ss: Seq<StatementV>, off: int, k: int)
    requires
        0 <= off <= k < ss.len(),
        never_falls_through(ss[k]),
    ensures
        block_last(ss, off) <= k,
    decreases k - off,
{
    if off < k && !ends_flow(ss[off]) {
        law_blocks_end_at_unconditional_jumps(ss, off + 1, k);
    }
}

/// Kept code falls through exactly the other statements: a statement right after
/// an instruction that does not fall through is kept only if it is a reached label
/// opening a block of its own, while after any other statement inside a kept
/// block, the next statement is kept as well.
pub proof fn law_kept_code_follows_control_flow(
    ss: Seq<StatementV>,
    reached: Set<Seq<char>>,
    ov: Seq<(Seq<char>, Seq<DataValueV>)>,
    i: int,
)
    requires
        0 <= i,
        i + 1 < ss.len(),
    ensures
        never_falls_through(ss[i]) ==> (kept_at(ss, reached, ov, i + 1) <==> opens_block(ss[i + 1], reached, ov)),
        !never_falls_through(ss[i]) && active_after(ss, reached, ov, i) ==> kept_at(ss, reached, ov, i + 1),
{
    reveal_strlit("j");
    reveal_strlit("jr");
    reveal_strlit("tail");
    reveal_strlit("ret");
    reveal_strlit("unimp");
    assert(active_after(ss, reached, ov, i + 1) == if active_after(ss, reached, ov, i) {
        !ends_flow(ss[i])
    } else {
        opens_block(ss[i], reached, ov)
    });
}

} // verus!
