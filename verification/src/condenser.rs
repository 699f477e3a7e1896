//! The bookkeeping of condensing an analyzed program: the order of its statements
//! once the condenser added new columns and constraints, and its definitions once
//! the new columns and the values found for them are merged in.
use vstd::prelude::*;

use crate::text::{str_eq, string_views};

verus! {

/// A statement of the program, in source order.
#[derive(Debug, PartialEq, Eq)]
pub enum StatementId {
    /// The definition of the named symbol.
    Definition(String),
    /// The named public declaration.
    PublicDeclaration(String),
    /// The identity with the given index.
    Identity(usize),
}

/// The mathematical value of a `StatementId`.
pub enum StatementIdV {
    Definition(Seq<char>),
    PublicDeclaration(Seq<char>),
    Identity(usize),
}

impl View for StatementId {
    type V = StatementIdV;

    open spec fn view(&self) -> StatementIdV {
        match self {
            StatementId::Definition(n) => StatementIdV::Definition(n@),
            StatementId::PublicDeclaration(n) => StatementIdV::PublicDeclaration(n@),
            StatementId::Identity(i) => StatementIdV::Identity(*i),
        }
    }
}

/// The views of a sequence of statements.
pub open spec fn statement_views(s: Seq<StatementId>) -> Seq<StatementIdV> {
    s.map_values(|x: StatementId| x@)
}

/// The views of a sequence of lists of names.
pub open spec fn name_lists(s: Seq<Vec<String>>) -> Seq<Seq<Seq<char>>> {
    s.map_values(|v: Vec<String>| string_views(v@))
}

/// The definitions of the named columns.
pub open spec fn definitions_of(names: Seq<Seq<char>>) -> Seq<StatementIdV> {
    names.map_values(|c: Seq<char>| StatementIdV::Definition(c))
}

/// The identities numbered `first`, `first + 1`, and so on, `count` of them.
pub open spec fn identities_from(first: nat, count: nat) -> Seq<StatementIdV> {
    Seq::new(count, |k: int| StatementIdV::Identity((first + k) as usize))
}

/// The sum of the counts.
pub open spec fn count_sum(counts: Seq<usize>) -> nat
    decreases counts.len(),
{
    if counts.len() == 0 {
        0
    } else {
        count_sum(counts.drop_last()) + counts.last() as nat
    }
}

/// What one statement becomes: the definitions of the columns that the condenser
/// added for it, the identities that it produced (numbered on from `first`), and
/// the statement itself unless it is an identity, which the produced identities
/// replace.
pub open spec fn condensed_block(s: StatementIdV, cols: Seq<Seq<char>>, count: usize, first: nat) -> Seq<
    StatementIdV,
> {
    definitions_of(cols) + identities_from(first, count as nat) + if s is Identity {
        Seq::<StatementIdV>::empty()
    } else {
        seq![s]
    }
}

/// The source order after condensing: each statement's block in turn, with the
/// produced identities numbered consecutively from 0.
pub open spec fn condensed_order(
    order: Seq<StatementIdV>,
    cols: Seq<Seq<Seq<char>>>,
    counts: Seq<usize>,
) -> Seq<StatementIdV>
    decreases order.len(),
{
    if order.len() == 0 || cols.len() != order.len() || counts.len() != order.len() {
        Seq::empty()
    } else {
        condensed_order(order.drop_last(), cols.drop_last(), counts.drop_last()) + condensed_block(
            order.last(),
            cols.last(),
            counts.last(),
            count_sum(counts.drop_last()),
        )
    }
}

proof fn lemma_count_sum_take(counts: Seq<usize>, i: int)
    requires
        0 <= i < counts.len(),
    ensures
        count_sum(counts.take(i + 1)) == count_sum(counts.take(i)) + counts[i],
        count_sum(counts.take(i + 1)) <= count_sum(counts),
{
    assert(counts.take(i + 1).drop_last() =~= counts.take(i));
    lemma_count_sum_prefix(counts, i + 1);
}

proof fn lemma_count_sum_prefix(counts: Seq<usize>, i: int)
    requires
        0 <= i <= counts.len(),
    ensures
        count_sum(counts.take(i)) <= count_sum(counts),
    decreases counts.len(),
{
    if i == counts.len() {
        assert(counts.take(i) =~= counts);
    } else {
        lemma_count_sum_prefix(counts.drop_last(), i);
        assert(counts.drop_last().take(i) =~= counts.take(i));
    }
}

/// The source order once the condenser went through every statement: for the
/// statement at position `i`, `new_cols[i]` are the columns it added and
/// `new_constraints[i]` the number of identities it produced.
pub fn condensed_source_order(
    order: &Vec<StatementId>,
    new_cols: &Vec<Vec<String>>,
    new_constraints: &Vec<usize>,
) -> (r: Vec<StatementId>)
    requires
        new_cols@.len() == order@.len(),
        new_constraints@.len() == order@.len(),
        count_sum(new_constraints@) <= usize::MAX,
    ensures
        statement_views(r@) == condensed_order(statement_views(order@), name_lists(new_cols@), new_constraints@),
{
    let ghost ov = statement_views(order@);
    let ghost cv = name_lists(new_cols@);
    let mut out: Vec<StatementId> = Vec::new();
    let mut next: usize = 0;
    let n = order.len();
    proof {
        assert(statement_views(out@) =~= condensed_order(ov.take(0), cv.take(0), new_constraints@.take(0)));
    }
    for i in 0..n
        invariant
            n == order@.len(),
            n == new_cols@.len(),
            n == new_constraints@.len(),
            ov == statement_views(order@),
            cv == name_lists(new_cols@),
            count_sum(new_constraints@) <= usize::MAX,
            next == count_sum(new_constraints@.take(i as int)),
            statement_views(out@) == condensed_order(ov.take(i as int), cv.take(i as int), new_constraints@.take(i as int)),
    {
        let ghost prev = statement_views(out@);
        proof {
            lemma_count_sum_take(new_constraints@, i as int);
        }
        let cols = &new_cols[i];
        let ghost names = string_views(cols@);
        let m = cols.len();
        for j in 0..m
            invariant
                m == cols@.len(),
                names == string_views(cols@),
                statement_views(out@) == prev + definitions_of(names.take(j as int)),
        {
            let ghost o0 = out@;
            out.push(StatementId::Definition(cols[j].clone()));
            proof {
                assert(statement_views(out@) =~= statement_views(o0).push(StatementIdV::Definition(names[j as int])));
                assert(definitions_of(names.take(j + 1)) =~= definitions_of(names.take(j as int)).push(
                    StatementIdV::Definition(names[j as int]),
                ));
                assert(statement_views(out@) =~= prev + definitions_of(names.take(j + 1)));
            }
        }
        let ghost with_cols = statement_views(out@);
        let count = new_constraints[i];
        let first = next;
        for k in 0..count
            invariant
                first as int + count <= usize::MAX,
                statement_views(out@) == with_cols + identities_from(first as nat, k as nat),
        {
            let ghost o0 = out@;
            out.push(StatementId::Identity(first + k));
            proof {
                assert(statement_views(out@) =~= statement_views(o0).push(StatementIdV::Identity((first + k) as usize)));
                assert(identities_from(first as nat, (k + 1) as nat) =~= identities_from(first as nat, k as nat).push(
                    StatementIdV::Identity((first + k) as usize),
                ));
                assert(statement_views(out@) =~= with_cols + identities_from(first as nat, (k + 1) as nat));
            }
        }
        next = first + count;
        let ghost with_ids = statement_views(out@);
        match &order[i] {
            StatementId::Identity(_) => {},
            StatementId::Definition(name) => {
                out.push(StatementId::Definition(name.clone()));
            },
            StatementId::PublicDeclaration(name) => {
                out.push(StatementId::PublicDeclaration(name.clone()));
            },
        }
        proof {
            let o1 = ov.take(i + 1);
            let c1 = cv.take(i + 1);
            let n1 = new_constraints@.take(i + 1);
            assert(o1.drop_last() =~= ov.take(i as int));
            assert(c1.drop_last() =~= cv.take(i as int));
            assert(n1.drop_last() =~= new_constraints@.take(i as int));
            assert(o1.last() == order@[i as int]@);
            assert(c1.last() == names);
            assert(names.take(m as int) =~= names);
            assert(with_ids == prev + definitions_of(names) + identities_from(first as nat, count as nat));
            if order@[i as int]@ is Identity {
                assert(statement_views(out@) =~= with_ids);
            } else {
                assert(statement_views(out@) =~= with_ids.push(order@[i as int]@));
            }
            assert(statement_views(out@) =~= prev + condensed_block(
                o1.last(),
                c1.last(),
                n1.last(),
                count_sum(n1.drop_last()),
            ));
        }
    }
    proof {
        assert(ov.take(n as int) =~= ov);
        assert(cv.take(n as int) =~= cv);
        assert(new_constraints@.take(n as int) =~= new_constraints@);
    }
    out
}

// ---------------------------------------------------------------------------
// Merging the definitions
// ---------------------------------------------------------------------------
/// The definitions as a map from name to value; a later entry of a name wins.
pub open spec fn defs_map<V>(d: Seq<(String, Option<V>)>) -> Map<Seq<char>, Option<V>>
    decreases d.len(),
{
    if d.len() == 0 {
        Map::empty()
    } else {
        defs_map(d.drop_last()).insert(d.last().0@, d.last().1)
    }
}

/// No name occurs twice.
pub open spec fn names_distinct<V>(d: Seq<(String, Option<V>)>) -> bool {
    forall|i: int, j: int| 0 <= i < j < d.len() ==> d[i].0@ != d[j].0@
}

/// No name occurs twice among the new values.
pub open spec fn value_names_distinct<V>(d: Seq<(String, V)>) -> bool {
    forall|i: int, j: int| 0 <= i < j < d.len() ==> d[i].0@ != d[j].0@
}

/// The map with each of the names set to no value.
pub open spec fn with_new_columns<V>(m: Map<Seq<char>, Option<V>>, cols: Seq<String>) -> Map<
    Seq<char>,
    Option<V>,
>
    decreases cols.len(),
{
    if cols.len() == 0 {
        m
    } else {
        with_new_columns(m, cols.drop_last()).insert(cols.last()@, None)
    }
}

/// The map with each new value set.
pub open spec fn with_values<V>(m: Map<Seq<char>, Option<V>>, vals: Seq<(String, V)>) -> Map<
    Seq<char>,
    Option<V>,
>
    decreases vals.len(),
{
    if vals.len() == 0 {
        m
    } else {
        with_values(m, vals.drop_last()).insert(vals.last().0@, Some(vals.last().1))
    }
}

/// The definitions without the intermediate columns and with the new columns, still
/// without values.
pub open spec fn merged_columns<V>(
    defs: Seq<(String, Option<V>)>,
    intermediates: Seq<String>,
    new_columns: Seq<String>,
) -> Map<Seq<char>, Option<V>> {
    with_new_columns(
        defs_map(defs).remove_keys(string_views(intermediates).to_set()),
        new_columns,
    )
}

/// Every new value names a column that exists and has no value yet.
pub open spec fn values_fit<V>(m: Map<Seq<char>, Option<V>>, vals: Seq<(String, V)>) -> bool {
    &&& value_names_distinct(vals)
    &&& forall|i: int|
        0 <= i < vals.len() ==> m.contains_key(#[trigger] vals[i].0@) && m[vals[i].0@] is None
}

proof fn lemma_defs_map_update<V>(d: Seq<(String, Option<V>)>, i: int, x: (String, Option<V>))
    requires
        names_distinct(d),
        0 <= i < d.len(),
        x.0@ == d[i].0@,
    ensures
        defs_map(d.update(i, x)) == defs_map(d).insert(x.0@, x.1),
        names_distinct(d.update(i, x)),
    decreases d.len(),
{
    let u = d.update(i, x);
    if i == d.len() - 1 {
        assert(u.drop_last() =~= d.drop_last());
        assert(defs_map(u) =~= defs_map(d).insert(x.0@, x.1));
    } else {
        assert(u.drop_last() =~= d.drop_last().update(i, x));
        lemma_defs_map_update(d.drop_last(), i, x);
        assert(d.last().0@ != x.0@);
        assert(defs_map(u) =~= defs_map(d).insert(x.0@, x.1));
    }
}

fn find_def<V>(d: &Vec<(String, Option<V>)>, name: &String) -> (r: Option<usize>)
    ensures
        r matches Some(i) ==> i < d@.len() && d@[i as int].0@ == name@,
        r is None ==> forall|j: int| 0 <= j < d@.len() ==> d@[j].0@ != name@,
{
    let n = d.len();
    for i in 0..n
        invariant
            n == d@.len(),
            forall|j: int| 0 <= j < i ==> d@[j].0@ != name@,
    {
        if str_eq(d[i].0.as_str(), name.as_str()) {
            return Some(i);
        }
    }
    None
}

fn contains_name(names: &Vec<String>, name: &String) -> (r: bool)
    ensures
        r == string_views(names@).to_set().contains(name@),
{
    let n = names.len();
    for i in 0..n
        invariant
            n == names@.len(),
            forall|j: int| 0 <= j < i ==> names@[j]@ != name@,
    {
        if str_eq(names[i].as_str(), name.as_str()) {
            proof {
                assert(string_views(names@)[i as int] == name@);
            }
            return true;
        }
    }
    proof {
        if string_views(names@).to_set().contains(name@) {
            let j = choose|j: int| 0 <= j < names@.len() && #[trigger] string_views(names@)[j] == name@;
            assert(names@[j]@ == name@);
        }
    }
    false
}

/// Sets entry `name` to `value`, or adds it at the end when there is none.
fn set_def<V>(d: &mut Vec<(String, Option<V>)>, name: &String, value: Option<V>)
    requires
        names_distinct(old(d)@),
    ensures
        names_distinct(final(d)@),
        defs_map(final(d)@) == defs_map(old(d)@).insert(name@, value),
{
    match find_def(d, name) {
        Some(i) => {
            let x = (name.clone(), value);
            proof {
                lemma_defs_map_update(d@, i as int, x);
            }
            d.set(i, x);
        },
        None => {
            let x = (name.clone(), value);
            let ghost before = d@;
            d.push(x);
            proof {
                assert(d@.drop_last() =~= before);
            }
        },
    }
}

/// The elements of `v` in reverse order.
fn reversed<T>(v: Vec<T>) -> (r: Vec<T>)
    ensures
        r@ == v@.reverse(),
{
    let ghost all = v@;
    let mut rest = v;
    let mut out: Vec<T> = Vec::new();
    while rest.len() > 0
        invariant
            rest@ + out@.reverse() == all,
        decreases rest@.len(),
    {
        let ghost r0 = rest@;
        let ghost o0 = out@;
        let x = rest.pop().unwrap();
        out.push(x);
        proof {
            assert(r0 =~= rest@.push(x));
            assert(out@.reverse() =~= seq![x] + o0.reverse());
            assert(rest@ + out@.reverse() =~= r0 + o0.reverse());
        }
    }
    proof {
        assert(out@.reverse() =~= all);
        assert(out@ =~= out@.reverse().reverse());
    }
    out
}

/// The definitions after condensing: the intermediate columns are gone, the new
/// columns are there without a value, and each value the condenser found for a new
/// column is set. A second value for a column, a value for a column that does not
/// exist, or for one that already has a value, would abort, so these are not
/// admitted.
pub fn merge_definitions<V>(
    defs: Vec<(String, Option<V>)>,
    intermediates: &Vec<String>,
    new_columns: &Vec<String>,
    new_values: Vec<(String, V)>,
) -> (r: Vec<(String, Option<V>)>)
    requires
        values_fit(merged_columns(defs@, intermediates@, new_columns@), new_values@),
    ensures
        names_distinct(r@),
        defs_map(r@) == with_values(merged_columns(defs@, intermediates@, new_columns@), new_values@),
{
    let ghost iset = string_views(intermediates@).to_set();
    let ghost d0 = defs@;
    let total = defs.len();
    let mut stack = reversed(defs);
    let mut out: Vec<(String, Option<V>)> = Vec::new();
    proof {
        assert(stack@.reverse() =~= d0);
        assert(d0.take(0) + stack@.reverse() =~= d0);
        assert(defs_map(out@) =~= defs_map(d0.take(0)).remove_keys(iset));
    }
    while stack.len() > 0
        invariant
            stack@.len() <= total,
            total == d0.len(),
            d0.take(total - stack@.len()) + stack@.reverse() == d0,
            names_distinct(out@),
            defs_map(out@) == defs_map(d0.take(total - stack@.len())).remove_keys(iset),
            iset == string_views(intermediates@).to_set(),
        decreases stack@.len(),
    {
        let ghost s0 = stack@;
        let ghost done = (total - stack@.len()) as int;
        let ghost before = defs_map(out@);
        let (name, value) = stack.pop().unwrap();
        proof {
            assert(s0 =~= stack@.push((name, value)));
            assert(s0.reverse() =~= seq![(name, value)] + stack@.reverse());
            assert(d0[done] == (name, value)) by {
                assert((d0.take(done) + s0.reverse())[done] == s0.reverse()[0]);
            }
            assert(d0.take(done + 1) =~= d0.take(done).push((name, value)));
            assert(d0.take(done + 1) + stack@.reverse() =~= d0.take(done) + s0.reverse());
            assert(d0.take(done + 1).drop_last() =~= d0.take(done));
        }
        if !contains_name(intermediates, &name) {
            set_def(&mut out, &name, value);
            proof {
                assert(defs_map(out@) =~= defs_map(d0.take(done + 1)).remove_keys(iset));
            }
        } else {
            proof {
                assert(before =~= defs_map(d0.take(done + 1)).remove_keys(iset));
            }
        }
    }
    proof {
        assert(d0.take(total as int) =~= d0);
    }
    let ghost base = defs_map(out@);
    let m = new_columns.len();
    proof {
        assert(new_columns@.take(0) =~= Seq::<String>::empty());
    }
    for j in 0..m
        invariant
            m == new_columns@.len(),
            names_distinct(out@),
            defs_map(out@) == with_new_columns(base, new_columns@.take(j as int)),
    {
        set_def(&mut out, &new_columns[j], None);
        proof {
            assert(new_columns@.take(j + 1).drop_last() =~= new_columns@.take(j as int));
        }
    }
    proof {
        assert(new_columns@.take(m as int) =~= new_columns@);
    }
    let ghost cols = defs_map(out@);
    let ghost vals = new_values@;
    let total_vals = new_values.len();
    let mut pending = reversed(new_values);
    proof {
        assert(pending@.reverse() =~= vals);
        assert(vals.take(0) + pending@.reverse() =~= vals);
        assert(vals.take(0) =~= Seq::<(String, V)>::empty());
    }
    while pending.len() > 0
        invariant
            pending@.len() <= total_vals,
            total_vals == vals.len(),
            vals.take(total_vals - pending@.len()) + pending@.reverse() == vals,
            names_distinct(out@),
            defs_map(out@) == with_values(cols, vals.take(total_vals - pending@.len())),
        decreases pending@.len(),
    {
        let ghost p0 = pending@;
        let ghost done = (total_vals - pending@.len()) as int;
        let (name, value) = pending.pop().unwrap();
        proof {
            assert(p0 =~= pending@.push((name, value)));
            assert(p0.reverse() =~= seq![(name, value)] + pending@.reverse());
            assert(vals[done] == (name, value)) by {
                assert((vals.take(done) + p0.reverse())[done] == p0.reverse()[0]);
            }
            assert(vals.take(done + 1) =~= vals.take(done).push((name, value)));
            assert(vals.take(done + 1) + pending@.reverse() =~= vals.take(done) + p0.reverse());
            assert(vals.take(done + 1).drop_last() =~= vals.take(done));
        }
        set_def(&mut out, &name, Some(value));
    }
    proof {
        assert(vals.take(total_vals as int) =~= vals);
    }
    out
}

} // verus!
