//! Backends: the one that hands the constants, the witness and the constraints
//! to the external `pilcom` tool, and the bookkeeping of the GKR backend (its proof
//! types and the flat layout of the trace columns).
use vstd::prelude::*;

use crate::bootloader::clone_values;
use crate::field::GoldilocksField;
use crate::text::{push_str, str_eq};

verus! {

/// The message of a request to aggregate a previous proof.
pub open spec fn aggregation_error() -> Seq<char> {
    "Aggregration is not implemented for Pilcom CLI backend"@
}

/// The backend for the external `pilcom` tool; it works on one degree.
pub struct PilcomCli {
    degree: u64,
}

impl PilcomCli {
    /// The degree the backend was made for.
    pub closed spec fn spec_degree(&self) -> u64 {
        self.degree
    }

    /// A backend for the given degree.
    pub fn new(degree: u64) -> (r: Self)
        ensures
            r.spec_degree() == degree,
    {
        PilcomCli { degree }
    }

    /// The degree the backend was made for.
    pub fn degree(&self) -> (r: u64)
        ensures
            r == self.spec_degree(),
    {
        self.degree
    }

    /// Whether a proof can be made: the backend cannot aggregate a previous proof.
    /// When it can, the files are written to the output directory, if there is one,
    /// and no proof comes back.
    pub fn check_proof_request(&self, has_previous_proof: bool) -> (r: Result<(), String>)
        ensures
            r is Ok <==> !has_previous_proof,
            r matches Err(e) ==> e@ == aggregation_error(),
    {
        if has_previous_proof {
            let mut e = String::new();
            push_str(&mut e, "Aggregration is not implemented for Pilcom CLI backend");
            Err(e)
        } else {
            Ok(())
        }
    }
}


// ---------------------------------------------------------------------------
// GKR backend
// ---------------------------------------------------------------------------
/// The kind of proof the GKR backend makes.
#[derive(Clone, Copy, Debug, PartialEq, Eq, Structural)]
pub enum ProofType {
    /// A single proof with Poseidon transcripts.
    Poseidon,
    /// A single proof with Keccak transcripts, verifiable on Ethereum.
    SnarkSingle,
    /// A recursive proof that compresses a Poseidon proof.
    SnarkAggr,
}

/// Whether the backend option names a proof type: empty, `poseidon`,
/// `snark_single` or `snark_aggr`.
pub open spec fn is_proof_type_option(o: Seq<char>) -> bool {
    o == ""@ || o == "poseidon"@ || o == "snark_single"@ || o == "snark_aggr"@
}

impl ProofType {
    /// The proof type that the backend option names; no option means Poseidon.
    pub fn from(options: &str) -> (r: ProofType)
        requires
            is_proof_type_option(options@),
        ensures
            r == if options@ == ""@ || options@ == "poseidon"@ {
                ProofType::Poseidon
            } else if options@ == "snark_single"@ {
                ProofType::SnarkSingle
            } else {
                ProofType::SnarkAggr
            },
    {
        if str_eq(options, "") || str_eq(options, "poseidon") {
            ProofType::Poseidon
        } else if str_eq(options, "snark_single") {
            ProofType::SnarkSingle
        } else {
            ProofType::SnarkAggr
        }
    }
}

/// A named column of the trace.
pub type Column = (String, Vec<GoldilocksField>);

/// The names of the columns, in order.
pub open spec fn column_names(cols: Seq<Column>) -> Seq<Seq<char>> {
    cols.map_values(|c: Column| c.0@)
}

/// No name occurs twice.
pub open spec fn names_distinct(names: Seq<Seq<char>>) -> bool {
    forall|i: int, j: int| 0 <= i < j < names.len() ==> names[i] != names[j]
}

/// The columns as a map from names to values; a later column of a name replaces an
/// earlier one.
pub open spec fn columns_map(cols: Seq<Column>) -> Map<Seq<char>, Seq<GoldilocksField>>
    decreases cols.len(),
{
    if cols.len() == 0 {
        Map::empty()
    } else {
        columns_map(cols.drop_last()).insert(cols.last().0@, cols.last().1@)
    }
}

/// The position of the column `name`, if there is one.
fn find_column(cols: &Vec<Column>, name: &str) -> (r: Option<usize>)
    ensures
        r matches Some(k) ==> k < cols@.len() && cols@[k as int].0@ == name@,
        r is None ==> forall|k: int| 0 <= k < cols@.len() ==> cols@[k].0@ != name@,
{
    for k in 0..cols.len()
        invariant
            forall|j: int| 0 <= j < k ==> cols@[j].0@ != name@,
    {
        if str_eq(cols[k].0.as_str(), name) {
            return Some(k);
        }
    }
    None
}

proof fn lemma_columns_map_set(cols: Seq<Column>, k: int, c: Column)
    requires
        0 <= k < cols.len(),
        cols[k].0@ == c.0@,
        names_distinct(column_names(cols)),
    ensures
        columns_map(cols.update(k, c)) == columns_map(cols).insert(c.0@, c.1@),
    decreases cols.len(),
{
    let n = cols.len();
    let u = cols.update(k, c);
    if k == n - 1 {
        assert(u.drop_last() =~= cols.drop_last());
        assert(u.last() == c);
        assert(columns_map(cols).insert(c.0@, c.1@) =~= columns_map(cols.drop_last()).insert(c.0@, c.1@));
    } else {
        let pre = cols.drop_last();
        assert(column_names(pre) =~= column_names(cols).drop_last());
        lemma_columns_map_set(pre, k, c);
        assert(u.drop_last() =~= pre.update(k, c));
        assert(u.last() == cols.last());
        assert(column_names(cols)[k] != column_names(cols)[n - 1]);
        assert(columns_map(u) =~= columns_map(cols).insert(c.0@, c.1@));
    }
}

/// Adds a column, replacing the column of the same name if there is one.
fn insert_column(out: &mut Vec<Column>, entry: &Column)
    requires
        names_distinct(column_names(old(out)@)),
    ensures
        names_distinct(column_names(final(out)@)),
        columns_map(final(out)@) == columns_map(old(out)@).insert(entry.0@, entry.1@),
{
    let c: Column = (entry.0.clone(), clone_values(&entry.1));
    match find_column(out, entry.0.as_str()) {
        Some(k) => {
            let ghost before = out@;
            proof {
                lemma_columns_map_set(out@, k as int, c);
            }
            out.set(k, c);
            proof {
                assert(out@ == before.update(k as int, c));
                assert(column_names(out@) =~= column_names(before));
            }
        },
        None => {
            let ghost before = out@;
            out.push(c);
            proof {
                assert(out@.drop_last() =~= before);
                assert(column_names(out@) =~= column_names(before).push(c.0@));
            }
        },
    }
}

/// The columns of `fixed` and then of `witness`, by name: a witness column replaces
/// a fixed column of the same name, and a later column one of the same name before
/// it. Each name occurs once, at the place where it first occurs.
pub fn create_hashmap(fixed: &Vec<Column>, witness: &Vec<Column>) -> (r: Vec<Column>)
    ensures
        names_distinct(column_names(r@)),
        columns_map(r@) == columns_map(fixed@ + witness@),
{
    let mut out: Vec<Column> = Vec::new();
    proof {
        assert(fixed@.take(0) =~= Seq::<Column>::empty());
        assert(column_names(out@) =~= Seq::<Seq<char>>::empty());
    }
    for i in 0..fixed.len()
        invariant
            names_distinct(column_names(out@)),
            columns_map(out@) == columns_map(fixed@.take(i as int)),
    {
        proof {
            assert(fixed@.take(i + 1).drop_last() =~= fixed@.take(i as int));
            assert(fixed@.take(i + 1).last() == fixed@[i as int]);
        }
        insert_column(&mut out, &fixed[i]);
    }
    proof {
        assert(fixed@.take(fixed@.len() as int) =~= fixed@);
        assert(fixed@ + witness@.take(0) =~= fixed@);
    }
    for j in 0..witness.len()
        invariant
            names_distinct(column_names(out@)),
            columns_map(out@) == columns_map(fixed@ + witness@.take(j as int)),
    {
        proof {
            assert((fixed@ + witness@.take(j + 1)).drop_last() =~= fixed@ + witness@.take(j as int));
            assert((fixed@ + witness@.take(j + 1)).last() == witness@[j as int]);
        }
        insert_column(&mut out, &witness[j]);
    }
    proof {
        assert(fixed@ + witness@.take(witness@.len() as int) =~= fixed@ + witness@);
    }
    out
}


/// The values of the columns one after the other.
pub open spec fn flat(cols: Seq<Column>) -> Seq<GoldilocksField>
    decreases cols.len(),
{
    if cols.len() == 0 {
        seq![]
    } else {
        flat(cols.drop_last()) + cols.last().1@
    }
}

/// Where column `k` starts among the flattened values.
pub open spec fn column_offset(cols: Seq<Column>, k: int) -> int {
    flat(cols.take(k)).len() as int
}

/// The trace columns laid out one after the other in one vector, in the order of
/// the given columns.
pub struct GkrMapping {
    data: Vec<Column>,
    flattened: Vec<GoldilocksField>,
    column_offsets: Vec<(String, usize)>,
    num_rows: usize,
}

impl GkrMapping {
    /// The columns.
    pub closed spec fn columns(&self) -> Seq<Column> {
        self.data@
    }

    /// The values of all columns, one column after the other.
    pub closed spec fn flattened(&self) -> Seq<GoldilocksField> {
        self.flattened@
    }

    /// The number of rows: the length of the first column, or 0.
    pub closed spec fn num_rows(&self) -> nat {
        self.num_rows as nat
    }

    /// The offsets of the columns, by name.
    pub closed spec fn offsets(&self) -> Seq<(Seq<char>, usize)> {
        self.column_offsets@.map_values(|o: (String, usize)| (o.0@, o.1))
    }

    /// Lays the columns out one after the other.
    pub fn new(data: Vec<Column>) -> (r: Self)
        requires
            names_distinct(column_names(data@)),
            flat(data@).len() <= usize::MAX,
        ensures
            r.columns() == data@,
            r.flattened() == flat(data@),
            r.num_rows() == if data@.len() > 0 {
                data@[0].1@.len()
            } else {
                0
            },
            r.offsets().len() == data@.len(),
            forall|k: int|
                0 <= k < data@.len() ==> #[trigger] r.offsets()[k] == (data@[k].0@, column_offset(data@, k) as usize),
    {
        let num_rows = if data.len() > 0 {
            data[0].1.len()
        } else {
            0
        };
        let mut flattened: Vec<GoldilocksField> = Vec::new();
        let mut column_offsets: Vec<(String, usize)> = Vec::new();
        let mut current_offset: usize = 0;
        let n = data.len();
        proof {
            assert(data@.take(0) =~= Seq::<Column>::empty());
            lemma_flat_prefix(data@);
        }
        for k in 0..n
            invariant
                n == data@.len(),
                flat(data@).len() <= usize::MAX,
                forall|j: int| 0 <= j <= n ==> flat(#[trigger] data@.take(j)).len() <= flat(data@).len(),
                flattened@ == flat(data@.take(k as int)),
                current_offset == flattened@.len(),
                column_offsets@.len() == k,
                forall|j: int|
                    0 <= j < k ==> (#[trigger] column_offsets@[j]).0@ == data@[j].0@ && column_offsets@[j].1
                        == column_offset(data@, j),
        {
            proof {
                assert(data@.take(k + 1).drop_last() =~= data@.take(k as int));
                assert(data@.take(k + 1).last() == data@[k as int]);
                assert(flat(data@.take(k + 1)).len() <= flat(data@).len());
            }
            column_offsets.push((data[k].0.clone(), current_offset));
            let ghost before = flattened@;
            let col = &data[k].1;
            for t in 0..col.len()
                invariant
                    flattened@ == before + col@.take(t as int),
            {
                flattened.push(col[t]);
                proof {
                    assert(flattened@ =~= before + col@.take(t + 1));
                }
            }
            proof {
                assert(col@.take(col@.len() as int) =~= col@);
            }
            current_offset = current_offset + col.len();
        }
        proof {
            assert(data@.take(n as int) =~= data@);
        }
        let r = GkrMapping { data, flattened, column_offsets, num_rows };
        proof {
            assert forall|k: int| 0 <= k < n implies #[trigger] r.offsets()[k] == (r.data@[k].0@, column_offset(r.data@, k) as usize) by {}
        }
        r
    }

    /// The position of a cell of the named column among the flattened values.
    pub fn index(&self, column_name: &str, row: usize) -> (r: usize)
        requires
            row < self.num_rows(),
            exists|k: int| 0 <= k < self.offsets().len() && (#[trigger] self.offsets()[k]).0 == column_name@,
            forall|k: int|
                0 <= k < self.offsets().len() && (#[trigger] self.offsets()[k]).0 == column_name@ ==> self.offsets()[k].1
                    + row <= usize::MAX,
        ensures
            exists|k: int|
                0 <= k < self.offsets().len() && (#[trigger] self.offsets()[k]).0 == column_name@ && r == self.offsets()[k].1
                    + row && forall|j: int| 0 <= j < k ==> self.offsets()[j].0 != column_name@,
    {
        let n = self.column_offsets.len();
        for k in 0..n
            invariant
                n == self.column_offsets@.len(),
                forall|j: int| 0 <= j < k ==> (#[trigger] self.offsets()[j]).0 != column_name@,
                exists|k: int| 0 <= k < self.offsets().len() && (#[trigger] self.offsets()[k]).0 == column_name@,
                forall|j: int|
                    0 <= j < self.offsets().len() && (#[trigger] self.offsets()[j]).0 == column_name@ ==> self.offsets()[j].1
                        + row <= usize::MAX,
        {
            if str_eq(self.column_offsets[k].0.as_str(), column_name) {
                proof {
                    assert(self.offsets()[k as int].0 == column_name@);
                }
                return self.column_offsets[k].1 + row;
            }
        }
        proof {
            let k = choose|k: int| 0 <= k < self.offsets().len() && (#[trigger] self.offsets()[k]).0 == column_name@;
            assert(self.offsets()[k].0 == column_name@);
        }
        0
    }
}

proof fn lemma_flat_prefix(cols: Seq<Column>)
    ensures
        forall|j: int| 0 <= j <= cols.len() ==> flat(#[trigger] cols.take(j)).len() <= flat(cols).len(),
    decreases cols.len(),
{
    assert(cols.take(cols.len() as int) =~= cols);
    if cols.len() > 0 {
        let pre = cols.drop_last();
        lemma_flat_prefix(pre);
        assert forall|j: int| 0 <= j <= cols.len() implies flat(#[trigger] cols.take(j)).len() <= flat(cols).len() by {
            if j < cols.len() {
                assert(pre.take(j) =~= cols.take(j));
            }
        }
    }
}

} // verus!
