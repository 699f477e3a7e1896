//! Columns of values that may exist in several sizes.
use vstd::prelude::*;

verus! {

/// A column that exists in more than one size (or in none) where a single size was
/// expected.
#[derive(Debug)]
pub struct HasMultipleSizesError;

/// Like a list of named columns, but each column can exist in multiple sizes: each
/// column name comes with its sizes and the values of each size.
pub struct VariablySizedColumns<F> {
    columns: Vec<(String, Vec<(usize, Vec<F>)>)>,
}

impl<F> VariablySizedColumns<F> {
    /// No column is given twice in one size: each column's sizes are the keys of a
    /// map from size to values.
    pub open spec fn sizes_distinct(columns: Seq<(String, Vec<(usize, Vec<F>)>)>) -> bool {
        forall|i: int, j: int, k: int|
            #![trigger columns[i].1@[j], columns[i].1@[k]]
            0 <= i < columns.len() && 0 <= j < k < columns[i].1@.len() ==> columns[i].1@[j].0
                != columns[i].1@[k].0
    }

    #[verifier::type_invariant]
    closed spec fn wf(self) -> bool {
        Self::sizes_distinct(self.columns@)
    }
}

impl<F: Copy> VariablySizedColumns<F> {
    /// The columns with their sizes and values.
    pub closed spec fn columns(self) -> Seq<(String, Vec<(usize, Vec<F>)>)> {
        self.columns@
    }

    /// Whether every column exists in exactly one size.
    pub open spec fn all_single_sized(self) -> bool {
        forall|i: int| 0 <= i < self.columns().len() ==> (#[trigger] self.columns()[i]).1@.len() == 1
    }

    /// The columns, each with the values of each of its sizes.
    pub fn new(columns: Vec<(String, Vec<(usize, Vec<F>)>)>) -> (r: Self)
        requires
            Self::sizes_distinct(columns@),
        ensures
            r.columns() == columns@,
    {
        VariablySizedColumns { columns }
    }

    /// A view in which each column has a single size: name and values. Fails if a
    /// column has several sizes (or none).
    pub fn get_only_size(&self) -> (r: Result<Vec<(String, &Vec<F>)>, HasMultipleSizesError>)
        ensures
            r is Ok <==> self.all_single_sized(),
            r matches Ok(v) ==> v@.len() == self.columns().len() && forall|i: int|
                0 <= i < v@.len() ==> (#[trigger] v@[i]).0@ == self.columns()[i].0@ && *v@[i].1
                    == self.columns()[i].1@[0].1,
    {
        let n = self.columns.len();
        let mut out: Vec<(String, &Vec<F>)> = Vec::new();
        for i in 0..n
            invariant
                n == self.columns@.len(),
                out@.len() == i,
                forall|j: int| 0 <= j < i ==> (#[trigger] self.columns@[j]).1@.len() == 1,
                forall|j: int|
                    0 <= j < i ==> (#[trigger] out@[j]).0@ == self.columns@[j].0@ && *out@[j].1
                        == self.columns@[j].1@[0].1,
        {
            let (name, by_size) = &self.columns[i];
            if by_size.len() != 1 {
                proof {
                    assert(self.columns()[i as int].1@.len() != 1);
                }
                return Err(HasMultipleSizesError);
            }
            out.push((name.clone(), &by_size[0].1));
        }
        Ok(out)
    }

    /// Like `get_only_size`, but with copies of the values.
    pub fn get_only_size_cloned(&self) -> (r: Result<Vec<(String, Vec<F>)>, HasMultipleSizesError>)
        ensures
            r is Ok <==> self.all_single_sized(),
            r matches Ok(v) ==> v@.len() == self.columns().len() && forall|i: int|
                0 <= i < v@.len() ==> (#[trigger] v@[i]).0@ == self.columns()[i].0@ && v@[i].1@
                    == self.columns()[i].1@[0].1@,
    {
        let view = match self.get_only_size() {
            Ok(v) => v,
            Err(e) => {
                return Err(e);
            },
        };
        let n = view.len();
        let mut out: Vec<(String, Vec<F>)> = Vec::new();
        for i in 0..n
            invariant
                n == view@.len(),
                out@.len() == i,
                forall|j: int|
                    0 <= j < i ==> (#[trigger] out@[j]).0@ == view@[j].0@ && out@[j].1@
                        == view@[j].1@,
        {
            let (name, values) = &view[i];
            out.push((name.clone(), copy_values(values)));
        }
        Ok(out)
    }

    /// The number of columns.
    pub fn len(&self) -> (r: usize)
        ensures
            r == self.columns().len(),
    {
        self.columns.len()
    }

    /// Whether there are no columns.
    pub fn is_empty(&self) -> (r: bool)
        ensures
            r == (self.columns().len() == 0),
    {
        self.columns.len() == 0
    }
}

fn copy_values<F: Copy>(v: &Vec<F>) -> (r: Vec<F>)
    ensures
        r@ == v@,
{
    let mut r: Vec<F> = Vec::new();
    let n = v.len();
    for i in 0..n
        invariant
            n == v@.len(),
            r@ == v@.subrange(0, i as int),
    {
        r.push(v[i]);
        proof {
            assert(r@ =~= v@.subrange(0, i + 1));
        }
    }
    proof {
        assert(r@ =~= v@);
    }
    r
}

} // verus!
