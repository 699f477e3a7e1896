//! Bookkeeping of witness generation: cell indices in the row-major data layout,
//! bit sets of known cells and of prover functions that ran, and the mapping of
//! variables to dense indices.
use vstd::prelude::*;

use crate::field::{fe_text, GoldilocksField, P};
use crate::text::push_str;

verus! {

// ---------------------------------------------------------------------------
// Cell indices
// ---------------------------------------------------------------------------
/// The row `global_offset + local_offset`.
pub open spec fn row_of(global_offset: u64, local_offset: i32) -> int {
    global_offset + local_offset
}

/// The index of a cell in row-major layout with `column_count` columns per row.
pub open spec fn cell_index(
    first_column_id: u64,
    column_count: usize,
    global_offset: u64,
    local_offset: i32,
    column: u64,
) -> int {
    row_of(global_offset, local_offset) * column_count + (column - first_column_id)
}

/// The cell address is representable: the column is not before the first column,
/// the row is not negative and the index fits in the machine types.
pub open spec fn cell_ok(
    first_column_id: u64,
    column_count: usize,
    global_offset: u64,
    local_offset: i32,
    column: u64,
) -> bool {
    &&& first_column_id <= column
    &&& 0 <= row_of(global_offset, local_offset) <= i64::MAX
    &&& 0 <= cell_index(first_column_id, column_count, global_offset, local_offset, column)
        <= usize::MAX
    &&& row_of(global_offset, local_offset) * ((column_count + 31) / 32) + (column
        - first_column_id) / 32 <= u64::MAX
}

/// The position of a cell in the data: row times the number of columns plus the
/// column relative to the first one.
pub fn index(
    first_column_id: u64,
    column_count: usize,
    global_offset: u64,
    local_offset: i32,
    column: u64,
) -> (r: usize)
    requires
        cell_ok(first_column_id, column_count, global_offset, local_offset, column),
    ensures
        r == cell_index(first_column_id, column_count, global_offset, local_offset, column),
{
    let column = column - first_column_id;
    let row: u64 = (global_offset as i128 + local_offset as i128) as u64;
    let cc: u64 = column_count as u64;
    assert(row * cc <= usize::MAX) by (nonlinear_arith)
        requires
            row * cc + column <= usize::MAX,
            column >= 0,
    ;
    (row * cc + column) as usize
}

/// The word and the bit of a cell in a bit set with `ceil(column_count / 32)` 32-bit
/// words per row.
pub fn index_known(
    first_column_id: u64,
    column_count: usize,
    global_offset: u64,
    local_offset: i32,
    column: u64,
) -> (r: (u64, u64))
    requires
        cell_ok(first_column_id, column_count, global_offset, local_offset, column),
    ensures
        r.0 == row_of(global_offset, local_offset) * ((column_count + 31) / 32) + (column
            - first_column_id) / 32,
        r.1 == (column - first_column_id) % 32,
        r.1 < 32,
{
    let column = column - first_column_id;
    let row: u64 = (global_offset as i128 + local_offset as i128) as u64;
    let words_per_row: u64 = ((column_count as u128 + 31) / 32) as u64;
    assert(row * words_per_row <= u64::MAX) by (nonlinear_arith)
        requires
            row * words_per_row + column / 32 <= u64::MAX,
            column / 32 >= 0,
    ;
    (row * words_per_row + column / 32, column % 32)
}

/// Stores `value` into the cell.
pub fn set(
    first_column_id: u64,
    column_count: usize,
    data: &mut Vec<GoldilocksField>,
    global_offset: u64,
    local_offset: i32,
    column: u64,
    value: GoldilocksField,
)
    requires
        cell_ok(first_column_id, column_count, global_offset, local_offset, column),
        cell_index(first_column_id, column_count, global_offset, local_offset, column) < old(
            data,
        )@.len(),
    ensures
        final(data)@ == old(data)@.update(
            cell_index(first_column_id, column_count, global_offset, local_offset, column),
            value,
        ),
{
    let i = index(first_column_id, column_count, global_offset, local_offset, column);
    data.set(i, value);
}

/// Marks the cell as known in the bit set.
pub fn set_known(
    first_column_id: u64,
    column_count: usize,
    known: &mut Vec<u32>,
    global_offset: u64,
    local_offset: i32,
    column: u64,
)
    requires
        cell_ok(first_column_id, column_count, global_offset, local_offset, column),
        row_of(global_offset, local_offset) * ((column_count + 31) / 32) + (column
            - first_column_id) / 32 < old(known)@.len(),
    ensures
        ({
            let w = row_of(global_offset, local_offset) * ((column_count + 31) / 32) + (column
                - first_column_id) / 32;
            let b = ((column - first_column_id) % 32) as u32;
            final(known)@ == old(known)@.update(w, old(known)@[w] | (1u32 << b))
        }),
{
    let (idx, bit) = index_known(first_column_id, column_count, global_offset, local_offset, column);
    let i = idx as usize;
    let b = bit as u32;
    let word = known[i] | (1u32 << b);
    known.set(i, word);
}

// ---------------------------------------------------------------------------
// Prover functions that ran
// ---------------------------------------------------------------------------
/// Which prover functions already ran on which row, as a bit set with
/// `function_count` bits per row.
pub struct ProcessedProverFunctions {
    data: Vec<u8>,
    function_count: usize,
}

/// Whether bit `i` of the byte list is set.
pub open spec fn bit_set(data: Seq<u8>, i: int) -> bool {
    0 <= i && i / 8 < data.len() && data[i / 8] & (1u8 << ((i % 8) as u8)) != 0
}

impl ProcessedProverFunctions {
    /// The bit of the prover function on the row.
    pub closed spec fn bit_of(self, row_index: usize, function_index: usize) -> int {
        row_index * self.function_count + function_index
    }

    /// Whether the prover function ran on the row.
    pub closed spec fn ran(self, row_index: usize, function_index: usize) -> bool {
        bit_set(self.data@, self.bit_of(row_index, function_index))
    }

    /// The number of prover functions per row.
    pub closed spec fn count(self) -> usize {
        self.function_count
    }

    /// Two different pairs of row and function, with the functions below the count,
    /// have different bits.
    pub proof fn law_distinct_pairs_have_distinct_bits(self, r1: usize, f1: usize, r2: usize, f2: usize)
        requires
            f1 < self.count(),
            f2 < self.count(),
            (r1, f1) != (r2, f2),
        ensures
            self.bit_of(r1, f1) != self.bit_of(r2, f2),
    {
        let c = self.function_count as int;
        if r1 == r2 {
        } else if r1 < r2 {
            assert(r1 * c + f1 < r2 * c + f2) by (nonlinear_arith)
                requires
                    r1 < r2,
                    0 <= f1 < c,
                    0 <= f2,
            ;
        } else {
            assert(r2 * c + f2 < r1 * c + f1) by (nonlinear_arith)
                requires
                    r2 < r1,
                    0 <= f2 < c,
                    0 <= f1,
            ;
        }
    }

    /// The bit of the pair fits the machine word.
    pub open spec fn fits(self, row_index: usize, function_index: usize) -> bool {
        row_index * self.count() + function_index <= usize::MAX
    }

    /// Nothing ran yet.
    pub fn new(prover_function_count: usize) -> (r: Self)
        ensures
            r.count() == prover_function_count,
            forall|row: usize, f: usize| !r.ran(row, f),
    {
        ProcessedProverFunctions { data: Vec::new(), function_count: prover_function_count }
    }

    /// The byte and the bit of the pair.
    fn index_for(&self, row_index: usize, function_index: usize) -> (r: (usize, usize))
        requires
            self.fits(row_index, function_index),
        ensures
            r.0 == self.bit_of(row_index, function_index) / 8,
            r.1 == self.bit_of(row_index, function_index) % 8,
    {
        assert(row_index * self.function_count <= usize::MAX) by (nonlinear_arith)
            requires
                row_index * self.function_count + function_index <= usize::MAX,
                function_index >= 0,
        ;
        let index = row_index * self.function_count + function_index;
        (index / 8, index % 8)
    }

    /// Whether the prover function ran on the row.
    pub fn has_run(&self, row_index: usize, function_index: usize) -> (r: bool)
        requires
            self.fits(row_index, function_index),
        ensures
            r == self.ran(row_index, function_index),
    {
        let (el, bit) = self.index_for(row_index, function_index);
        if el < self.data.len() {
            let b: u8 = bit as u8;
            self.data[el] & (1u8 << b) != 0
        } else {
            false
        }
    }

    /// Records that the prover function ran on the row.
    pub fn mark_as_run(&mut self, row_index: usize, function_index: usize)
        requires
            old(self).fits(row_index, function_index),
        ensures
            final(self).count() == old(self).count(),
            final(self).ran(row_index, function_index),
            forall|row: usize, f: usize|
                old(self).bit_of(row, f) != old(self).bit_of(row_index, function_index) ==> (
                final(self).ran(row, f) <==> old(self).ran(row, f)),
            function_index < old(self).count() ==> forall|row: usize, f: usize|
                f < old(self).count() && (row, f) != (row_index, function_index) ==> (final(self).ran(
                    row,
                    f,
                ) <==> old(self).ran(row, f)),
    {
        proof {
            assert forall|row: usize, f: usize|
                function_index < self.count() && f < self.count() && (row, f) != (row_index, function_index)
                    implies self.bit_of(row, f) != self.bit_of(row_index, function_index) by {
                self.law_distinct_pairs_have_distinct_bits(row, f, row_index, function_index);
            }
        }
        let (el, bit) = self.index_for(row_index, function_index);
        let ghost target = self.bit_of(row_index, function_index);
        let ghost before = self.data@;
        let ghost fc = self.function_count;
        if el >= self.data.len() {
            let n = self.data.len();
            for _j in n..el + 1
                invariant
                    n == before.len(),
                    self.function_count == fc,
                    self.data@.len() == _j,
                    forall|x: int| 0 <= x < before.len() ==> self.data@[x] == before[x],
                    forall|x: int| before.len() <= x < _j ==> self.data@[x] == 0u8,
            {
                self.data.push(0u8);
            }
        }
        let ghost mid = self.data@;
        assert(el < mid.len());
        assert(forall|x: int| 0 <= x < before.len() ==> mid[x] == before[x]);
        assert(forall|x: int| before.len() <= x < mid.len() ==> mid[x] == 0u8);
        let b: u8 = bit as u8;
        let byte = self.data[el] | (1u8 << b);
        self.data.set(el, byte);
        proof {
            let old_byte = mid[el as int];
            assert((old_byte | (1u8 << b)) & (1u8 << b) != 0) by (bit_vector)
                requires
                    b < 8,
            ;
            assert forall|row: usize, f: usize|
                self.bit_of(row, f) != target implies (self.ran(row, f) <==> bit_set(
                    before,
                    self.bit_of(row, f),
                )) by {
                let i = self.bit_of(row, f);
                if i >= 0 {
                    let k: u8 = (i % 8) as u8;
                    if i / 8 == el {
                        assert(k != b);
                        assert(((old_byte | (1u8 << b)) & (1u8 << k) != 0) == (old_byte & (1u8
                            << k) != 0)) by (bit_vector)
                            requires
                                b < 8,
                                k < 8,
                                k != b,
                        ;
                    }
                    if i / 8 < before.len() {
                        assert(mid[i / 8] == before[i / 8]);
                    } else if i / 8 < mid.len() {
                        assert(mid[i / 8] == 0u8);
                        assert((0u8 & (1u8 << k)) == 0) by (bit_vector);
                    }
                }
            }
        }
    }
}

// ---------------------------------------------------------------------------
// Summaries
// ---------------------------------------------------------------------------
/// Summary of the effect of processing an action.
pub struct ProcessSummary {
    /// The action has been fully completed, processing it again will not have any effect.
    pub complete: bool,
    /// Processing the action changed the state of the inference.
    pub progress: bool,
}

/// The result of processing an identity.
pub struct IdentityResult {
    /// Whether any progress was made by processing the identity.
    pub progress: bool,
    /// Whether the identity is complete (all referenced values are known).
    pub is_complete: bool,
}

/// What is known about a value during inference.
#[derive(Clone, Copy, Debug)]
pub enum Value {
    Concrete(GoldilocksField),
    Known,
    Unknown,
}

impl Value {
    /// The text of the value: the number, `<known>` or `???`.
    pub fn to_string(&self) -> (r: String)
        requires
            self matches Value::Concrete(v) ==> v.wf(),
        ensures
            r@ == match *self {
                Value::Concrete(v) => fe_text(v.val()),
                Value::Known => seq!['<', 'k', 'n', 'o', 'w', 'n', '>'],
                Value::Unknown => seq!['?', '?', '?'],
            },
    {
        match self {
            Value::Concrete(v) => v.to_string(),
            Value::Known => {
                let mut s = String::new();
                push_str(&mut s, "<known>");
                proof {
                    reveal_strlit("<known>");
                    assert(s@ =~= seq!['<', 'k', 'n', 'o', 'w', 'n', '>']);
                }
                s
            },
            Value::Unknown => {
                let mut s = String::new();
                push_str(&mut s, "???");
                proof {
                    reveal_strlit("???");
                    assert(s@ =~= seq!['?', '?', '?']);
                }
                s
            },
        }
    }
}


// ---------------------------------------------------------------------------
// The binary machine shortcut
// ---------------------------------------------------------------------------
/// A column of the binary machine: the two operands and the result, their bytes,
/// and the operation.
#[derive(Clone, Copy, Debug, PartialEq, Eq, Structural)]
pub enum BinaryColumn {
    A,
    B,
    C,
    AByte,
    BByte,
    CByte,
    OperationId,
}

/// The result of operation `op` (0: and, 1: or, 2: xor).
pub open spec fn binary_result(op: u64, a: u64, b: u64) -> u64 {
    if op == 0 {
        a & b
    } else if op == 1 {
        a | b
    } else {
        a ^ b
    }
}

/// A number as a field element.
pub open spec fn fe_of(x: u64) -> GoldilocksField {
    GoldilocksField(x % P)
}

/// The values that a latch row of the binary machine determines, as (rows before
/// the latch, column, value): the result in the latch row; in the three rows before
/// it the operands and the result cut to their low 3, 2 and 1 bytes, the byte above
/// those, and the operation; and in the fourth row before it the lowest bytes.
pub open spec fn binary_updates(op: GoldilocksField, a: u64, b: u64) -> Seq<(usize, BinaryColumn, GoldilocksField)> {
    let c = binary_result(op.0, a, b);
    seq![
        (0usize, BinaryColumn::C, fe_of(c)),
        (1usize, BinaryColumn::A, fe_of(a & 0xffffff)),
        (1usize, BinaryColumn::B, fe_of(b & 0xffffff)),
        (1usize, BinaryColumn::C, fe_of(c & 0xffffff)),
        (1usize, BinaryColumn::AByte, fe_of((a >> 24u64) & 0xff)),
        (1usize, BinaryColumn::BByte, fe_of((b >> 24u64) & 0xff)),
        (1usize, BinaryColumn::CByte, fe_of((c >> 24u64) & 0xff)),
        (1usize, BinaryColumn::OperationId, op),
        (2usize, BinaryColumn::A, fe_of(a & 0xffff)),
        (2usize, BinaryColumn::B, fe_of(b & 0xffff)),
        (2usize, BinaryColumn::C, fe_of(c & 0xffff)),
        (2usize, BinaryColumn::AByte, fe_of((a >> 16u64) & 0xff)),
        (2usize, BinaryColumn::BByte, fe_of((b >> 16u64) & 0xff)),
        (2usize, BinaryColumn::CByte, fe_of((c >> 16u64) & 0xff)),
        (2usize, BinaryColumn::OperationId, op),
        (3usize, BinaryColumn::A, fe_of(a & 0xff)),
        (3usize, BinaryColumn::B, fe_of(b & 0xff)),
        (3usize, BinaryColumn::C, fe_of(c & 0xff)),
        (3usize, BinaryColumn::AByte, fe_of((a >> 8u64) & 0xff)),
        (3usize, BinaryColumn::BByte, fe_of((b >> 8u64) & 0xff)),
        (3usize, BinaryColumn::CByte, fe_of((c >> 8u64) & 0xff)),
        (3usize, BinaryColumn::OperationId, op),
        (4usize, BinaryColumn::AByte, fe_of(a & 0xff)),
        (4usize, BinaryColumn::BByte, fe_of(b & 0xff)),
        (4usize, BinaryColumn::CByte, fe_of(c & 0xff)),
    ]
}

fn push_update(out: &mut Vec<(usize, BinaryColumn, GoldilocksField)>, back: usize, col: BinaryColumn, x: u64)
    ensures
        final(out)@ == old(out)@.push((back, col, fe_of(x))),
{
    out.push((back, col, GoldilocksField::from_u64(x)));
}

/// The shortcut for the binary machine: at a latch row (row number 3 modulo 4)
/// with operation 0, 1 or 2 (and, or, xor), the values of the latch row and of
/// the four rows before it; otherwise `None`.
pub fn binary_machine_updates(row_nr: u64, op: GoldilocksField, a: GoldilocksField, b: GoldilocksField) -> (r: Option<
    Vec<(usize, BinaryColumn, GoldilocksField)>,
>)
    requires
        op.wf(),
    ensures
        r is Some <==> (row_nr % 4 == 3 && op.0 <= 2),
        r matches Some(v) ==> v@ == binary_updates(op, a.0, b.0),
{
    if row_nr % 4 != 3 {
        return None;
    }
    let a_v = a.to_integer();
    let b_v = b.to_integer();
    let c_v = if op.0 == 0 {
        a_v & b_v
    } else if op.0 == 1 {
        a_v | b_v
    } else if op.0 == 2 {
        a_v ^ b_v
    } else {
        return None;
    };
    let mut out: Vec<(usize, BinaryColumn, GoldilocksField)> = Vec::new();
    push_update(&mut out, 0, BinaryColumn::C, c_v);
    push_update(&mut out, 1, BinaryColumn::A, a_v & 0xffffff);
    push_update(&mut out, 1, BinaryColumn::B, b_v & 0xffffff);
    push_update(&mut out, 1, BinaryColumn::C, c_v & 0xffffff);
    push_update(&mut out, 1, BinaryColumn::AByte, (a_v >> 24) & 0xff);
    push_update(&mut out, 1, BinaryColumn::BByte, (b_v >> 24) & 0xff);
    push_update(&mut out, 1, BinaryColumn::CByte, (c_v >> 24) & 0xff);
    out.push((1, BinaryColumn::OperationId, op));
    push_update(&mut out, 2, BinaryColumn::A, a_v & 0xffff);
    push_update(&mut out, 2, BinaryColumn::B, b_v & 0xffff);
    push_update(&mut out, 2, BinaryColumn::C, c_v & 0xffff);
    push_update(&mut out, 2, BinaryColumn::AByte, (a_v >> 16) & 0xff);
    push_update(&mut out, 2, BinaryColumn::BByte, (b_v >> 16) & 0xff);
    push_update(&mut out, 2, BinaryColumn::CByte, (c_v >> 16) & 0xff);
    out.push((2, BinaryColumn::OperationId, op));
    push_update(&mut out, 3, BinaryColumn::A, a_v & 0xff);
    push_update(&mut out, 3, BinaryColumn::B, b_v & 0xff);
    push_update(&mut out, 3, BinaryColumn::C, c_v & 0xff);
    push_update(&mut out, 3, BinaryColumn::AByte, (a_v >> 8) & 0xff);
    push_update(&mut out, 3, BinaryColumn::BByte, (b_v >> 8) & 0xff);
    push_update(&mut out, 3, BinaryColumn::CByte, (c_v >> 8) & 0xff);
    out.push((3, BinaryColumn::OperationId, op));
    push_update(&mut out, 4, BinaryColumn::AByte, a_v & 0xff);
    push_update(&mut out, 4, BinaryColumn::BByte, b_v & 0xff);
    push_update(&mut out, 4, BinaryColumn::CByte, c_v & 0xff);
    proof {
        assert(out@ =~= binary_updates(op, a.0, b.0));
    }
    Some(out)
}


/// Distinct cells of the machine's columns have distinct positions in the data:
/// two cells at the same position are in the same row and the same column.
pub proof fn law_cell_index_injective(
    first_column_id: u64,
    column_count: usize,
    g1: u64,
    l1: i32,
    c1: u64,
    g2: u64,
    l2: i32,
    c2: u64,
)
    requires
        first_column_id <= c1 < first_column_id + column_count,
        first_column_id <= c2 < first_column_id + column_count,
        row_of(g1, l1) >= 0,
        row_of(g2, l2) >= 0,
        cell_index(first_column_id, column_count, g1, l1, c1) == cell_index(
            first_column_id,
            column_count,
            g2,
            l2,
            c2,
        ),
    ensures
        row_of(g1, l1) == row_of(g2, l2),
        c1 == c2,
{
    let n = column_count as int;
    let r1 = row_of(g1, l1);
    let r2 = row_of(g2, l2);
    let x1 = c1 - first_column_id;
    let x2 = c2 - first_column_id;
    let v = r1 * n + x1;
    vstd::arithmetic::div_mod::lemma_fundamental_div_mod_converse(v, n, r1, x1);
    vstd::arithmetic::div_mod::lemma_fundamental_div_mod_converse(v, n, r2, x2);
}

/// The value written to `col` in the row `back` rows before the latch, if any (the
/// first such entry).
pub open spec fn written(v: Seq<(usize, BinaryColumn, GoldilocksField)>, back: usize, col: BinaryColumn) -> Option<u64>
    decreases v.len(),
{
    if v.len() == 0 {
        None
    } else if v[0].0 == back && v[0].1 == col {
        Some(v[0].2.0)
    } else {
        written(v.drop_first(), back, col)
    }
}

/// The value written to `col` in the row `back` rows before the latch, or -1.
pub open spec fn cell(v: Seq<(usize, BinaryColumn, GoldilocksField)>, back: usize, col: BinaryColumn) -> int {
    match written(v, back, col) {
        Some(x) => x as int,
        None => -1,
    }
}

/// How the rows before a latch take a 32-bit value `x` apart, in the column `whole`
/// for the low part and `byte` for the next byte: row 1 holds the low three bytes
/// and the top byte, row 2 the low two bytes and the third, row 3 the low byte and
/// the second, row 4 the low byte. Each row's low part is the next row's low part
/// with the row's byte put on top.
pub open spec fn takes_apart(
    v: Seq<(usize, BinaryColumn, GoldilocksField)>,
    whole: BinaryColumn,
    byte: BinaryColumn,
    x: int,
) -> bool {
    &&& cell(v, 1, whole) + cell(v, 1, byte) * 0x100_0000 == x
    &&& cell(v, 2, whole) + cell(v, 2, byte) * 0x1_0000 == cell(v, 1, whole)
    &&& cell(v, 3, whole) + cell(v, 3, byte) * 0x100 == cell(v, 2, whole)
    &&& cell(v, 4, byte) == cell(v, 3, whole)
    &&& 0 <= cell(v, 1, byte) < 0x100
    &&& 0 <= cell(v, 2, byte) < 0x100
    &&& 0 <= cell(v, 3, byte) < 0x100
    &&& 0 <= cell(v, 4, byte) < 0x100
}

/// Each result byte in row `k` is the operation applied to the operands' bytes.
pub open spec fn bytes_combine(v: Seq<(usize, BinaryColumn, GoldilocksField)>, op: u64, k: usize) -> bool {
    cell(v, k, BinaryColumn::CByte) == binary_result(
        op,
        cell(v, k, BinaryColumn::AByte) as u64,
        cell(v, k, BinaryColumn::BByte) as u64,
    )
}

/// The binary machine shortcut on 32-bit operands: the latch row holds the result,
/// and the four rows before it take both operands and the result apart byte by
/// byte, each result byte being the operation applied to the operands' bytes, with
/// the operation repeated in rows 1 to 3.
#[verifier::spinoff_prover]
pub proof fn law_binary_rows_take_operands_apart(op: GoldilocksField, a: u64, b: u64)
    requires
        op.0 <= 2,
        a < 0x1_0000_0000,
        b < 0x1_0000_0000,
    ensures
        ({
            let v = binary_updates(op, a, b);
            let c = binary_result(op.0, a, b);
            &&& cell(v, 0, BinaryColumn::C) == c
            &&& takes_apart(v, BinaryColumn::A, BinaryColumn::AByte, a as int)
            &&& takes_apart(v, BinaryColumn::B, BinaryColumn::BByte, b as int)
            &&& takes_apart(v, BinaryColumn::C, BinaryColumn::CByte, c as int)
            &&& bytes_combine(v, op.0, 1)
            &&& bytes_combine(v, op.0, 2)
            &&& bytes_combine(v, op.0, 3)
            &&& bytes_combine(v, op.0, 4)
            &&& cell(v, 1, BinaryColumn::OperationId) == op.0
            &&& cell(v, 2, BinaryColumn::OperationId) == op.0
            &&& cell(v, 3, BinaryColumn::OperationId) == op.0
        }),
{
    let v = binary_updates(op, a, b);
    let c = binary_result(op.0, a, b);
    lemma_bytes_of(a);
    lemma_bytes_of(b);
    lemma_byte_ops(a, b);
    assert(c < 0x1_0000_0000);
    lemma_bytes_of(c);
    lemma_cells_latch_and_row1(op, a, b);
    lemma_cells_row2(op, a, b);
    lemma_cells_row3(op, a, b);
    lemma_cells_row4(op, a, b);
    if op.0 == 0 {
        assert(c == a & b);
    } else if op.0 == 1 {
        assert(c == a | b);
    } else {
        assert(c == a ^ b);
    }
}

/// A value below 2^32 is its own field element.
proof fn lemma_fe_of_small(x: u64)
    requires
        x < 0x1_0000_0000,
    ensures
        fe_of(x).0 == x,
{
}

#[verifier::spinoff_prover]
proof fn lemma_cells_latch_and_row1(op: GoldilocksField, a: u64, b: u64)
    requires
        op.0 <= 2,
        a < 0x1_0000_0000,
        b < 0x1_0000_0000,
    ensures
        cell(binary_updates(op, a, b), 0, BinaryColumn::C) == (binary_result(op.0, a, b)) as int,
        cell(binary_updates(op, a, b), 1, BinaryColumn::A) == (a & 0xffffff) as int,
        cell(binary_updates(op, a, b), 1, BinaryColumn::B) == (b & 0xffffff) as int,
        cell(binary_updates(op, a, b), 1, BinaryColumn::C) == (binary_result(op.0, a, b) & 0xffffff) as int,
        cell(binary_updates(op, a, b), 1, BinaryColumn::AByte) == ((a >> 24u64) & 0xff) as int,
        cell(binary_updates(op, a, b), 1, BinaryColumn::BByte) == ((b >> 24u64) & 0xff) as int,
        cell(binary_updates(op, a, b), 1, BinaryColumn::CByte) == ((binary_result(op.0, a, b) >> 24u64) & 0xff) as int,
        cell(binary_updates(op, a, b), 1, BinaryColumn::OperationId) == op.0,
{
    let c = binary_result(op.0, a, b);
    lemma_bytes_of(a);
    lemma_bytes_of(b);
    lemma_byte_ops(a, b);
    lemma_bytes_of(c);
    lemma_fe_of_small(c);
    lemma_fe_of_small(a & 0xffffff);
    lemma_fe_of_small(b & 0xffffff);
    lemma_fe_of_small(c & 0xffffff);
    lemma_fe_of_small((a >> 24u64) & 0xff);
    lemma_fe_of_small((b >> 24u64) & 0xff);
    lemma_fe_of_small((c >> 24u64) & 0xff);
    reveal_with_fuel(written, 26);
}

#[verifier::spinoff_prover]
proof fn lemma_cells_row2(op: GoldilocksField, a: u64, b: u64)
    requires
        op.0 <= 2,
        a < 0x1_0000_0000,
        b < 0x1_0000_0000,
    ensures
        cell(binary_updates(op, a, b), 2, BinaryColumn::A) == (a & 0xffff) as int,
        cell(binary_updates(op, a, b), 2, BinaryColumn::B) == (b & 0xffff) as int,
        cell(binary_updates(op, a, b), 2, BinaryColumn::C) == (binary_result(op.0, a, b) & 0xffff) as int,
        cell(binary_updates(op, a, b), 2, BinaryColumn::AByte) == ((a >> 16u64) & 0xff) as int,
        cell(binary_updates(op, a, b), 2, BinaryColumn::BByte) == ((b >> 16u64) & 0xff) as int,
        cell(binary_updates(op, a, b), 2, BinaryColumn::CByte) == ((binary_result(op.0, a, b) >> 16u64) & 0xff) as int,
        cell(binary_updates(op, a, b), 2, BinaryColumn::OperationId) == op.0,
{
    let c = binary_result(op.0, a, b);
    lemma_bytes_of(a);
    lemma_bytes_of(b);
    lemma_byte_ops(a, b);
    lemma_bytes_of(c);
    lemma_fe_of_small(a & 0xffff);
    lemma_fe_of_small(b & 0xffff);
    lemma_fe_of_small(c & 0xffff);
    lemma_fe_of_small((a >> 16u64) & 0xff);
    lemma_fe_of_small((b >> 16u64) & 0xff);
    lemma_fe_of_small((c >> 16u64) & 0xff);
    reveal_with_fuel(written, 26);
}

#[verifier::spinoff_prover]
#[verifier::rlimit(40)]
proof fn lemma_cells_row3(op: GoldilocksField, a: u64, b: u64)
    requires
        op.0 <= 2,
        a < 0x1_0000_0000,
        b < 0x1_0000_0000,
    ensures
        cell(binary_updates(op, a, b), 3, BinaryColumn::A) == (a & 0xff) as int,
        cell(binary_updates(op, a, b), 3, BinaryColumn::B) == (b & 0xff) as int,
        cell(binary_updates(op, a, b), 3, BinaryColumn::C) == (binary_result(op.0, a, b) & 0xff) as int,
        cell(binary_updates(op, a, b), 3, BinaryColumn::AByte) == ((a >> 8u64) & 0xff) as int,
        cell(binary_updates(op, a, b), 3, BinaryColumn::BByte) == ((b >> 8u64) & 0xff) as int,
        cell(binary_updates(op, a, b), 3, BinaryColumn::CByte) == ((binary_result(op.0, a, b) >> 8u64) & 0xff) as int,
        cell(binary_updates(op, a, b), 3, BinaryColumn::OperationId) == op.0,
{
    let c = binary_result(op.0, a, b);
    lemma_bytes_of(a);
    lemma_bytes_of(b);
    lemma_byte_ops(a, b);
    lemma_bytes_of(c);
    lemma_fe_of_small(a & 0xff);
    lemma_fe_of_small(b & 0xff);
    lemma_fe_of_small(c & 0xff);
    lemma_fe_of_small((a >> 8u64) & 0xff);
    lemma_fe_of_small((b >> 8u64) & 0xff);
    lemma_fe_of_small((c >> 8u64) & 0xff);
    reveal_with_fuel(written, 26);
}

#[verifier::spinoff_prover]
proof fn lemma_cells_row4(op: GoldilocksField, a: u64, b: u64)
    requires
        op.0 <= 2,
        a < 0x1_0000_0000,
        b < 0x1_0000_0000,
    ensures
        cell(binary_updates(op, a, b), 4, BinaryColumn::AByte) == (a & 0xff) as int,
        cell(binary_updates(op, a, b), 4, BinaryColumn::BByte) == (b & 0xff) as int,
        cell(binary_updates(op, a, b), 4, BinaryColumn::CByte) == (binary_result(op.0, a, b) & 0xff) as int,
{
    let c = binary_result(op.0, a, b);
    lemma_bytes_of(a);
    lemma_bytes_of(b);
    lemma_byte_ops(a, b);
    lemma_bytes_of(c);
    lemma_fe_of_small(a & 0xff);
    lemma_fe_of_small(b & 0xff);
    lemma_fe_of_small(c & 0xff);
    reveal_with_fuel(written, 26);
}

/// The bytes of a 32-bit value and its low parts.
proof fn lemma_bytes_of(x: u64)
    by (bit_vector)
    requires
        x < 0x1_0000_0000,
    ensures
        (x & 0xffffff) + ((x >> 24u64) & 0xff) * 0x100_0000 == x,
        (x & 0xffff) + ((x >> 16u64) & 0xff) * 0x1_0000 == x & 0xffffff,
        (x & 0xff) + ((x >> 8u64) & 0xff) * 0x100 == x & 0xffff,
        (x & 0xffffff) < 0x1_0000_0000,
        ((x >> 24u64) & 0xff) < 0x100,
        ((x >> 16u64) & 0xff) < 0x100,
        ((x >> 8u64) & 0xff) < 0x100,
        (x & 0xff) < 0x100,
{
}

/// The operations work byte by byte, and keep values below 2^32.
proof fn lemma_byte_ops(a: u64, b: u64)
    by (bit_vector)
    requires
        a < 0x1_0000_0000,
        b < 0x1_0000_0000,
    ensures
        a & b < 0x1_0000_0000,
        a | b < 0x1_0000_0000,
        a ^ b < 0x1_0000_0000,
        ((a & b) >> 24u64) & 0xff == ((a >> 24u64) & 0xff) & ((b >> 24u64) & 0xff),
        ((a & b) >> 16u64) & 0xff == ((a >> 16u64) & 0xff) & ((b >> 16u64) & 0xff),
        ((a & b) >> 8u64) & 0xff == ((a >> 8u64) & 0xff) & ((b >> 8u64) & 0xff),
        (a & b) & 0xff == (a & 0xff) & (b & 0xff),
        ((a | b) >> 24u64) & 0xff == ((a >> 24u64) & 0xff) | ((b >> 24u64) & 0xff),
        ((a | b) >> 16u64) & 0xff == ((a >> 16u64) & 0xff) | ((b >> 16u64) & 0xff),
        ((a | b) >> 8u64) & 0xff == ((a >> 8u64) & 0xff) | ((b >> 8u64) & 0xff),
        (a | b) & 0xff == (a & 0xff) | (b & 0xff),
        ((a ^ b) >> 24u64) & 0xff == ((a >> 24u64) & 0xff) ^ ((b >> 24u64) & 0xff),
        ((a ^ b) >> 16u64) & 0xff == ((a >> 16u64) & 0xff) ^ ((b >> 16u64) & 0xff),
        ((a ^ b) >> 8u64) & 0xff == ((a >> 8u64) & 0xff) ^ ((b >> 8u64) & 0xff),
        (a ^ b) & 0xff == (a & 0xff) ^ (b & 0xff),
{
}

} // verus!
