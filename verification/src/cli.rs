//! Command-line values: field choices, CSV render modes, and inputs given as a
//! comma-separated list of numbers.
use vstd::prelude::*;

use crate::field::{modulus, GoldilocksField};

verus! {

/// Unicode white space, as `char::is_whitespace` defines it.
pub open spec fn is_ws(c: char) -> bool {
    let u = c as u32;
    (0x9 <= u <= 0xd) || u == 0x20 || u == 0x85 || u == 0xa0 || u == 0x1680 || (0x2000 <= u
        <= 0x200a) || u == 0x2028 || u == 0x2029 || u == 0x202f || u == 0x205f || u == 0x3000
}

/// The text without leading white space.
pub open spec fn trim_start(s: Seq<char>) -> Seq<char>
    decreases s.len(),
{
    if s.len() > 0 && is_ws(s[0]) {
        trim_start(s.skip(1))
    } else {
        s
    }
}

/// The text without trailing white space.
pub open spec fn trim_end(s: Seq<char>) -> Seq<char>
    decreases s.len(),
{
    if s.len() > 0 && is_ws(s.last()) {
        trim_end(s.drop_last())
    } else {
        s
    }
}

/// The text without leading and trailing white space.
pub open spec fn trim(s: Seq<char>) -> Seq<char> {
    trim_end(trim_start(s))
}

/// Whether the character is a decimal digit.
pub open spec fn is_digit(c: char) -> bool {
    '0' <= c <= '9'
}

/// The value of a string of decimal digits.
pub open spec fn digits_value(d: Seq<char>) -> nat
    decreases d.len(),
{
    if d.len() == 0 {
        0
    } else {
        digits_value(d.drop_last()) * 10 + (d.last() as u32 - '0' as u32) as nat
    }
}

/// The digits of a number text: without a leading `+`.
pub open spec fn number_digits(t: Seq<char>) -> Seq<char> {
    if t.len() > 0 && t[0] == '+' {
        t.skip(1)
    } else {
        t
    }
}

/// Whether the text is a `u64` in decimal: an optional `+`, at least one digit, and a
/// value that fits.
pub open spec fn is_u64_text(t: Seq<char>) -> bool {
    let d = number_digits(t);
    &&& d.len() > 0
    &&& forall|i: int| 0 <= i < d.len() ==> is_digit(#[trigger] d[i])
    &&& digits_value(d) <= u64::MAX
}

/// The pieces of the text between commas, starting with the piece `cur`.
pub open spec fn comma_pieces_from(cur: Seq<char>, rest: Seq<char>) -> Seq<Seq<char>>
    decreases rest.len(),
{
    if rest.len() == 0 {
        seq![cur]
    } else if rest[0] == ',' {
        seq![cur] + comma_pieces_from(seq![], rest.skip(1))
    } else {
        comma_pieces_from(cur.push(rest[0]), rest.skip(1))
    }
}

/// The pieces of the text between commas.
pub open spec fn comma_pieces(s: Seq<char>) -> Seq<Seq<char>> {
    comma_pieces_from(seq![], s)
}

/// The numbers of the pieces that are not blank.
pub open spec fn piece_values(ps: Seq<Seq<char>>) -> Seq<nat>
    decreases ps.len(),
{
    if ps.len() == 0 {
        seq![]
    } else if trim(ps.last()).len() == 0 {
        piece_values(ps.drop_last())
    } else {
        piece_values(ps.drop_last()).push(digits_value(number_digits(trim(ps.last()))))
    }
}

/// Every non-blank piece is a `u64` in decimal.
pub open spec fn pieces_ok(ps: Seq<Seq<char>>) -> bool {
    forall|i: int| 0 <= i < ps.len() && trim(#[trigger] ps[i]).len() > 0 ==> is_u64_text(trim(ps[i]))
}

fn is_ws_char(c: char) -> (r: bool)
    ensures
        r == is_ws(c),
{
    let u = c as u32;
    (0x9 <= u && u <= 0xd) || u == 0x20 || u == 0x85 || u == 0xa0 || u == 0x1680 || (0x2000 <= u
        && u <= 0x200a) || u == 0x2028 || u == 0x2029 || u == 0x202f || u == 0x205f || u == 0x3000
}

proof fn lemma_trim_start_skip(s: Seq<char>, i: int)
    requires
        0 <= i <= s.len(),
        forall|j: int| 0 <= j < i ==> is_ws(#[trigger] s[j]),
    ensures
        trim_start(s) == trim_start(s.skip(i)),
    decreases i,
{
    if i > 0 {
        assert(s.skip(1).skip(i - 1) =~= s.skip(i));
        assert forall|j: int| 0 <= j < i - 1 implies is_ws(#[trigger] s.skip(1)[j]) by {
            assert(s.skip(1)[j] == s[j + 1]);
        }
        lemma_trim_start_skip(s.skip(1), i - 1);
    } else {
        assert(s.skip(0) =~= s);
    }
}

proof fn lemma_trim_end_take(s: Seq<char>, e: int)
    requires
        0 <= e <= s.len(),
        forall|j: int| e <= j < s.len() ==> is_ws(#[trigger] s[j]),
    ensures
        trim_end(s) == trim_end(s.take(e)),
    decreases s.len() - e,
{
    if e < s.len() {
        assert(s.drop_last().take(e) =~= s.take(e));
        lemma_trim_end_take(s.drop_last(), e);
    } else {
        assert(s.take(e) =~= s);
    }
}

/// The value of a non-blank piece, if any.
fn piece_value(p: &Vec<char>) -> (r: Option<u64>)
    requires
        trim(p@).len() > 0 ==> is_u64_text(trim(p@)),
    ensures
        trim(p@).len() == 0 ==> r is None,
        trim(p@).len() > 0 ==> r == Some(digits_value(number_digits(trim(p@))) as u64),
{
    let n = p.len();
    let mut start: usize = 0;
    while start < n && is_ws_char(p[start])
        invariant
            start <= n,
            n == p@.len(),
            forall|j: int| 0 <= j < start ==> is_ws(#[trigger] p@[j]),
        decreases n - start,
    {
        start = start + 1;
    }
    proof {
        lemma_trim_start_skip(p@, start as int);
        if start < n {
            assert(trim_start(p@.skip(start as int)) == p@.skip(start as int));
        } else {
            assert(p@.skip(start as int).len() == 0);
        }
    }
    let ghost ts = p@.skip(start as int);
    let mut end: usize = n;
    while end > start && is_ws_char(p[end - 1])
        invariant
            start <= end <= n,
            n == p@.len(),
            ts == p@.skip(start as int),
            forall|j: int| end <= j < n ==> is_ws(#[trigger] p@[j]),
        decreases end,
    {
        end = end - 1;
    }
    proof {
        lemma_trim_end_take(ts, end - start);
        assert forall|j: int| end - start <= j < ts.len() implies is_ws(#[trigger] ts[j]) by {
            assert(ts[j] == p@[j + start]);
        }
        let tt = ts.take(end - start);
        if end > start {
            assert(tt.last() == p@[end - 1]);
            assert(trim_end(tt) == tt);
        } else {
            assert(tt.len() == 0);
        }
        assert(trim(p@) == tt);
        assert(tt =~= p@.subrange(start as int, end as int));
    }
    if end == start {
        return None;
    }
    let mut i = start;
    if p[i] == '+' {
        i = i + 1;
    }
    let ghost t = p@.subrange(start as int, end as int);
    let ghost d = number_digits(t);
    proof {
        assert(d =~= p@.subrange(i as int, end as int));
    }
    let mut value: u64 = 0;
    let mut k = i;
    while k < end
        invariant
            i <= k <= end <= n,
            n == p@.len(),
            d == p@.subrange(i as int, end as int),
            is_u64_text(t),
            d == number_digits(t),
            value == digits_value(p@.subrange(i as int, k as int)),
        decreases end - k,
    {
        let c = p[k];
        proof {
            assert(p@.subrange(i as int, k + 1).drop_last() =~= p@.subrange(i as int, k as int));
            assert(d[k - i] == c);
            assert(is_digit(c));
            lemma_digits_prefix_bound(d, k - i + 1);
            assert(d.take(k - i + 1) =~= p@.subrange(i as int, k + 1));
        }
        value = value * 10 + (c as u32 - '0' as u32) as u64;
        k = k + 1;
    }
    proof {
        assert(p@.subrange(i as int, end as int) == d);
    }
    Some(value)
}

/// The value of a prefix of a digit string is at most the value of the whole string.
proof fn lemma_digits_prefix_bound(d: Seq<char>, k: int)
    requires
        0 <= k <= d.len(),
        forall|i: int| 0 <= i < d.len() ==> is_digit(#[trigger] d[i]),
    ensures
        digits_value(d.take(k)) <= digits_value(d),
    decreases d.len() - k,
{
    if k < d.len() {
        assert(d.drop_last().take(k) =~= d.take(k));
        assert forall|i: int| 0 <= i < d.drop_last().len() implies is_digit(#[trigger] d.drop_last()[i]) by {
            assert(d.drop_last()[i] == d[i]);
        }
        lemma_digits_prefix_bound(d.drop_last(), k);
        assert(is_digit(d.last()));
    } else {
        assert(d.take(k) =~= d);
    }
}

/// Splits a comma-separated list of numbers into field elements; blank entries are
/// skipped and white space around entries is ignored.
pub fn split_inputs(inputs: &str) -> (r: Vec<GoldilocksField>)
    requires
        pieces_ok(comma_pieces(inputs@)),
    ensures
        r@.len() == piece_values(comma_pieces(inputs@)).len(),
        forall|i: int|
            0 <= i < r@.len() ==> (#[trigger] r@[i]).wf() && r@[i].val()
                == (piece_values(comma_pieces(inputs@))[i] as int) % modulus(),
{
    let ghost ps = comma_pieces(inputs@);
    let n = inputs.unicode_len();
    let mut out: Vec<GoldilocksField> = Vec::new();
    let mut cur: Vec<char> = Vec::new();
    let ghost mut done: Seq<Seq<char>> = seq![];
    proof {
        assert(inputs@.skip(0) =~= inputs@);
    }
    for i in 0..n
        invariant
            n == inputs@.len(),
            ps == comma_pieces(inputs@),
            pieces_ok(ps),
            done + comma_pieces_from(cur@, inputs@.skip(i as int)) == ps,
            out@.len() == piece_values(done).len(),
            forall|j: int|
                0 <= j < out@.len() ==> (#[trigger] out@[j]).wf() && out@[j].val()
                    == (piece_values(done)[j] as int) % modulus(),
    {
        let c = inputs.get_char(i);
        let ghost rest = inputs@.skip(i as int);
        proof {
            assert(rest[0] == c);
            assert(rest.skip(1) =~= inputs@.skip(i + 1));
        }
        if c == ',' {
            proof {
                assert(ps[done.len() as int] == cur@);
                lemma_pieces_ok_at(ps, done.len() as int);
            }
            let v = piece_value(&cur);
            proof {
                lemma_piece_values_push(done, cur@);
            }
            match v {
                Some(x) => {
                    out.push(GoldilocksField::from_u64(x));
                },
                None => {},
            }
            proof {
                done = done.push(cur@);
                assert(done + comma_pieces_from(seq![], inputs@.skip(i + 1)) =~= ps);
            }
            cur = Vec::new();
        } else {
            cur.push(c);
        }
    }
    proof {
        assert(inputs@.skip(n as int) =~= Seq::<char>::empty());
        assert(ps =~= done.push(cur@));
        assert(ps[done.len() as int] == cur@);
        lemma_pieces_ok_at(ps, done.len() as int);
        lemma_piece_values_push(done, cur@);
    }
    let v = piece_value(&cur);
    match v {
        Some(x) => {
            out.push(GoldilocksField::from_u64(x));
        },
        None => {},
    }
    out
}

proof fn lemma_pieces_ok_at(ps: Seq<Seq<char>>, i: int)
    requires
        pieces_ok(ps),
        0 <= i < ps.len(),
    ensures
        trim(ps[i]).len() > 0 ==> is_u64_text(trim(ps[i])),
{
}

proof fn lemma_piece_values_push(done: Seq<Seq<char>>, p: Seq<char>)
    ensures
        piece_values(done.push(p)) == if trim(p).len() == 0 {
            piece_values(done)
        } else {
            piece_values(done).push(digits_value(number_digits(trim(p))))
        },
{
    assert(done.push(p).drop_last() =~= done);
}

/// The field to work in.
#[derive(Clone, Copy, Debug, PartialEq, Eq, Structural)]
pub enum FieldArgument {
    Gl,
    Bn254,
}

impl FieldArgument {
    /// The name of the field: `gl` or `bn254`.
    pub fn as_str(&self) -> (r: &'static str)
        ensures
            r@ == match *self {
                FieldArgument::Gl => "gl"@,
                FieldArgument::Bn254 => "bn254"@,
            },
    {
        match self {
            FieldArgument::Gl => "gl",
            FieldArgument::Bn254 => "bn254",
        }
    }

    /// The field of the given name.
    pub fn parse(s: &str) -> (r: Option<Self>)
        ensures
            r == if s@ == "gl"@ {
                Some(FieldArgument::Gl)
            } else if s@ == "bn254"@ {
                Some(FieldArgument::Bn254)
            } else {
                None::<FieldArgument>
            },
    {
        if crate::text::str_eq(s, "gl") {
            Some(FieldArgument::Gl)
        } else if crate::text::str_eq(s, "bn254") {
            Some(FieldArgument::Bn254)
        } else {
            None
        }
    }
}

/// How to write field elements into CSV files.
#[derive(Clone, Copy, Debug, PartialEq, Eq, Structural)]
pub enum CsvRenderModeCLI {
    SignedBase10,
    UnsignedBase10,
    Hex,
}

impl CsvRenderModeCLI {
    /// The name of the mode: `i`, `ui` or `hex`.
    pub fn as_str(&self) -> (r: &'static str)
        ensures
            r@ == match *self {
                CsvRenderModeCLI::SignedBase10 => "i"@,
                CsvRenderModeCLI::UnsignedBase10 => "ui"@,
                CsvRenderModeCLI::Hex => "hex"@,
            },
    {
        match self {
            CsvRenderModeCLI::SignedBase10 => "i",
            CsvRenderModeCLI::UnsignedBase10 => "ui",
            CsvRenderModeCLI::Hex => "hex",
        }
    }

    /// The mode of the given name.
    pub fn parse(s: &str) -> (r: Option<Self>)
        ensures
            r == if s@ == "i"@ {
                Some(CsvRenderModeCLI::SignedBase10)
            } else if s@ == "ui"@ {
                Some(CsvRenderModeCLI::UnsignedBase10)
            } else if s@ == "hex"@ {
                Some(CsvRenderModeCLI::Hex)
            } else {
                None::<CsvRenderModeCLI>
            },
    {
        if crate::text::str_eq(s, "i") {
            Some(CsvRenderModeCLI::SignedBase10)
        } else if crate::text::str_eq(s, "ui") {
            Some(CsvRenderModeCLI::UnsignedBase10)
        } else if crate::text::str_eq(s, "hex") {
            Some(CsvRenderModeCLI::Hex)
        } else {
            None
        }
    }
}

/// The position of the PC among the bootloader inputs.
pub const PC_INPUT_INDEX: usize = 35;

/// Inputs of a continuation run.
pub struct Inputs {
    pub values: Vec<GoldilocksField>,
}

impl Default for Inputs {
    /// All zero, except the PC, which is 50: the first instruction after the
    /// dispatcher and the bootloader.
    fn default() -> (r: Self)
        ensures
            r.values@.len() == 37,
            forall|i: int| 0 <= i < 37 && i != 35 ==> r.values@[i] == GoldilocksField(0),
            r.values@[35] == GoldilocksField(50),
    {
        let mut values: Vec<GoldilocksField> = Vec::new();
        for i in 0..37usize
            invariant
                values@.len() == i,
                forall|j: int| 0 <= j < i ==> values@[j] == GoldilocksField(if j == 35 {
                    50u64
                } else {
                    0u64
                }),
        {
            if i == PC_INPUT_INDEX {
                values.push(GoldilocksField(50));
            } else {
                values.push(GoldilocksField(0));
            }
        }
        Inputs { values }
    }
}

impl Inputs {
    /// The PC.
    pub fn pc(&self) -> (r: GoldilocksField)
        requires
            self.values@.len() > 35,
        ensures
            r == self.values@[35],
    {
        self.values[PC_INPUT_INDEX]
    }
}


} // verus!
