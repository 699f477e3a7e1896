//! Command-line values of the RISC-V toolchain: the field to work in and the
//! coprocessors a program is built with.
use vstd::prelude::*;

use crate::cli::{comma_pieces, comma_pieces_from};

verus! {

/// A field that the toolchain knows.
#[derive(Clone, Copy, Debug, PartialEq, Eq, Structural)]
pub enum KnownField {
    BabyBearField,
    KoalaBearField,
    Mersenne31Field,
    GoldilocksField,
    Bn254Field,
}

/// The field to work in.
#[derive(Clone, Copy, Debug, PartialEq, Eq, Structural)]
pub enum FieldArgument {
    Bb,
    Kb,
    Gl,
    Bn254,
}

impl FieldArgument {
    /// The known field of the argument.
    pub fn as_known_field(&self) -> (r: KnownField)
        ensures
            r == match *self {
                FieldArgument::Bb => KnownField::BabyBearField,
                FieldArgument::Kb => KnownField::KoalaBearField,
                FieldArgument::Gl => KnownField::GoldilocksField,
                FieldArgument::Bn254 => KnownField::Bn254Field,
            },
    {
        match self {
            FieldArgument::Bb => KnownField::BabyBearField,
            FieldArgument::Kb => KnownField::KoalaBearField,
            FieldArgument::Gl => KnownField::GoldilocksField,
            FieldArgument::Bn254 => KnownField::Bn254Field,
        }
    }

    /// The name of the field: `bb`, `kb`, `gl` or `bn254`.
    pub fn as_str(&self) -> (r: &'static str)
        ensures
            r@ == match *self {
                FieldArgument::Bb => "bb"@,
                FieldArgument::Kb => "kb"@,
                FieldArgument::Gl => "gl"@,
                FieldArgument::Bn254 => "bn254"@,
            },
    {
        match self {
            FieldArgument::Bb => "bb",
            FieldArgument::Kb => "kb",
            FieldArgument::Gl => "gl",
            FieldArgument::Bn254 => "bn254",
        }
    }

    /// The field of the given name.
    pub fn parse(s: &str) -> (r: Option<Self>)
        ensures
            r == if s@ == "bb"@ {
                Some(FieldArgument::Bb)
            } else if s@ == "kb"@ {
                Some(FieldArgument::Kb)
            } else if s@ == "gl"@ {
                Some(FieldArgument::Gl)
            } else if s@ == "bn254"@ {
                Some(FieldArgument::Bn254)
            } else {
                None::<FieldArgument>
            },
    {
        if crate::text::str_eq(s, "bb") {
            Some(FieldArgument::Bb)
        } else if crate::text::str_eq(s, "kb") {
            Some(FieldArgument::Kb)
        } else if crate::text::str_eq(s, "gl") {
            Some(FieldArgument::Gl)
        } else if crate::text::str_eq(s, "bn254") {
            Some(FieldArgument::Bn254)
        } else {
            None
        }
    }
}

/// The coprocessor libraries a program is built with.
#[derive(Clone, Copy, Debug, PartialEq, Eq, Structural)]
pub struct RuntimeLibs {
    pub arith: bool,
    pub keccak: bool,
    pub poseidon2: bool,
}

impl RuntimeLibs {
    /// No coprocessor.
    pub fn new() -> (r: Self)
        ensures
            r == (RuntimeLibs { arith: false, keccak: false, poseidon2: false }),
    {
        RuntimeLibs { arith: false, keccak: false, poseidon2: false }
    }

    /// With the arithmetic coprocessor.
    pub fn with_arith(self) -> (r: Self)
        ensures
            r == (RuntimeLibs { arith: true, ..self }),
    {
        RuntimeLibs { arith: true, ..self }
    }

    /// With the Keccak-f coprocessor.
    pub fn with_keccak(self) -> (r: Self)
        ensures
            r == (RuntimeLibs { keccak: true, ..self }),
    {
        RuntimeLibs { keccak: true, ..self }
    }

    /// With the Poseidon2 coprocessor over Goldilocks.
    pub fn with_poseidon2(self) -> (r: Self)
        ensures
            r == (RuntimeLibs { poseidon2: true, ..self }),
    {
        RuntimeLibs { poseidon2: true, ..self }
    }
}

/// Whether the name is that of a coprocessor.
pub open spec fn is_coprocessor(name: Seq<char>) -> bool {
    name == "poseidon2_gl"@ || name == "keccakf"@ || name == "arith"@
}

/// The libraries with the coprocessors of the names added, one after the other.
pub open spec fn libs_with(libs: RuntimeLibs, names: Seq<Seq<char>>) -> RuntimeLibs
    decreases names.len(),
{
    if names.len() == 0 {
        libs
    } else {
        let l = libs_with(libs, names.drop_last());
        let n = names.last();
        if n == "poseidon2_gl"@ {
            RuntimeLibs { poseidon2: true, ..l }
        } else if n == "keccakf"@ {
            RuntimeLibs { keccak: true, ..l }
        } else if n == "arith"@ {
            RuntimeLibs { arith: true, ..l }
        } else {
            l
        }
    }
}

/// The position of the first name that is not a coprocessor's, if any.
pub open spec fn first_unknown(names: Seq<Seq<char>>) -> Option<int> {
    if exists|i: int| 0 <= i < names.len() && !is_coprocessor(names[i]) {
        Some(choose|i: int| 0 <= i < names.len() && !is_coprocessor(names[i]) && forall|j: int| 0 <= j < i ==> is_coprocessor(names[j]))
    } else {
        None
    }
}

/// The message for a name that is not a coprocessor's.
pub open spec fn invalid_coprocessor_error(name: Seq<char>) -> Seq<char> {
    "Invalid co-processor specified: "@ + name
}

/// Whether the piece is a coprocessor name, and which.
fn coprocessor_kind(p: &String) -> (r: u8)
    ensures
        r == 1 <==> p@ == "poseidon2_gl"@,
        r == 2 <==> p@ == "keccakf"@,
        r == 3 <==> p@ == "arith"@,
        r == 0 <==> !is_coprocessor(p@),
{
    proof {
        reveal_strlit("poseidon2_gl");
        reveal_strlit("keccakf");
        reveal_strlit("arith");
        assert("poseidon2_gl"@.len() == 12 && "keccakf"@.len() == 7 && "arith"@.len() == 5);
    }
    if crate::text::str_eq(p.as_str(), "poseidon2_gl") {
        1
    } else if crate::text::str_eq(p.as_str(), "keccakf") {
        2
    } else if crate::text::str_eq(p.as_str(), "arith") {
        3
    } else {
        0
    }
}

proof fn lemma_first_unknown_here(names: Seq<Seq<char>>, i: int)
    requires
        0 <= i < names.len(),
        !is_coprocessor(names[i]),
        forall|j: int| 0 <= j < i ==> is_coprocessor(#[trigger] names[j]),
    ensures
        first_unknown(names) == Some(i),
{
    let k = choose|k: int| 0 <= k < names.len() && !is_coprocessor(names[k]) && forall|j: int| 0 <= j < k ==> is_coprocessor(names[j]);
    if k < i {
        assert(is_coprocessor(names[k]));
    } else if k > i {
        assert(is_coprocessor(names[i]));
    }
}

/// The coprocessor libraries of a comma-separated list of names (`poseidon2_gl`,
/// `keccakf`, `arith`); any other name is an error.
pub fn coprocessors_to_options(coprocessors: Option<String>) -> (r: Result<RuntimeLibs, Vec<String>>)
    ensures
        match coprocessors {
            None => r == Ok::<RuntimeLibs, Vec<String>>(RuntimeLibs { arith: false, keccak: false, poseidon2: false }),
            Some(list) => {
                let names = comma_pieces(list@);
                match first_unknown(names) {
                    None => r == Ok::<RuntimeLibs, Vec<String>>(
                        libs_with(RuntimeLibs { arith: false, keccak: false, poseidon2: false }, names),
                    ),
                    Some(i) => r matches Err(es) && es@.len() == 1 && es@[0]@ == invalid_coprocessor_error(names[i]),
                }
            },
        },
{
    let mut libs = RuntimeLibs::new();
    let list = match coprocessors {
        None => {
            return Ok(libs);
        },
        Some(list) => list,
    };
    let ghost ps = comma_pieces(list@);
    let ghost libs0 = libs;
    let n = list.unicode_len();
    let mut cur = String::new();
    let ghost mut done: Seq<Seq<char>> = seq![];
    proof {
        assert(list@.skip(0) =~= list@);
        assert(cur@ =~= Seq::<char>::empty());
        assert(seq![] + comma_pieces_from(cur@, list@.skip(0)) =~= ps);
    }
    let mut i: usize = 0;
    loop
        invariant
            i <= n,
            n == list@.len(),
            ps == comma_pieces(list@),
            done + comma_pieces_from(cur@, list@.skip(i as int)) == ps,
            forall|j: int| 0 <= j < done.len() ==> is_coprocessor(#[trigger] done[j]),
            libs == libs_with(libs0, done),
            libs0 == (RuntimeLibs { arith: false, keccak: false, poseidon2: false }),
            coprocessors matches Some(l) && l@ == list@,
        decreases n - i,
    {
        let at_end = i == n;
        let c = if at_end {
            ','
        } else {
            list.get_char(i)
        };
        if at_end || c == ',' {
            let ghost rest = list@.skip(i as int);
            proof {
                if at_end {
                    assert(rest.len() == 0);
                    assert(ps =~= done.push(cur@));
                } else {
                    assert(rest[0] == ',');
                    assert(rest.skip(1) =~= list@.skip(i + 1));
                    assert(ps =~= done.push(cur@) + comma_pieces_from(seq![], list@.skip(i + 1)));
                }
                assert(ps[done.len() as int] == cur@);
                assert(done.push(cur@).drop_last() =~= done);
            }
            let kind = coprocessor_kind(&cur);
            if kind == 1 {
                libs = libs.with_poseidon2();
            } else if kind == 2 {
                libs = libs.with_keccak();
            } else if kind == 3 {
                libs = libs.with_arith();
            } else {
                proof {
                    assert forall|j: int| 0 <= j < done.len() implies is_coprocessor(#[trigger] ps[j]) by {
                        assert(ps[j] == done[j]);
                    }
                    lemma_first_unknown_here(ps, done.len() as int);
                }
                let mut e = String::new();
                crate::text::push_str(&mut e, "Invalid co-processor specified: ");
                crate::text::push_str(&mut e, cur.as_str());
                let mut es: Vec<String> = Vec::new();
                es.push(e);
                return Err(es);
            }
            proof {
                done = done.push(cur@);
            }
            if at_end {
                proof {
                    assert(done =~= ps);
                    assert(first_unknown(ps) is None);
                }
                return Ok(libs);
            }
            cur = String::new();
            proof {
                assert(cur@ =~= Seq::<char>::empty());
            }
        } else {
            let ghost rest = list@.skip(i as int);
            proof {
                assert(rest[0] == c);
                assert(rest.skip(1) =~= list@.skip(i + 1));
            }
            crate::text::string_push(&mut cur, c);
        }
        i = i + 1;
    }
}

} // verus!
