//! Building a Rust crate for RISC-V: the cargo command line, and what the crate's
//! metadata says about the standard library and the executables.
use vstd::prelude::*;

use crate::text::{join_with, str_eq, string_views};

verus! {

/// The target used when the runtime is built with the standard library.
pub open spec fn target_std() -> Seq<char> {
    "riscv32im-risc0-zkvm-elf"@
}

/// The target used without the standard library.
pub open spec fn target_no_std() -> Seq<char> {
    "riscv32imac-unknown-none-elf"@
}

/// The target for a build with or without the standard library.
pub fn riscv_target(use_std: bool) -> (r: String)
    ensures
        r@ == if use_std {
            target_std()
        } else {
            target_no_std()
        },
{
    if use_std {
        String::from_str("riscv32im-risc0-zkvm-elf")
    } else {
        String::from_str("riscv32imac-unknown-none-elf")
    }
}

/// The compiler flags of the build: emit assembly, link with the runtime's linker
/// script keeping relocations, lower atomics and abort on panic.
pub fn build_rustflags() -> (r: String)
    ensures
        r@ == "--emit=asm -g -C link-arg=-Tpowdr.x -C link-arg=--emit-relocs -C passes=lower-atomic -C panic=abort"@,
{
    String::from_str(
        "--emit=asm -g -C link-arg=-Tpowdr.x -C link-arg=--emit-relocs -C passes=lower-atomic -C panic=abort",
    )
}

/// The arguments of the cargo build of the crate at `input_dir` (its manifest) into
/// `target_dir`.
pub open spec fn cargo_build_args_spec(
    input_dir: Seq<char>,
    target_dir: Seq<char>,
    use_std: bool,
    features: Option<Seq<Seq<char>>>,
    produce_build_plan: bool,
) -> Seq<Seq<char>> {
    seq![
        "+nightly-2024-08-01"@,
        "build"@,
        "--release"@,
        "--target-dir"@,
        target_dir,
        "--manifest-path"@,
        input_dir,
        "--target"@,
    ] + (if use_std {
        seq![
            target_std(),
            "-Zbuild-std=std,panic_abort"@,
            "-Zbuild-std-features=default,compiler-builtins-mem"@,
        ]
    } else {
        seq![target_no_std(), "-Zbuild-std=core,alloc"@]
    }) + (match features {
        Some(f) => if f.len() > 0 {
            seq!["--features"@, join_with(f, seq![','])]
        } else {
            seq![]
        },
        None => seq![],
    }) + (if produce_build_plan {
        seq!["-Zunstable-options"@, "--build-plan"@]
    } else {
        seq![]
    })
}

fn push_arg(args: &mut Vec<String>, s: &str)
    ensures
        string_views(final(args)@) == string_views(old(args)@).push(s@),
{
    args.push(String::from_str(s));
    proof {
        assert(string_views(final(args)@) =~= string_views(old(args)@).push(s@));
    }
}

fn join_features(f: &Vec<String>) -> (r: String)
    ensures
        r@ == join_with(string_views(f@), seq![',']),
{
    let mut out = String::new();
    for i in 0..f.len()
        invariant
            out@ == join_with(string_views(f@.subrange(0, i as int)), seq![',']),
    {
        proof {
            crate::text::lemma_join_push(string_views(f@.subrange(0, i as int)), f@[i as int]@, seq![',']);
            assert(string_views(f@.subrange(0, i + 1)) =~= string_views(f@.subrange(0, i as int)).push(f@[i as int]@));
        }
        if i > 0 {
            crate::text::string_push(&mut out, ',');
        }
        out.append(f[i].as_str());
        proof {
            assert(out@ =~= join_with(string_views(f@.subrange(0, i + 1)), seq![',']));
        }
    }
    proof {
        assert(f@.subrange(0, f@.len() as int) =~= f@);
    }
    out
}

/// The arguments of the cargo build of the crate whose manifest is `input_dir` into
/// `target_dir`, with or without the standard library, with the given features
/// and, if asked, producing a build plan.
pub fn cargo_build_args(
    input_dir: &str,
    target_dir: &str,
    use_std: bool,
    features: &Option<Vec<String>>,
    produce_build_plan: bool,
) -> (r: Vec<String>)
    ensures
        string_views(r@) == cargo_build_args_spec(
            input_dir@,
            target_dir@,
            use_std,
            match features {
                Some(f) => Some(string_views(f@)),
                None => None,
            },
            produce_build_plan,
        ),
{
    let mut args: Vec<String> = Vec::new();
    push_arg(&mut args, "+nightly-2024-08-01");
    push_arg(&mut args, "build");
    push_arg(&mut args, "--release");
    push_arg(&mut args, "--target-dir");
    push_arg(&mut args, target_dir);
    push_arg(&mut args, "--manifest-path");
    push_arg(&mut args, input_dir);
    push_arg(&mut args, "--target");
    let ghost first = string_views(args@);
    if use_std {
        push_arg(&mut args, "riscv32im-risc0-zkvm-elf");
        push_arg(&mut args, "-Zbuild-std=std,panic_abort");
        push_arg(&mut args, "-Zbuild-std-features=default,compiler-builtins-mem");
    } else {
        push_arg(&mut args, "riscv32imac-unknown-none-elf");
        push_arg(&mut args, "-Zbuild-std=core,alloc");
    }
    let ghost second = string_views(args@);
    match features {
        Some(f) => {
            if f.len() > 0 {
                push_arg(&mut args, "--features");
                let joined = join_features(f);
                let ghost mid = args@;
                let ghost jv = joined@;
                args.push(joined);
                proof {
                    assert(string_views(args@) =~= string_views(mid).push(jv));
                    assert(string_views(args@) =~= second + seq!["--features"@, join_with(string_views(f@), seq![','])]);
                }
            } else {
                proof {
                    assert(second + seq![] =~= second);
                }
            }
        },
        None => {
            proof {
                assert(second + seq![] =~= second);
            }
        },
    }
    let ghost third = string_views(args@);
    if produce_build_plan {
        push_arg(&mut args, "-Zunstable-options");
        push_arg(&mut args, "--build-plan");
    }
    proof {
        let fv = match features {
            Some(f) => Some(string_views(f@)),
            None => None,
        };
        assert(third == second + match fv {
            Some(f) => if f.len() > 0 {
                seq!["--features"@, join_with(f, seq![','])]
            } else {
                seq![]
            },
            None => seq![],
        });
        assert(string_views(args@) =~= cargo_build_args_spec(
            input_dir@,
            target_dir@,
            use_std,
            fv,
            produce_build_plan,
        ));
    }
    args
}

/// The arguments of `cargo metadata` for the crate whose manifest is `input_dir`.
pub fn cargo_metadata_args(input_dir: &str) -> (r: Vec<String>)
    ensures
        string_views(r@) == seq![
            "metadata"@,
            "--format-version"@,
            "1"@,
            "--no-deps"@,
            "--manifest-path"@,
            input_dir@,
        ],
{
    let mut args: Vec<String> = Vec::new();
    push_arg(&mut args, "metadata");
    push_arg(&mut args, "--format-version");
    push_arg(&mut args, "1");
    push_arg(&mut args, "--no-deps");
    push_arg(&mut args, "--manifest-path");
    push_arg(&mut args, input_dir);
    proof {
        assert(string_views(args@) =~= seq![
            "metadata"@,
            "--format-version"@,
            "1"@,
            "--no-deps"@,
            "--manifest-path"@,
            input_dir@,
        ]);
    }
    args
}

// ---------------------------------------------------------------------------
// Crate metadata
// ---------------------------------------------------------------------------
/// A dependency of a package, with the features it is used with.
pub struct Dependency {
    pub name: String,
    pub features: Vec<String>,
}

/// A build target of a package: its kind when the metadata gives it as a single
/// string, and its name.
pub struct CargoTarget {
    pub kind: Option<String>,
    pub name: String,
}

/// A package of the crate's metadata.
pub struct Package {
    pub dependencies: Vec<Dependency>,
    pub targets: Vec<CargoTarget>,
}

/// What the build needs to know of a crate: its executables and whether the
/// runtime is used with the standard library.
pub struct CargoMetadata {
    pub bins: Vec<String>,
    pub use_std: bool,
}

/// The dependency is the runtime crate used with its `std` feature.
pub open spec fn is_std_runtime(d: Dependency) -> bool {
    d.name@ == "powdr-riscv-runtime"@ && string_views(d.features@).contains("std"@)
}

/// Some package uses the runtime with its `std` feature.
pub open spec fn uses_std(packages: Seq<Package>) -> bool {
    exists|p: int, d: int|
        0 <= p < packages.len() && 0 <= d < packages[p].dependencies@.len() && #[trigger] is_std_runtime(
            packages[p].dependencies@[d],
        )
}

/// The target is an executable.
pub open spec fn is_bin(t: CargoTarget) -> bool {
    t.kind matches Some(k) && k@ == "bin"@
}

/// The name of the first executable target of a package, if it has one.
pub open spec fn first_bin(ts: Seq<CargoTarget>) -> Option<Seq<char>>
    decreases ts.len(),
{
    if ts.len() == 0 {
        None
    } else if is_bin(ts[0]) {
        Some(ts[0].name@)
    } else {
        first_bin(ts.drop_first())
    }
}

/// The first executable of each package that has one, in package order.
pub open spec fn bin_names(packages: Seq<Package>) -> Seq<Seq<char>>
    decreases packages.len(),
{
    if packages.len() == 0 {
        seq![]
    } else {
        bin_names(packages.drop_last()) + match first_bin(packages.last().targets@) {
            Some(n) => seq![n],
            None => seq![],
        }
    }
}

fn find_first_bin(ts: &Vec<CargoTarget>) -> (r: Option<String>)
    ensures
        match r {
            Some(n) => first_bin(ts@) == Some(n@),
            None => first_bin(ts@) is None,
        },
{
    let mut i: usize = 0;
    proof {
        assert(ts@.skip(0) =~= ts@);
    }
    while i < ts.len()
        invariant
            i <= ts@.len(),
            first_bin(ts@) == first_bin(ts@.skip(i as int)),
        decreases ts@.len() - i,
    {
        let bin = match &ts[i].kind {
            Some(k) => str_eq(k.as_str(), "bin"),
            None => false,
        };
        proof {
            assert(ts@.skip(i as int)[0] == ts@[i as int]);
            assert(ts@.skip(i as int).drop_first() =~= ts@.skip(i + 1));
        }
        if bin {
            return Some(ts[i].name.clone());
        }
        i = i + 1;
    }
    proof {
        assert(ts@.skip(i as int) =~= Seq::<CargoTarget>::empty());
    }
    None
}

fn has_std_feature(features: &Vec<String>) -> (r: bool)
    ensures
        r == string_views(features@).contains("std"@),
{
    for i in 0..features.len()
        invariant
            forall|j: int| 0 <= j < i ==> string_views(features@)[j] != "std"@,
    {
        if str_eq(features[i].as_str(), "std") {
            assert(string_views(features@)[i as int] == "std"@);
            return true;
        }
    }
    false
}

impl CargoMetadata {
    /// What the packages of a crate's metadata say: whether some package uses the
    /// runtime with `std`, and the first executable of each package.
    pub fn from_packages(packages: &Vec<Package>) -> (r: CargoMetadata)
        ensures
            r.use_std == uses_std(packages@),
            string_views(r.bins@) == bin_names(packages@),
    {
        let mut use_std = false;
        let mut bins: Vec<String> = Vec::new();
        for p in 0..packages.len()
            invariant
                use_std == exists|q: int, d: int|
                    0 <= q < p && 0 <= d < packages@[q].dependencies@.len() && #[trigger] is_std_runtime(
                        packages@[q].dependencies@[d],
                    ),
                string_views(bins@) == bin_names(packages@.subrange(0, p as int)),
        {
            let deps = &packages[p].dependencies;
            let ghost before = use_std;
            for d in 0..deps.len()
                invariant
                    deps == packages@[p as int].dependencies,
                    use_std == (before || exists|e: int|
                        0 <= e < d && #[trigger] is_std_runtime(deps@[e])),
            {
                if str_eq(deps[d].name.as_str(), "powdr-riscv-runtime") && has_std_feature(&deps[d].features) {
                    use_std = true;
                }
                proof {
                    if is_std_runtime(deps@[d as int]) {
                        assert(use_std);
                    }
                }
            }
            proof {
                if use_std && !before {
                    let e = choose|e: int| 0 <= e < deps@.len() && #[trigger] is_std_runtime(deps@[e]);
                    assert(is_std_runtime(packages@[p as int].dependencies@[e]));
                }
                if exists|q: int, d: int|
                    0 <= q < p + 1 && 0 <= d < packages@[q].dependencies@.len() && #[trigger] is_std_runtime(
                        packages@[q].dependencies@[d],
                    ) {
                    let (q, d) = choose|q: int, d: int|
                        0 <= q < p + 1 && 0 <= d < packages@[q].dependencies@.len() && #[trigger] is_std_runtime(
                            packages@[q].dependencies@[d],
                        );
                    if q == p {
                        assert(is_std_runtime(deps@[d]));
                    }
                }
            }
            let ghost bins_before = string_views(bins@);
            match find_first_bin(&packages[p].targets) {
                Some(n) => {
                    bins.push(n);
                },
                None => {},
            }
            proof {
                let sub = packages@.subrange(0, p + 1);
                assert(sub.drop_last() =~= packages@.subrange(0, p as int));
                assert(sub.last() == packages@[p as int]);
                assert(string_views(bins@) =~= bin_names(sub));
            }
        }
        proof {
            assert(packages@.subrange(0, packages@.len() as int) =~= packages@);
        }
        CargoMetadata { bins, use_std }
    }
}

} // verus!
