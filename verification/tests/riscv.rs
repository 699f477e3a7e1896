use powdr::riscv::{
    build_rustflags, cargo_build_args, cargo_metadata_args, riscv_target, CargoMetadata,
    CargoTarget, Dependency, Package,
};

fn strings(v: &[&str]) -> Vec<String> {
    v.iter().map(|s| s.to_string()).collect()
}

#[test]
fn build_args_with_std_and_features() {
    let args = cargo_build_args(
        "crate/Cargo.toml",
        "out/cargo_target",
        true,
        &Some(strings(&["a", "b"])),
        false,
    );
    assert_eq!(
        args,
        strings(&[
            "+nightly-2024-08-01",
            "build",
            "--release",
            "--target-dir",
            "out/cargo_target",
            "--manifest-path",
            "crate/Cargo.toml",
            "--target",
            "riscv32im-risc0-zkvm-elf",
            "-Zbuild-std=std,panic_abort",
            "-Zbuild-std-features=default,compiler-builtins-mem",
            "--features",
            "a,b",
        ])
    );
}

#[test]
fn build_args_without_std() {
    let args = cargo_build_args("m", "t", false, &Some(vec![]), true);
    assert_eq!(
        args,
        strings(&[
            "+nightly-2024-08-01",
            "build",
            "--release",
            "--target-dir",
            "t",
            "--manifest-path",
            "m",
            "--target",
            "riscv32imac-unknown-none-elf",
            "-Zbuild-std=core,alloc",
            "-Zunstable-options",
            "--build-plan",
        ])
    );
    assert_eq!(cargo_build_args("m", "t", false, &None, false).len(), 10);
}

#[test]
fn metadata_args_and_targets() {
    assert_eq!(
        cargo_metadata_args("x/Cargo.toml"),
        strings(&["metadata", "--format-version", "1", "--no-deps", "--manifest-path", "x/Cargo.toml"])
    );
    assert_eq!(riscv_target(true), "riscv32im-risc0-zkvm-elf");
    assert_eq!(riscv_target(false), "riscv32imac-unknown-none-elf");
    assert!(build_rustflags().contains("-Tpowdr.x"));
}

#[test]
fn metadata_of_packages() {
    let packages = vec![
        Package {
            dependencies: vec![Dependency {
                name: "serde".to_string(),
                features: strings(&["std"]),
            }],
            targets: vec![
                CargoTarget { kind: Some("lib".to_string()), name: "guest_lib".to_string() },
                CargoTarget { kind: Some("bin".to_string()), name: "guest".to_string() },
                CargoTarget { kind: Some("bin".to_string()), name: "second".to_string() },
            ],
        },
        Package {
            dependencies: vec![Dependency {
                name: "powdr-riscv-runtime".to_string(),
                features: strings(&["getrandom", "std"]),
            }],
            targets: vec![CargoTarget { kind: None, name: "other".to_string() }],
        },
    ];
    let m = CargoMetadata::from_packages(&packages);
    assert!(m.use_std);
    assert_eq!(m.bins, strings(&["guest"]));

    let no_std = vec![Package {
        dependencies: vec![Dependency {
            name: "powdr-riscv-runtime".to_string(),
            features: vec![],
        }],
        targets: vec![],
    }];
    let m = CargoMetadata::from_packages(&no_std);
    assert!(!m.use_std);
    assert!(m.bins.is_empty());
}
