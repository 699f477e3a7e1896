//! Verified core of a zk toolchain: Goldilocks field arithmetic, affine
//! expression solving, range constraints, witness generation bookkeeping and the
//! interpreter of compiled effects, the code generator for compiled symbols,
//! assembly reachability analysis, the continuation bootloader's input layout,
//! the conversion of identities to bus interactions, and pretty printing of
//! language constructs.
pub mod field;
pub mod text;
pub mod range;
pub mod eval;
pub mod affine;
pub mod display;
pub mod witgen;
pub mod columns;
pub mod codegen;
pub mod bootloader;
pub mod cli;
pub mod reachability;
pub mod profiling;
pub mod riscv;
pub mod number;
pub mod interpreter;
pub mod backend;
pub mod precompiles;
pub mod identity;
pub mod riscv_cli;
pub mod continuations;
pub mod condenser;
