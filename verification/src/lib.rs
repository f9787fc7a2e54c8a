//! A compiler and interpreter for the eight-symbol tape language.
//!
//! Text becomes tokens (`token`), tokens become a tree (`parser`), and the
//! tree is optimized (`optimizer`); `compiler` joins the three. The tree is
//! then run on a tape (`vm`) or written out in the tape language, in C or in
//! Rust (`emit`). Every stage is a function of its arguments alone.
//!
//! Contracts are stated over the mathematical model of the tree in `ast`.
//! Proofs relate the stages: optimizing twice is optimizing once
//! (`optimizer`), the optimized tree runs as the tree itself (`equivalence`),
//! and an optimized program that is written out in the tape language
//! compiles to the same tree again (`roundtrip`).

pub mod ast;
pub mod compiler;
pub mod emit;
pub mod equivalence;
pub mod optimizer;
pub mod parser;
pub mod roundtrip;
pub mod token;
pub mod vm;

pub use ast::Node;
pub use compiler::compile_source;
pub use emit::{write_bf, write_c, write_c_ast, write_rust, write_rust_ast, Target};
pub use optimizer::{optimize_ast, weigh};
pub use parser::{build_ast, ParseError};
pub use token::{parse_source, Token};
pub use vm::{run_ast, RunError, State};
