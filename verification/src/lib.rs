//! Core ReDoS analysis engine: regex parsing, an instrumented backtracking
//! matcher, ambiguity detection, worst-case input generation, and
//! safe-rewrite suggestions, each stated against a mathematical model of
//! regular expressions and proved with Verus.

use vstd::prelude::*;

pub mod model;
pub mod grammar;
pub mod parser;
pub mod roundtrip;
pub mod shape;
pub mod engine;
pub mod engine_laws;
pub mod generator;
pub mod analyzer;
pub mod rewrite;
pub mod rewrite_laws;

pub use parser::Ast;

verus! {

/// The crate's release version, reported by front ends in bug reports.
pub fn version() -> (v: &'static str)
    ensures
        v@ == "0.1.0"@,
{
    "0.1.0"
}

} // verus!
