//! Constrained vector generation over a small expression language: the
//! structure of expressions, the tapes they lower to, what a set of
//! constraints says about its variables, and the decisions of a search over
//! them.

pub mod ast;
pub mod clamping;
pub mod classify;
pub mod calculus;
pub mod cloning;
pub mod cube;
pub mod diagnostics;
pub mod differentiate;
pub mod emission;
pub mod frontend;
pub mod graph;
pub mod hc4;
pub mod interval;
pub mod irgen;
pub mod local;
pub mod lowering;
pub mod machine;
pub mod matching;
pub mod newton;
pub mod nodes;
pub mod number;
pub mod plans;
pub mod prune;
pub mod random;
pub mod regalloc;
pub mod renaming;
pub mod repair;
pub mod search;
pub mod semantics;
pub mod slicing;
pub mod solve;
pub mod system;
pub mod tape;
pub mod text;
