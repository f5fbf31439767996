//! A multi-tier execution engine for Brainfuck.
//!
//! Source text is parsed into a tree, which can be run-length encoded, peephole
//! optimised and flattened into bytecode. Every tier has an interpreter, and the
//! meaning of every tier is given by a spec function over one shared model of
//! the machine, so that the tiers can be compared.
//!
//! Every run is given fuel: the number of loop iterations it may perform. A
//! run that needs more stops with `Error::StepLimit`. Straight-line code costs
//! nothing, and neither do the instructions that the optimiser puts in place
//! of whole loops, so a compiled program never needs more fuel than its
//! source.

pub mod common;
pub mod traits;
pub mod state;
pub mod ast;
pub mod rle;
pub mod peephole;
pub mod bytecode;
pub mod equivalence;
