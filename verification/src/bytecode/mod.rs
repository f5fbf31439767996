//! Bytecode: a flat sequence of instructions in which loops are jumps to
//! absolute positions.

mod compiler;
mod equivalence;
mod interpreter;
mod jumps;
mod stepper;

pub use self::compiler::compile;
pub use self::compiler::lemma_lower_len;
pub use self::compiler::lemma_lower_node_len;
pub use self::compiler::lemma_unrepresentable_prefix;
pub use self::compiler::lower;
pub use self::compiler::lower_node;
pub use self::compiler::node_representable;
pub use self::compiler::node_size;
pub use self::compiler::representable;
pub use self::compiler::size;
pub use self::compiler::usize_to_count;
pub use self::compiler::BytecodeCompilable;
pub use self::compiler::Compiler;
pub use self::equivalence::holds;
pub use self::equivalence::lemma_lower_run;
pub use self::equivalence::lemma_resume;
pub use self::equivalence::resume;
pub use self::interpreter::gap;
pub use self::jumps::jump_matched;
pub use self::jumps::jumps_matched;
pub use self::jumps::lemma_lower_matched;
pub use self::jumps::lemma_lower_node_matched;
pub use self::stepper::advance;
pub use self::stepper::advanced;
pub use self::stepper::machine_with;
pub use self::stepper::served;
pub use self::stepper::start;
pub use self::stepper::Position;
pub use self::stepper::Request;
pub use self::interpreter::interpret;
pub use self::interpreter::lemma_run_more_fuel;
pub use self::interpreter::run_from;
pub use crate::common::Instruction;

use vstd::prelude::*;

verus! {

/// A program is a sequence of instructions.
pub type Program = [Instruction];

} // verus!
