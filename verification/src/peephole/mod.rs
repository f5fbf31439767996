//! The peephole-optimised program: moves and changes are aggregated, and
//! loops of a few well-known shapes are replaced by single instructions.

mod compiler;
mod equivalence;
mod interpreter;

pub use self::compiler::append_change;
pub use self::compiler::append_move;
pub use self::compiler::compile;
pub use self::compiler::encode;
pub use self::compiler::extend;
pub use self::compiler::fuse;
pub use self::compiler::fuse_loop;
pub use self::compiler::improve;
pub use self::compiler::issue;
pub use self::compiler::move_node;
pub use self::compiler::net_move;
pub use self::compiler::Compiler;
pub use self::compiler::PeepholeCompilable;
pub use self::equivalence::ends_with;
pub use self::equivalence::lemma_encode_run;
pub use self::equivalence::lemma_extend_run;
pub use self::equivalence::lemma_find_zero_left_underflow;
pub use self::equivalence::lemma_find_zero_right_overflow;
pub use self::equivalence::lemma_fuse_fails;
pub use self::equivalence::lemma_fuse_run;
pub use self::equivalence::lemma_improve_run;
pub use self::equivalence::lemma_recompile_run;
pub use self::interpreter::interpret;
pub use self::interpreter::lemma_loop_fuel;
pub use self::interpreter::lemma_loop_more_fuel;
pub use self::interpreter::lemma_run_more_fuel;
pub use self::interpreter::lemma_step_more_fuel;
pub use self::interpreter::lemma_loop_wf;
pub use self::interpreter::lemma_run_wf;
pub use self::interpreter::lemma_step_wf;
pub use self::interpreter::lemma_loop_next;
pub use self::interpreter::lemma_run_last;
pub use self::interpreter::lemma_run_push;
pub use self::interpreter::lemma_run_failed_prefix;
pub use self::interpreter::lemma_run_fuel;
pub use self::interpreter::lemma_step_fuel;
pub use self::interpreter::interpret_instruction;
pub use self::interpreter::run;
pub use self::interpreter::run_loop;
pub use self::interpreter::step;

use vstd::prelude::*;

verus! {

/// A program is a sequence of instructions.
pub type Program = [Instruction];

/// Instructions as output by the peephole optimizer.
#[derive(Debug, PartialEq, Eq)]
pub enum Instruction {
    /// Move the pointer left by the specified offset.
    Left(usize),
    /// Move the pointer right by the specified offset.
    Right(usize),
    /// Change the value at the pointer by the specified offset.
    Change(u8),
    /// Read input.
    In,
    /// Write output.
    Out,
    /// Set the current byte to 0.
    SetZero,
    /// Add the byte at the pointer to the byte at the specified offset to the
    /// right and zero the byte at the pointer.
    OffsetAddRight(usize),
    /// Add the byte at the pointer to the byte at the specified offset to the
    /// left and zero the byte at the pointer.
    OffsetAddLeft(usize),
    /// Move the pointer right to a zero, skipping the offset at a time.
    FindZeroRight(usize),
    /// Move the pointer left to a zero, skipping the offset at a time.
    FindZeroLeft(usize),
    /// A loop.
    Loop(Vec<Instruction>),
}

/// The model of an instruction.
pub enum Node {
    Left(usize),
    Right(usize),
    Change(u8),
    In,
    Out,
    SetZero,
    OffsetAddRight(usize),
    OffsetAddLeft(usize),
    FindZeroRight(usize),
    FindZeroLeft(usize),
    Loop(Seq<Node>),
}

/// The model of one instruction.
pub open spec fn statement_view(s: Instruction) -> Node
    decreases s,
{
    match s {
        Instruction::Left(n) => Node::Left(n),
        Instruction::Right(n) => Node::Right(n),
        Instruction::Change(d) => Node::Change(d),
        Instruction::In => Node::In,
        Instruction::Out => Node::Out,
        Instruction::SetZero => Node::SetZero,
        Instruction::OffsetAddRight(n) => Node::OffsetAddRight(n),
        Instruction::OffsetAddLeft(n) => Node::OffsetAddLeft(n),
        Instruction::FindZeroRight(n) => Node::FindZeroRight(n),
        Instruction::FindZeroLeft(n) => Node::FindZeroLeft(n),
        Instruction::Loop(body) => Node::Loop(program_view(body@)),
    }
}

/// The model of a sequence of instructions.
pub open spec fn program_view(p: Seq<Instruction>) -> Seq<Node>
    decreases p,
{
    Seq::new(
        p.len(),
        |i: int|
            if 0 <= i < p.len() {
                statement_view(p[i])
            } else {
                Node::In
            },
    )
}

impl View for Instruction {
    type V = Node;

    open spec fn view(&self) -> Node {
        statement_view(*self)
    }
}

impl Clone for Instruction {
    /// A copy with the same model.
    fn clone(&self) -> (r: Self)
        ensures
            statement_view(r) == statement_view(*self),
        decreases self,
    {
        match self {
            Instruction::Left(n) => Instruction::Left(*n),
            Instruction::Right(n) => Instruction::Right(*n),
            Instruction::Change(d) => Instruction::Change(*d),
            Instruction::In => Instruction::In,
            Instruction::Out => Instruction::Out,
            Instruction::SetZero => Instruction::SetZero,
            Instruction::OffsetAddRight(n) => Instruction::OffsetAddRight(*n),
            Instruction::OffsetAddLeft(n) => Instruction::OffsetAddLeft(*n),
            Instruction::FindZeroRight(n) => Instruction::FindZeroRight(*n),
            Instruction::FindZeroLeft(n) => Instruction::FindZeroLeft(*n),
            Instruction::Loop(body) => {
                let mut copy: Vec<Instruction> = Vec::new();
                let mut i: usize = 0;
                while i < body.len()
                    invariant
                        i <= body.len(),
                        *self == Instruction::Loop(*body),
                        copy@.len() == i,
                        forall|j: int|
                            0 <= j < i ==> statement_view(#[trigger] copy@[j]) == statement_view(
                                body@[j],
                            ),
                    decreases body.len() - i,
                {
                    proof {
                        assert(decreases_to!(*self => self->Loop_0));
                        assert(decreases_to!(self->Loop_0 => self->Loop_0@));
                        assert(decreases_to!(self->Loop_0@ => self->Loop_0@[i as int]));
                    }
                    copy.push(body[i].clone());
                    i += 1;
                }
                proof {
                    assert(program_view(copy@) =~= program_view(body@));
                }
                Instruction::Loop(copy)
            },
        }
    }
}

} // verus!
