//! Running bytecode in steps, for a driver that does the reading and the
//! writing itself: the run goes on until it needs a byte read or written,
//! and is taken up again when that is done.

use vstd::prelude::*;
use crate::bytecode::run_from;
use crate::common::{Error, Instruction};
use crate::state::{Machine, Outcome, State, Tape};
use crate::traits::IntoUsize;

verus! {

/// What a run that has stopped asks of its driver.
#[derive(Copy, Clone, Debug, PartialEq, Eq, Structural)]
pub enum Request {
    /// Nothing: the run has come to its end.
    Done,
    /// The next byte of the input, or 0 where the input is at its end, is to
    /// be stored in the current cell.
    Read,
    /// The byte, which is the current cell, is to be written.
    Write(u8),
}

/// Where a run stands: the position of its next instruction, and the fuel it
/// has left.
#[derive(Copy, Clone, Debug, PartialEq, Eq, Structural)]
pub struct Position {
    pub pc: usize,
    pub fuel: u64,
}

/// The machine made of a tape and of what was read and written.
pub open spec fn machine_with(tape: Tape, input: Seq<u8>, output: Seq<u8>) -> Machine {
    Machine { tape, input, output }
}

/// How a run that has stopped with `request` at `at` ends, once the request
/// is served.
pub open spec fn served(
    code: Seq<Instruction>,
    request: Request,
    at: Position,
    tape: Tape,
    input: Seq<u8>,
    output: Seq<u8>,
) -> Outcome {
    match request {
        Request::Done => Outcome::Done {
            machine: machine_with(tape, input, output),
            fuel: at.fuel as nat,
        },
        Request::Read => run_from(
            code,
            at.pc as nat,
            machine_with(tape, input, output).read(),
            at.fuel as nat,
        ),
        Request::Write(byte) => run_from(
            code,
            at.pc as nat,
            machine_with(tape, input, output.push(byte)),
            at.fuel as nat,
        ),
    }
}

/// How a run ends that has gone on to `r`: as the request says once it is
/// served, or with the error.
pub open spec fn advanced(
    code: Seq<Instruction>,
    r: Result<(Request, Position), Error>,
    tape: Tape,
    input: Seq<u8>,
    output: Seq<u8>,
) -> Outcome {
    match r {
        Ok((request, next)) => served(code, request, next, tape, input, output),
        Err(error) => Outcome::Failed { error, machine: machine_with(tape, input, output) },
    }
}

/// The start of a run with `fuel` loop iterations allowed.
pub fn start(fuel: u64) -> (r: Position)
    ensures
        r == (Position { pc: 0, fuel }),
{
    Position { pc: 0, fuel }
}

/// Goes on with the run of `program` that stands at `at` until it ends,
/// fails, or needs a byte read or written. Whatever the input and the output
/// are, the run from `at` ends as the run does that is taken up where this
/// one stopped, after the request is served. For a read, the driver stores
/// the byte in the current cell before it goes on.
pub fn advance(program: &[Instruction], state: &mut State, at: Position) -> (r: Result<
    (Request, Position),
    Error,
>)
    requires
        old(state).wf(),
    ensures
        final(state).wf(),
        forall|input: Seq<u8>, output: Seq<u8>| #[trigger]
            run_from(
                program@,
                at.pc as nat,
                machine_with(old(state)@, input, output),
                at.fuel as nat,
            ) == advanced(program@, r, final(state)@, input, output),
        r matches Ok((Request::Write(byte), _)) ==> byte == final(state)@.cell(),
        r matches Ok((_, next)) ==> next.fuel <= at.fuel,
{
    let mut left = at.fuel;
    let mut pc: usize = at.pc;
    while pc < program.len()
        invariant
            state.wf(),
            left <= at.fuel,
            forall|input: Seq<u8>, output: Seq<u8>| #[trigger]
                run_from(
                    program@,
                    at.pc as nat,
                    machine_with(old(state)@, input, output),
                    at.fuel as nat,
                ) == run_from(
                    program@,
                    pc as nat,
                    machine_with(state@, input, output),
                    left as nat,
                ),
        decreases left, crate::bytecode::gap(program@.len(), pc as nat),
    {
        let ghost before = state@;
        let ghost here = pc;
        let ghost had = left;
        let mut next = pc + 1;
        match program[pc] {
            Instruction::Left(count) => {
                state.left(count.into_usize())?;
            },
            Instruction::Right(count) => {
                state.right(count.into_usize())?;
            },
            Instruction::Change(delta) => {
                state.up(delta);
            },
            Instruction::In => {
                return Ok((Request::Read, Position { pc: next, fuel: left }));
            },
            Instruction::Out => {
                return Ok((Request::Write(state.load()), Position { pc: next, fuel: left }));
            },
            Instruction::SetZero => {
                state.store(0);
            },
            Instruction::OffsetAddRight(offset) => {
                let value = state.load();
                if value != 0 {
                    state.up_pos_offset(offset.into_usize(), value)?;
                    state.store(0);
                }
            },
            Instruction::OffsetAddLeft(offset) => {
                let value = state.load();
                if value != 0 {
                    state.up_neg_offset(offset.into_usize(), value)?;
                    state.store(0);
                }
            },
            Instruction::FindZeroRight(stride) => {
                state.find_zero_right(stride.into_usize())?;
            },
            Instruction::FindZeroLeft(stride) => {
                state.find_zero_left(stride.into_usize())?;
            },
            Instruction::JumpZero(target) => {
                let target = target.into_usize();
                if state.load() == 0 {
                    if target <= pc {
                        if left == 0 {
                            return Err(Error::StepLimit);
                        }
                        left = left - 1;
                    }
                    next = target;
                } else {
                    if left == 0 {
                        return Err(Error::StepLimit);
                    }
                    left = left - 1;
                }
            },
            Instruction::JumpNotZero(target) => {
                if state.load() != 0 {
                    if left == 0 {
                        return Err(Error::StepLimit);
                    }
                    left = left - 1;
                    next = target.into_usize();
                }
            },
        }
        proof {
            assert forall|input: Seq<u8>, output: Seq<u8>| #[trigger]
                run_from(
                    program@,
                    at.pc as nat,
                    machine_with(old(state)@, input, output),
                    at.fuel as nat,
                ) == run_from(
                    program@,
                    next as nat,
                    machine_with(state@, input, output),
                    left as nat,
                ) by {
                assert(run_from(
                    program@,
                    here as nat,
                    machine_with(before, input, output),
                    had as nat,
                ) == run_from(
                    program@,
                    next as nat,
                    machine_with(state@, input, output),
                    left as nat,
                ));
            }
        }
        pc = next;
    }
    Ok((Request::Done, Position { pc, fuel: left }))
}

} // verus!
