//! The meaning of bytecode, and the interpreter that computes it.

use vstd::prelude::*;
use crate::common::{Error, Instruction};
use crate::state::{
    machine_of, outcome_of, raised, settled, Input, Machine, Outcome, State,
};
use crate::traits::{Interpretable, IntoUsize};

verus! {

/// The number of instructions from `pc` to the end of the code.
pub open spec fn gap(len: nat, pc: nat) -> nat {
    if pc <= len {
        (len - pc) as nat
    } else {
        0
    }
}

/// The outcome of running `code` from position `pc` and machine `m`, with
/// `fuel` loop iterations allowed. The run ends when the position is past the
/// last instruction. A taken jump continues at its target. Entering the body
/// of a loop, by falling through a `JumpZero` or by taking a `JumpNotZero`,
/// costs one unit of fuel, and so does a `JumpZero` that does not go forward.
pub open spec fn run_from(code: Seq<Instruction>, pc: nat, m: Machine, fuel: nat) -> Outcome
    decreases fuel, gap(code.len(), pc),
{
    if pc >= code.len() {
        Outcome::Done { machine: m, fuel }
    } else {
        let next = (pc + 1) as nat;
        match code[pc as int] {
            Instruction::Left(n) => match m.left(n as nat) {
                Ok(machine) => run_from(code, next, machine, fuel),
                Err(error) => Outcome::Failed { error, machine: m },
            },
            Instruction::Right(n) => match m.right(n as nat) {
                Ok(machine) => run_from(code, next, machine, fuel),
                Err(error) => Outcome::Failed { error, machine: m },
            },
            Instruction::Change(d) => run_from(code, next, m.up(d), fuel),
            Instruction::In => run_from(code, next, m.read(), fuel),
            Instruction::Out => run_from(code, next, m.write(), fuel),
            Instruction::SetZero => run_from(code, next, m.zero(), fuel),
            Instruction::OffsetAddRight(k) => match m.offset_add_right(k as nat) {
                Ok(machine) => run_from(code, next, machine, fuel),
                Err(error) => Outcome::Failed { error, machine: m },
            },
            Instruction::OffsetAddLeft(k) => match m.offset_add_left(k as nat) {
                Ok(machine) => run_from(code, next, machine, fuel),
                Err(error) => Outcome::Failed { error, machine: m },
            },
            Instruction::FindZeroRight(s) => match m.tape.seek_right(s as nat) {
                Ok(tape) => run_from(code, next, m.with_tape(tape), fuel),
                Err((error, tape)) => Outcome::Failed { error, machine: m.with_tape(tape) },
            },
            Instruction::FindZeroLeft(s) => match m.tape.seek_left(s as nat) {
                Ok(tape) => run_from(code, next, m.with_tape(tape), fuel),
                Err((error, tape)) => Outcome::Failed { error, machine: m.with_tape(tape) },
            },
            Instruction::JumpZero(target) => if m.cell() == 0 {
                if target > pc {
                    run_from(code, target as nat, m, fuel)
                } else if fuel > 0 {
                    run_from(code, target as nat, m, (fuel - 1) as nat)
                } else {
                    Outcome::Failed { error: Error::StepLimit, machine: m }
                }
            } else if fuel > 0 {
                run_from(code, next, m, (fuel - 1) as nat)
            } else {
                Outcome::Failed { error: Error::StepLimit, machine: m }
            },
            Instruction::JumpNotZero(target) => if m.cell() != 0 {
                if fuel > 0 {
                    run_from(code, target as nat, m, (fuel - 1) as nat)
                } else {
                    Outcome::Failed { error: Error::StepLimit, machine: m }
                }
            } else {
                run_from(code, next, m, fuel)
            },
        }
    }
}

/// Fuel only bounds a run: a run that did not stop for want of fuel goes the
/// same way with more, and has as much more left at its end.
pub proof fn lemma_run_more_fuel(
    code: Seq<Instruction>,
    pc: nat,
    m: Machine,
    fuel: nat,
    extra: nat,
)
    requires
        settled(run_from(code, pc, m, fuel)),
    ensures
        run_from(code, pc, m, fuel + extra) == raised(run_from(code, pc, m, fuel), extra),
    decreases fuel, gap(code.len(), pc),
{
    if pc < code.len() {
        let next = (pc + 1) as nat;
        let less = (fuel - 1) as nat;
        if fuel > 0 {
            assert((fuel + extra - 1) as nat == less + extra);
        }
        match code[pc as int] {
            Instruction::Left(n) => {
                if m.left(n as nat) is Ok {
                    lemma_run_more_fuel(code, next, m.left(n as nat)->Ok_0, fuel, extra);
                }
            },
            Instruction::Right(n) => {
                if m.right(n as nat) is Ok {
                    lemma_run_more_fuel(code, next, m.right(n as nat)->Ok_0, fuel, extra);
                }
            },
            Instruction::Change(d) => {
                lemma_run_more_fuel(code, next, m.up(d), fuel, extra);
            },
            Instruction::In => {
                lemma_run_more_fuel(code, next, m.read(), fuel, extra);
            },
            Instruction::Out => {
                lemma_run_more_fuel(code, next, m.write(), fuel, extra);
            },
            Instruction::SetZero => {
                lemma_run_more_fuel(code, next, m.zero(), fuel, extra);
            },
            Instruction::OffsetAddRight(k) => {
                if m.offset_add_right(k as nat) is Ok {
                    lemma_run_more_fuel(
                        code,
                        next,
                        m.offset_add_right(k as nat)->Ok_0,
                        fuel,
                        extra,
                    );
                }
            },
            Instruction::OffsetAddLeft(k) => {
                if m.offset_add_left(k as nat) is Ok {
                    lemma_run_more_fuel(
                        code,
                        next,
                        m.offset_add_left(k as nat)->Ok_0,
                        fuel,
                        extra,
                    );
                }
            },
            Instruction::FindZeroRight(s) => {
                if m.tape.seek_right(s as nat) is Ok {
                    lemma_run_more_fuel(
                        code,
                        next,
                        m.with_tape(m.tape.seek_right(s as nat)->Ok_0),
                        fuel,
                        extra,
                    );
                }
            },
            Instruction::FindZeroLeft(s) => {
                if m.tape.seek_left(s as nat) is Ok {
                    lemma_run_more_fuel(
                        code,
                        next,
                        m.with_tape(m.tape.seek_left(s as nat)->Ok_0),
                        fuel,
                        extra,
                    );
                }
            },
            Instruction::JumpZero(target) => {
                if m.cell() == 0 {
                    if target > pc {
                        lemma_run_more_fuel(code, target as nat, m, fuel, extra);
                    } else if fuel > 0 {
                        lemma_run_more_fuel(code, target as nat, m, less, extra);
                    }
                } else if fuel > 0 {
                    lemma_run_more_fuel(code, next, m, less, extra);
                }
            },
            Instruction::JumpNotZero(target) => {
                if m.cell() != 0 {
                    if fuel > 0 {
                        lemma_run_more_fuel(code, target as nat, m, less, extra);
                    }
                } else {
                    lemma_run_more_fuel(code, next, m, fuel, extra);
                }
            },
        }
    }
}

impl Interpretable for [Instruction] {
    open spec fn meaning(&self, m: Machine, fuel: nat) -> Outcome {
        run_from(self@, 0, m, fuel)
    }

    fn interpret_state(&self, state: State, input: Input, output: &mut Vec<u8>, fuel: u64) -> (r:
        Result<(), Error>) {
        let mut state = state;
        let mut input = input;
        match interpret(self, &mut state, &mut input, output, fuel) {
            Ok(_) => Ok(()),
            Err(e) => Err(e),
        }
    }
}

/// Runs `program` from its first instruction on the given tape, input and
/// output, with `fuel` loop iterations allowed; returns the iterations left
/// unused.
pub fn interpret(
    program: &[Instruction],
    state: &mut State,
    input: &mut Input,
    output: &mut Vec<u8>,
    fuel: u64,
) -> (r: Result<u64, Error>)
    requires
        old(state).wf(),
        old(input).wf(),
    ensures
        final(state).wf(),
        final(input).wf(),
        r matches Ok(left) ==> left <= fuel,
        run_from(program@, 0, machine_of(*old(state), *old(input), *old(output)), fuel as nat)
            == outcome_of(r, machine_of(*final(state), *final(input), *final(output))),
{
    let ghost start = machine_of(*state, *input, *output);
    let mut left = fuel;
    let mut pc: usize = 0;
    while pc < program.len()
        invariant
            state.wf(),
            input.wf(),
            left <= fuel,
            start == machine_of(*old(state), *old(input), *old(output)),
            run_from(program@, 0, start, fuel as nat) == run_from(
                program@,
                pc as nat,
                machine_of(*state, *input, *output),
                left as nat,
            ),
        decreases left, gap(program@.len(), pc as nat),
    {
        let mut next = pc + 1;
        match program[pc] {
            Instruction::Left(count) => {
                state.left(count.into_usize())?;
            },
            Instruction::Right(count) => {
                state.right(count.into_usize())?;
            },
            Instruction::Change(delta) => {
                state.up(delta);
            },
            Instruction::In => {
                state.read(input);
            },
            Instruction::Out => {
                state.write(output);
            },
            Instruction::SetZero => {
                state.store(0);
            },
            Instruction::OffsetAddRight(offset) => {
                let value = state.load();
                if value != 0 {
                    state.up_pos_offset(offset.into_usize(), value)?;
                    state.store(0);
                }
            },
            Instruction::OffsetAddLeft(offset) => {
                let value = state.load();
                if value != 0 {
                    state.up_neg_offset(offset.into_usize(), value)?;
                    state.store(0);
                }
            },
            Instruction::FindZeroRight(stride) => {
                state.find_zero_right(stride.into_usize())?;
            },
            Instruction::FindZeroLeft(stride) => {
                state.find_zero_left(stride.into_usize())?;
            },
            Instruction::JumpZero(target) => {
                let target = target.into_usize();
                if state.load() == 0 {
                    if target <= pc {
                        if left == 0 {
                            return Err(Error::StepLimit);
                        }
                        left = left - 1;
                    }
                    next = target;
                } else {
                    if left == 0 {
                        return Err(Error::StepLimit);
                    }
                    left = left - 1;
                }
            },
            Instruction::JumpNotZero(target) => {
                if state.load() != 0 {
                    if left == 0 {
                        return Err(Error::StepLimit);
                    }
                    left = left - 1;
                    next = target.into_usize();
                }
            },
        }
        pc = next;
    }
    Ok(left)
}

} // verus!
