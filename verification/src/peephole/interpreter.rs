//! The meaning of a peephole-optimised program, and the interpreter that
//! computes it.

use vstd::prelude::*;
use crate::common::Error;
use crate::peephole::{program_view, statement_view, Instruction, Node};
use crate::state::{
    lift, machine_of, outcome_of, raised, settled, sought, Input, Machine, Outcome, State,
};
use crate::traits::Interpretable;

verus! {

/// The outcome of running the instructions of `p` in order from `m`, with
/// `fuel` loop iterations allowed.
pub open spec fn run(p: Seq<Node>, m: Machine, fuel: nat) -> Outcome
    decreases fuel, p,
{
    if p.len() == 0 {
        Outcome::Done { machine: m, fuel }
    } else {
        match run(p.drop_last(), m, fuel) {
            Outcome::Done { machine, fuel: left } => if left <= fuel {
                step(p.last(), machine, left)
            } else {
                Outcome::Failed { error: Error::StepLimit, machine }
            },
            failed => failed,
        }
    }
}

/// The outcome of one instruction. Only a loop costs fuel.
pub open spec fn step(s: Node, m: Machine, fuel: nat) -> Outcome
    decreases fuel, s,
{
    match s {
        Node::Left(n) => lift(m.left(n as nat), m, fuel),
        Node::Right(n) => lift(m.right(n as nat), m, fuel),
        Node::Change(d) => Outcome::Done { machine: m.up(d), fuel },
        Node::In => Outcome::Done { machine: m.read(), fuel },
        Node::Out => Outcome::Done { machine: m.write(), fuel },
        Node::SetZero => Outcome::Done { machine: m.zero(), fuel },
        Node::OffsetAddRight(k) => lift(m.offset_add_right(k as nat), m, fuel),
        Node::OffsetAddLeft(k) => lift(m.offset_add_left(k as nat), m, fuel),
        Node::FindZeroRight(s) => sought(m.tape.seek_right(s as nat), m, fuel),
        Node::FindZeroLeft(s) => sought(m.tape.seek_left(s as nat), m, fuel),
        Node::Loop(body) => run_loop(body, m, fuel),
    }
}

/// The outcome of a loop: while the current cell is not 0, one iteration is
/// paid for and the body runs.
pub open spec fn run_loop(body: Seq<Node>, m: Machine, fuel: nat) -> Outcome
    decreases fuel, body,
{
    if m.cell() == 0 {
        Outcome::Done { machine: m, fuel }
    } else if fuel == 0 {
        Outcome::Failed { error: Error::StepLimit, machine: m }
    } else {
        match run(body, m, (fuel - 1) as nat) {
            Outcome::Done { machine, fuel: left } => if left < fuel {
                run_loop(body, machine, left)
            } else {
                Outcome::Failed { error: Error::StepLimit, machine }
            },
            failed => failed,
        }
    }
}

/// A run never ends with more fuel than it began with.
pub proof fn lemma_run_fuel(p: Seq<Node>, m: Machine, fuel: nat)
    ensures
        run(p, m, fuel) matches Outcome::Done { fuel: left, .. } ==> left <= fuel,
    decreases fuel, p,
{
    if p.len() > 0 {
        lemma_run_fuel(p.drop_last(), m, fuel);
        match run(p.drop_last(), m, fuel) {
            Outcome::Done { machine, fuel: left } => {
                if left <= fuel {
                    lemma_step_fuel(p.last(), machine, left);
                }
            },
            _ => {},
        }
    }
}

/// A statement never ends with more fuel than it began with.
pub proof fn lemma_step_fuel(s: Node, m: Machine, fuel: nat)
    ensures
        step(s, m, fuel) matches Outcome::Done { fuel: left, .. } ==> left <= fuel,
    decreases fuel, s,
{
    match s {
        Node::Loop(body) => {
            lemma_loop_fuel(body, m, fuel);
        },
        _ => {},
    }
}

/// A loop never ends with more fuel than it began with.
pub proof fn lemma_loop_fuel(body: Seq<Node>, m: Machine, fuel: nat)
    ensures
        run_loop(body, m, fuel) matches Outcome::Done { fuel: left, .. } ==> left <= fuel,
    decreases fuel, body,
{
    if m.cell() != 0 && fuel > 0 {
        lemma_run_fuel(body, m, (fuel - 1) as nat);
        match run(body, m, (fuel - 1) as nat) {
            Outcome::Done { machine, fuel: left } => {
                if left < fuel {
                    lemma_loop_fuel(body, machine, left);
                }
            },
            _ => {},
        }
    }
}

/// A run of a program that is not empty is the run of all but the last
/// statement, followed by the last.
pub proof fn lemma_run_last(p: Seq<Node>, m: Machine, fuel: nat)
    requires
        p.len() > 0,
    ensures
        run(p, m, fuel) == match run(p.drop_last(), m, fuel) {
            Outcome::Done { machine, fuel: left } => step(p.last(), machine, left),
            failed => failed,
        },
{
    lemma_run_fuel(p.drop_last(), m, fuel);
}

/// A run of a program with one more statement at its end.
pub proof fn lemma_run_push(q: Seq<Node>, s: Node, m: Machine, fuel: nat)
    ensures
        run(q.push(s), m, fuel) == match run(q, m, fuel) {
            Outcome::Done { machine, fuel: left } => step(s, machine, left),
            failed => failed,
        },
{
    assert(q.push(s).drop_last() =~= q);
    lemma_run_last(q.push(s), m, fuel);
}

/// A loop on a cell that is not 0, with fuel left, runs its body once and
/// then goes on as a loop.
pub proof fn lemma_loop_next(body: Seq<Node>, m: Machine, fuel: nat)
    requires
        m.cell() != 0,
        fuel > 0,
    ensures
        run_loop(body, m, fuel) == match run(body, m, (fuel - 1) as nat) {
            Outcome::Done { machine, fuel: left } => run_loop(body, machine, left),
            failed => failed,
        },
{
    lemma_run_fuel(body, m, (fuel - 1) as nat);
}

/// A run that ends leaves the pointer on a cell.
pub proof fn lemma_run_wf(p: Seq<Node>, m: Machine, fuel: nat)
    requires
        m.wf(),
    ensures
        run(p, m, fuel) matches Outcome::Done { machine, .. } ==> machine.wf(),
    decreases fuel, p,
{
    if p.len() > 0 {
        lemma_run_wf(p.drop_last(), m, fuel);
        match run(p.drop_last(), m, fuel) {
            Outcome::Done { machine, fuel: left } => {
                if left <= fuel {
                    lemma_step_wf(p.last(), machine, left);
                }
            },
            _ => {},
        }
    }
}

/// A statement that ends leaves the pointer on a cell.
pub proof fn lemma_step_wf(s: Node, m: Machine, fuel: nat)
    requires
        m.wf(),
    ensures
        step(s, m, fuel) matches Outcome::Done { machine, .. } ==> machine.wf(),
    decreases fuel, s,
{
    match s {
        Node::Loop(body) => {
            lemma_loop_wf(body, m, fuel);
        },
        Node::FindZeroRight(stride) => {
            m.tape.lemma_seek_right_wf(stride as nat);
        },
        Node::FindZeroLeft(stride) => {
            m.tape.lemma_seek_left_wf(stride as nat);
        },
        _ => {},
    }
}

/// A loop that ends leaves the pointer on a cell.
pub proof fn lemma_loop_wf(body: Seq<Node>, m: Machine, fuel: nat)
    requires
        m.wf(),
    ensures
        run_loop(body, m, fuel) matches Outcome::Done { machine, .. } ==> machine.wf(),
    decreases fuel, body,
{
    if m.cell() != 0 && fuel > 0 {
        lemma_run_wf(body, m, (fuel - 1) as nat);
        match run(body, m, (fuel - 1) as nat) {
            Outcome::Done { machine, fuel: left } => {
                if left < fuel {
                    lemma_loop_wf(body, machine, left);
                }
            },
            _ => {},
        }
    }
}

/// Fuel only bounds a run: a run that did not stop for want of fuel goes the
/// same way with more, and has as much more left at its end.
pub proof fn lemma_run_more_fuel(p: Seq<Node>, m: Machine, fuel: nat, extra: nat)
    requires
        settled(run(p, m, fuel)),
    ensures
        run(p, m, fuel + extra) == raised(run(p, m, fuel), extra),
    decreases fuel, p,
{
    if p.len() > 0 {
        lemma_run_last(p, m, fuel);
        lemma_run_last(p, m, fuel + extra);
        lemma_run_fuel(p.drop_last(), m, fuel);
        lemma_run_more_fuel(p.drop_last(), m, fuel, extra);
        match run(p.drop_last(), m, fuel) {
            Outcome::Done { machine, fuel: left } => {
                lemma_step_more_fuel(p.last(), machine, left, extra);
            },
            _ => {},
        }
    }
}

/// A statement that did not stop for want of fuel goes the same way with
/// more.
pub proof fn lemma_step_more_fuel(s: Node, m: Machine, fuel: nat, extra: nat)
    requires
        settled(step(s, m, fuel)),
    ensures
        step(s, m, fuel + extra) == raised(step(s, m, fuel), extra),
    decreases fuel, s,
{
    match s {
        Node::Loop(body) => {
            lemma_loop_more_fuel(body, m, fuel, extra);
        },
        _ => {},
    }
}

/// A loop that did not stop for want of fuel goes the same way with more.
pub proof fn lemma_loop_more_fuel(body: Seq<Node>, m: Machine, fuel: nat, extra: nat)
    requires
        settled(run_loop(body, m, fuel)),
    ensures
        run_loop(body, m, fuel + extra) == raised(run_loop(body, m, fuel), extra),
    decreases fuel, body,
{
    if m.cell() != 0 && fuel > 0 {
        let less = (fuel - 1) as nat;
        lemma_loop_next(body, m, fuel);
        lemma_loop_next(body, m, fuel + extra);
        lemma_run_fuel(body, m, less);
        assert((fuel + extra - 1) as nat == less + extra);
        lemma_run_more_fuel(body, m, less, extra);
        match run(body, m, less) {
            Outcome::Done { machine, fuel: left } => {
                lemma_loop_more_fuel(body, machine, left, extra);
            },
            _ => {},
        }
    }
}

/// A run that fails on a prefix fails in the same way on the whole.
pub proof fn lemma_run_failed_prefix(p: Seq<Node>, k: int, m: Machine, fuel: nat)
    requires
        0 <= k <= p.len(),
        run(p.take(k), m, fuel) is Failed,
    ensures
        run(p, m, fuel) == run(p.take(k), m, fuel),
    decreases p.len(),
{
    if k == p.len() {
        assert(p.take(k) =~= p);
    } else {
        assert(p.drop_last().take(k) =~= p.take(k));
        lemma_run_failed_prefix(p.drop_last(), k, m, fuel);
    }
}

impl Interpretable for [Instruction] {
    open spec fn meaning(&self, m: Machine, fuel: nat) -> Outcome {
        run(program_view(self@), m, fuel)
    }

    fn interpret_state(&self, state: State, input: Input, output: &mut Vec<u8>, fuel: u64) -> (r:
        Result<(), Error>) {
        let mut state = state;
        let mut input = input;
        match interpret(self, &mut state, &mut input, output, fuel) {
            Ok(_) => Ok(()),
            Err(e) => Err(e),
        }
    }
}

/// Runs `program` on the given tape, input and output, with `fuel` loop
/// iterations allowed; returns the iterations left unused.
pub fn interpret(
    program: &[Instruction],
    state: &mut State,
    input: &mut Input,
    output: &mut Vec<u8>,
    fuel: u64,
) -> (r: Result<u64, Error>)
    requires
        old(state).wf(),
        old(input).wf(),
    ensures
        final(state).wf(),
        final(input).wf(),
        r matches Ok(left) ==> left <= fuel,
        run(
            program_view(program@),
            machine_of(*old(state), *old(input), *old(output)),
            fuel as nat,
        ) == outcome_of(r, machine_of(*final(state), *final(input), *final(output))),
    decreases fuel, program@,
{
    let ghost start = machine_of(*state, *input, *output);
    let ghost tree = program_view(program@);
    let mut left = fuel;
    let mut i: usize = 0;
    while i < program.len()
        invariant
            i <= program.len(),
            state.wf(),
            input.wf(),
            left <= fuel,
            tree == program_view(program@),
            start == machine_of(*old(state), *old(input), *old(output)),
            run(tree.take(i as int), start, fuel as nat) == (Outcome::Done {
                machine: machine_of(*state, *input, *output),
                fuel: left as nat,
            }),
        decreases program.len() - i,
    {
        proof {
            assert(tree.take(i + 1).drop_last() =~= tree.take(i as int));
            assert(tree.take(i + 1).last() == statement_view(program@[i as int]));
        }
        match interpret_instruction(&program[i], state, input, output, left) {
            Ok(l) => {
                left = l;
            },
            Err(e) => {
                proof {
                    lemma_run_failed_prefix(tree, i + 1, start, fuel as nat);
                }
                return Err(e);
            },
        }
        i += 1;
    }
    proof {
        assert(tree.take(i as int) =~= tree);
    }
    Ok(left)
}

/// Runs one instruction.
pub fn interpret_instruction(
    instruction: &Instruction,
    state: &mut State,
    input: &mut Input,
    output: &mut Vec<u8>,
    fuel: u64,
) -> (r: Result<u64, Error>)
    requires
        old(state).wf(),
        old(input).wf(),
    ensures
        final(state).wf(),
        final(input).wf(),
        r matches Ok(left) ==> left <= fuel,
        step(
            statement_view(*instruction),
            machine_of(*old(state), *old(input), *old(output)),
            fuel as nat,
        ) == outcome_of(r, machine_of(*final(state), *final(input), *final(output))),
    decreases fuel, *instruction,
{
    let ghost start = machine_of(*state, *input, *output);
    match instruction {
        Instruction::Left(count) => {
            state.left(*count)?;
        },
        Instruction::Right(count) => {
            state.right(*count)?;
        },
        Instruction::Change(delta) => {
            state.up(*delta);
        },
        Instruction::In => {
            state.read(input);
        },
        Instruction::Out => {
            state.write(output);
        },
        Instruction::SetZero => {
            state.store(0);
        },
        Instruction::OffsetAddRight(offset) => {
            let value = state.load();
            if value != 0 {
                state.up_pos_offset(*offset, value)?;
                state.store(0);
            }
        },
        Instruction::OffsetAddLeft(offset) => {
            let value = state.load();
            if value != 0 {
                state.up_neg_offset(*offset, value)?;
                state.store(0);
            }
        },
        Instruction::FindZeroRight(stride) => {
            state.find_zero_right(*stride)?;
        },
        Instruction::FindZeroLeft(stride) => {
            state.find_zero_left(*stride)?;
        },
        Instruction::Loop(body) => {
            let ghost tree = program_view(body@);
            let mut left = fuel;
            while state.load() != 0
                invariant
                    state.wf(),
                    input.wf(),
                    left <= fuel,
                    tree == program_view(body@),
                    start == machine_of(*old(state), *old(input), *old(output)),
                    statement_view(*instruction) == Node::Loop(tree),
                    run_loop(tree, start, fuel as nat) == run_loop(
                        tree,
                        machine_of(*state, *input, *output),
                        left as nat,
                    ),
                decreases left,
            {
                if left == 0 {
                    return Err(Error::StepLimit);
                }
                left = interpret(body.as_slice(), state, input, output, left - 1)?;
            }
            return Ok(left);
        },
    }
    Ok(fuel)
}

} // verus!
