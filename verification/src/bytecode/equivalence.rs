//! Bytecode means what the peephole-optimised program means.

use vstd::prelude::*;
use crate::bytecode::{
    lemma_lower_len, lemma_lower_node_len, lower, lower_node, node_representable, node_size,
    representable, run_from, size,
};
use crate::common::Instruction;
use crate::peephole;
use crate::peephole::Node;
use crate::state::{Machine, Outcome};

verus! {

/// `code` holds the bytecode of `p` from position `base` on.
pub open spec fn holds(code: Seq<Instruction>, p: Seq<Node>, base: nat) -> bool {
    base + size(p) <= code.len() && code.subrange(base as int, (base + size(p)) as int)
        == lower(p, base)
}

/// `code` holds the bytecode of `n` from position `at` on.
pub open spec fn holds_node(code: Seq<Instruction>, n: Node, at: nat) -> bool {
    at + node_size(n) <= code.len() && code.subrange(at as int, (at + node_size(n)) as int)
        == lower_node(n, at)
}

/// The run that continues at `pc` where `outcome` came to an end.
pub open spec fn resume(code: Seq<Instruction>, pc: nat, outcome: Outcome) -> Outcome {
    match outcome {
        Outcome::Done { machine, fuel } => run_from(code, pc, machine, fuel),
        failed => failed,
    }
}

/// What a loop does once its first iteration is paid for: the body, and then
/// the loop again.
pub open spec fn iterate(body: Seq<Node>, m: Machine, fuel: nat) -> Outcome {
    match peephole::run(body, m, fuel) {
        Outcome::Done { machine, fuel: left } => peephole::run_loop(body, machine, left),
        failed => failed,
    }
}

/// Running the bytecode of a program does what the program does, and goes on
/// behind it.
pub proof fn lemma_resume(code: Seq<Instruction>, p: Seq<Node>, base: nat, m: Machine, fuel: nat)
    requires
        holds(code, p, base),
        representable(p, base),
    ensures
        run_from(code, base, m, fuel) == resume(code, base + size(p), peephole::run(p, m, fuel)),
    decreases fuel, p, 1nat,
{
    if p.len() > 0 {
        let front = p.drop_last();
        let at = base + size(front);
        let text = lower(p, base);
        lemma_lower_len(front, base);
        lemma_lower_node_len(p.last(), at);
        assert(code.subrange(base as int, at as int) =~= text.subrange(0, size(front) as int));
        assert(text.subrange(0, size(front) as int) =~= lower(front, base));
        assert(code.subrange(at as int, (at + node_size(p.last())) as int) =~= text.subrange(
            size(front) as int,
            text.len() as int,
        ));
        assert(text.subrange(size(front) as int, text.len() as int) =~= lower_node(p.last(), at));
        lemma_resume(code, front, base, m, fuel);
        peephole::lemma_run_last(p, m, fuel);
        peephole::lemma_run_fuel(front, m, fuel);
        match peephole::run(front, m, fuel) {
            Outcome::Done { machine, fuel: left } => {
                lemma_resume_node(code, p.last(), at, machine, left);
            },
            _ => {},
        }
    }
}

/// Running the bytecode of an instruction does what the instruction does, and
/// goes on behind it.
proof fn lemma_resume_node(code: Seq<Instruction>, n: Node, at: nat, m: Machine, fuel: nat)
    requires
        holds_node(code, n, at),
        node_representable(n, at),
    ensures
        run_from(code, at, m, fuel) == resume(
            code,
            at + node_size(n),
            peephole::step(n, m, fuel),
        ),
    decreases fuel, n, 0nat,
{
    let text = lower_node(n, at);
    assert(code[at as int] == code.subrange(at as int, (at + node_size(n)) as int)[0]);
    assert(code[at as int] == text[0]);
    match n {
        Node::Loop(body) => {
            let exit = at + size(body) + 2;
            lemma_loop_shape(code, body, at);
            if m.cell() != 0 && fuel > 0 {
                lemma_resume_loop(code, body, at, m, (fuel - 1) as nat);
                peephole::lemma_loop_next(body, m, fuel);
            }
        },
        _ => {},
    }
}

/// Where `code` holds a loop, it holds the two jumps and, between them, the
/// body.
proof fn lemma_loop_shape(code: Seq<Instruction>, body: Seq<Node>, at: nat)
    requires
        holds_node(code, Node::Loop(body), at),
        node_representable(Node::Loop(body), at),
    ensures
        code[at as int] == Instruction::JumpZero((at + size(body) + 2) as u32),
        code[(at + 1 + size(body)) as int] == Instruction::JumpNotZero((at + 1) as u32),
        holds(code, body, at + 1),
        representable(body, at + 1),
        at + size(body) + 2 <= code.len(),
        at + size(body) + 2 <= u32::MAX,
{
    let n = Node::Loop(body);
    let text = lower_node(n, at);
    let inner = lower(body, at + 1);
    lemma_lower_len(body, at + 1);
    assert(text.len() == size(body) + 2);
    let a = at as int;
    let sz = size(body) as int;
    let whole = code.subrange(a, a + sz + 2);
    assert(code[a] == whole[0]);
    assert(code[a + 1 + sz] == whole[1 + sz]);
    assert(code.subrange(a + 1, a + 1 + sz) =~= text.subrange(1, 1 + sz));
    assert(text.subrange(1, 1 + sz) =~= inner);
}

/// From the start of a loop's body, with the iteration paid for, the bytecode
/// does the body and then what the loop does, and goes on behind the loop.
proof fn lemma_resume_loop(code: Seq<Instruction>, body: Seq<Node>, at: nat, m: Machine, fuel: nat)
    requires
        holds_node(code, Node::Loop(body), at),
        node_representable(Node::Loop(body), at),
    ensures
        run_from(code, at + 1, m, fuel) == resume(
            code,
            at + size(body) + 2,
            iterate(body, m, fuel),
        ),
    decreases fuel, body, 2nat,
{
    lemma_loop_shape(code, body, at);
    lemma_resume(code, body, at + 1, m, fuel);
    peephole::lemma_run_fuel(body, m, fuel);
    match peephole::run(body, m, fuel) {
        Outcome::Done { machine, fuel: left } => {
            if machine.cell() != 0 && left > 0 {
                lemma_resume_loop(code, body, at, machine, (left - 1) as nat);
                peephole::lemma_loop_next(body, machine, left);
            }
        },
        _ => {},
    }
}

/// The bytecode of a program means what the program means: run from its
/// first instruction, it ends as the program ends, with the same machine and
/// the same fuel, or fails as the program fails.
pub proof fn lemma_lower_run(p: Seq<Node>, m: Machine, fuel: nat)
    requires
        representable(p, 0),
    ensures
        run_from(lower(p, 0), 0, m, fuel) == peephole::run(p, m, fuel),
{
    let code = lower(p, 0);
    lemma_lower_len(p, 0);
    assert(code.subrange(0, size(p) as int) =~= code);
    lemma_resume(code, p, 0, m, fuel);
}

} // verus!
