//! The tiers agree: whatever the syntax tree computes, every form compiled
//! from it computes too.

use vstd::prelude::*;
use crate::ast;
use crate::bytecode;
use crate::peephole;
use crate::rle;
use crate::state::Machine;
use crate::traits::memory_result;

verus! {

/// Where a syntax tree runs to its end from a machine, so does each form
/// compiled from it, and all end with the same machine: the run-length
/// encoded tree with the same fuel left, the peephole-optimised program and
/// its bytecode with no less. The bytecode is there if the operands of the
/// program fit its operand field.
pub proof fn lemma_tiers_agree(p: Seq<ast::Node>, m: Machine, fuel: nat)
    requires
        m.wf(),
        ast::run(p, m, fuel) is Done,
    ensures
        rle::run(rle::encode(p), m, fuel) == ast::run(p, m, fuel),
        peephole::ends_with(
            peephole::run(peephole::encode(p), m, fuel),
            ast::run(p, m, fuel)->Done_machine,
            ast::run(p, m, fuel)->Done_fuel,
        ),
        bytecode::representable(peephole::encode(p), 0) ==> peephole::ends_with(
            bytecode::run_from(bytecode::lower(peephole::encode(p), 0), 0, m, fuel),
            ast::run(p, m, fuel)->Done_machine,
            ast::run(p, m, fuel)->Done_fuel,
        ),
{
    rle::lemma_encode_run(p, m, fuel);
    peephole::lemma_encode_run(p, m, fuel);
    if bytecode::representable(peephole::encode(p), 0) {
        bytecode::lemma_lower_run(peephole::encode(p), m, fuel);
    }
}

/// The run-length encoded tree returns from memory what the syntax tree
/// returns, for every program, input, tape size and fuel: the same output,
/// or the same error.
pub proof fn lemma_memory_results_same_encoded(
    p: Seq<ast::Node>,
    capacity: nat,
    input: Seq<u8>,
    fuel: nat,
)
    requires
        capacity > 0,
    ensures
        memory_result(rle::run(rle::encode(p), Machine::start(capacity, input), fuel))
            == memory_result(ast::run(p, Machine::start(capacity, input), fuel)),
{
    rle::lemma_encode_agrees(p, Machine::start(capacity, input), fuel);
}

/// Where a program, run from memory as a syntax tree, returns its output,
/// each form compiled from it returns the same output for the same input,
/// tape size and fuel.
pub proof fn lemma_memory_results_agree(
    p: Seq<ast::Node>,
    capacity: nat,
    input: Seq<u8>,
    fuel: nat,
)
    requires
        capacity > 0,
        memory_result(ast::run(p, Machine::start(capacity, input), fuel)) is Ok,
    ensures
        memory_result(rle::run(rle::encode(p), Machine::start(capacity, input), fuel))
            == memory_result(ast::run(p, Machine::start(capacity, input), fuel)),
        memory_result(peephole::run(peephole::encode(p), Machine::start(capacity, input), fuel))
            == memory_result(ast::run(p, Machine::start(capacity, input), fuel)),
        bytecode::representable(peephole::encode(p), 0) ==> memory_result(
            bytecode::run_from(
                bytecode::lower(peephole::encode(p), 0),
                0,
                Machine::start(capacity, input),
                fuel,
            ),
        ) == memory_result(ast::run(p, Machine::start(capacity, input), fuel)),
{
    lemma_tiers_agree(p, Machine::start(capacity, input), fuel);
}

/// A program that ends within some fuel gives, with that fuel or any more,
/// the same output in every form: fuel bounds a run and changes nothing of
/// what it computes.
pub proof fn lemma_memory_results_agree_with_more(
    p: Seq<ast::Node>,
    capacity: nat,
    input: Seq<u8>,
    fuel: nat,
    more: nat,
)
    requires
        capacity > 0,
        more >= fuel,
        memory_result(ast::run(p, Machine::start(capacity, input), fuel)) is Ok,
    ensures
        memory_result(ast::run(p, Machine::start(capacity, input), more)) == memory_result(
            ast::run(p, Machine::start(capacity, input), fuel),
        ),
        memory_result(rle::run(rle::encode(p), Machine::start(capacity, input), more))
            == memory_result(ast::run(p, Machine::start(capacity, input), fuel)),
        memory_result(peephole::run(peephole::encode(p), Machine::start(capacity, input), more))
            == memory_result(ast::run(p, Machine::start(capacity, input), fuel)),
        bytecode::representable(peephole::encode(p), 0) ==> memory_result(
            bytecode::run_from(
                bytecode::lower(peephole::encode(p), 0),
                0,
                Machine::start(capacity, input),
                more,
            ),
        ) == memory_result(ast::run(p, Machine::start(capacity, input), fuel)),
{
    let start = Machine::start(capacity, input);
    ast::lemma_run_more_fuel(p, start, fuel, (more - fuel) as nat);
    assert(fuel + (more - fuel) as nat == more);
    lemma_tiers_agree(p, start, more);
}

} // verus!
