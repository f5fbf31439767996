//! From the peephole-optimised program to bytecode.

use vstd::prelude::*;
use crate::ast;
use crate::bytecode::{jumps_matched, lemma_lower_matched, lemma_lower_run, run_from};
use crate::common::{Count, Error, Instruction, MAX_COUNT};
use crate::peephole;
use crate::peephole::{Node, PeepholeCompilable};
use crate::state::Machine;

verus! {

/// The number of bytecode instructions that a program takes.
pub open spec fn size(p: Seq<Node>) -> nat
    decreases p,
{
    if p.len() == 0 {
        0
    } else {
        size(p.drop_last()) + node_size(p.last())
    }
}

/// The number of bytecode instructions that one instruction takes: a loop
/// takes its body and two jumps.
pub open spec fn node_size(n: Node) -> nat
    decreases n,
{
    match n {
        Node::Loop(body) => size(body) + 2,
        _ => 1,
    }
}

/// Every operand of the program, and every jump target when the program is
/// placed at position `base`, fits the operand field.
pub open spec fn representable(p: Seq<Node>, base: nat) -> bool
    decreases p,
{
    if p.len() == 0 {
        true
    } else {
        representable(p.drop_last(), base) && node_representable(
            p.last(),
            base + size(p.drop_last()),
        )
    }
}

/// Every operand of the instruction, and every jump target when it is placed
/// at position `at`, fits the operand field.
pub open spec fn node_representable(n: Node, at: nat) -> bool
    decreases n,
{
    match n {
        Node::Left(k) => k <= MAX_COUNT,
        Node::Right(k) => k <= MAX_COUNT,
        Node::OffsetAddRight(k) => k <= MAX_COUNT,
        Node::OffsetAddLeft(k) => k <= MAX_COUNT,
        Node::FindZeroRight(k) => k <= MAX_COUNT,
        Node::FindZeroLeft(k) => k <= MAX_COUNT,
        Node::Loop(body) => representable(body, at + 1) && at + size(body) + 2 <= MAX_COUNT,
        _ => true,
    }
}

/// The bytecode of a program placed at position `base`.
pub open spec fn lower(p: Seq<Node>, base: nat) -> Seq<Instruction>
    decreases p,
{
    if p.len() == 0 {
        Seq::empty()
    } else {
        lower(p.drop_last(), base) + lower_node(p.last(), base + size(p.drop_last()))
    }
}

/// The bytecode of one instruction placed at position `at`. A loop becomes a
/// jump over its body taken on 0, the body, and a jump back to the start of
/// the body taken on a cell that is not 0.
pub open spec fn lower_node(n: Node, at: nat) -> Seq<Instruction>
    decreases n,
{
    match n {
        Node::Left(k) => seq![Instruction::Left(k as Count)],
        Node::Right(k) => seq![Instruction::Right(k as Count)],
        Node::Change(d) => seq![Instruction::Change(d)],
        Node::In => seq![Instruction::In],
        Node::Out => seq![Instruction::Out],
        Node::SetZero => seq![Instruction::SetZero],
        Node::OffsetAddRight(k) => seq![Instruction::OffsetAddRight(k as Count)],
        Node::OffsetAddLeft(k) => seq![Instruction::OffsetAddLeft(k as Count)],
        Node::FindZeroRight(k) => seq![Instruction::FindZeroRight(k as Count)],
        Node::FindZeroLeft(k) => seq![Instruction::FindZeroLeft(k as Count)],
        Node::Loop(body) => seq![Instruction::JumpZero((at + size(body) + 2) as Count)] + lower(
            body,
            at + 1,
        ) + seq![Instruction::JumpNotZero((at + 1) as Count)],
    }
}

/// The bytecode of a program takes as many instructions as `size` says.
pub proof fn lemma_lower_len(p: Seq<Node>, base: nat)
    ensures
        lower(p, base).len() == size(p),
    decreases p, 1nat,
{
    if p.len() > 0 {
        lemma_lower_len(p.drop_last(), base);
        lemma_lower_node_len(p.last(), base + size(p.drop_last()));
    }
}

/// The bytecode of an instruction takes as many instructions as `node_size`
/// says.
pub proof fn lemma_lower_node_len(n: Node, at: nat)
    ensures
        lower_node(n, at).len() == node_size(n),
    decreases n, 0nat,
{
    match n {
        Node::Loop(body) => {
            lemma_lower_len(body, at + 1);
        },
        _ => {},
    }
}

/// Program forms that can be compiled to bytecode.
pub trait BytecodeCompilable {
    /// The peephole-optimised form that the bytecode is made from.
    spec fn lowered(&self) -> Seq<Node>;

    /// Compile the program to bytecode. Fails with `CountOverflow` if, and
    /// only if, an operand or a jump target does not fit the operand field.
    fn bytecode_compile(&self) -> (r: Result<Vec<Instruction>, Error>)
        ensures
            representable(self.lowered(), 0) ==> r.is_ok() && r.unwrap()@ == lower(
                self.lowered(),
                0,
            ),
            !representable(self.lowered(), 0) ==> r == Err::<Vec<Instruction>, Error>(
                Error::CountOverflow,
            ),
    ;
}

impl BytecodeCompilable for [peephole::Instruction] {
    open spec fn lowered(&self) -> Seq<Node> {
        peephole::program_view(self@)
    }

    fn bytecode_compile(&self) -> (r: Result<Vec<Instruction>, Error>) {
        compile(self)
    }
}

impl BytecodeCompilable for [ast::Statement] {
    open spec fn lowered(&self) -> Seq<Node> {
        self.peephole_spec()
    }

    fn bytecode_compile(&self) -> (r: Result<Vec<Instruction>, Error>) {
        let optimised = self.peephole_compile();
        compile(optimised.as_slice())
    }
}

/// Compiles a peephole-optimised program to bytecode. Fails with
/// `CountOverflow` if, and only if, an operand or a jump target does not fit
/// the operand field. The bytecode has its jumps in pairs and does, from
/// every machine and with every fuel, what the program does.
pub fn compile(src: &[peephole::Instruction]) -> (r: Result<Vec<Instruction>, Error>)
    ensures
        representable(peephole::program_view(src@), 0) ==> r.is_ok() && r.unwrap()@ == lower(
            peephole::program_view(src@),
            0,
        ),
        !representable(peephole::program_view(src@), 0) ==> r == Err::<Vec<Instruction>, Error>(
            Error::CountOverflow,
        ),
        r matches Ok(code) ==> jumps_matched(code@, 0),
        r matches Ok(code) ==> forall|m: Machine, fuel: nat| #[trigger]
            run_from(code@, 0, m, fuel) == peephole::run(peephole::program_view(src@), m, fuel),
{
    let mut compiler = Compiler::new();
    match compiler.compile(src) {
        Ok(()) => {
            proof {
                let program = peephole::program_view(src@);
                lemma_lower_matched(program, 0);
                assert forall|m: Machine, fuel: nat| #[trigger]
                    run_from(lower(program, 0), 0, m, fuel) == peephole::run(
                        program,
                        m,
                        fuel,
                    ) by {
                    lemma_lower_run(program, m, fuel);
                }
                assert(Seq::<Instruction>::empty() + lower(peephole::program_view(src@), 0)
                    =~= lower(peephole::program_view(src@), 0));
            }
            Ok(compiler.into_program())
        },
        Err(e) => Err(e),
    }
}

/// Converts a `usize` to a `Count`, or fails with `CountOverflow` if it is
/// out of range.
pub fn usize_to_count(count: usize) -> (r: Result<Count, Error>)
    ensures
        count <= MAX_COUNT ==> r == Ok::<Count, Error>(count as Count),
        count > MAX_COUNT ==> r == Err::<Count, Error>(Error::CountOverflow),
{
    if count <= MAX_COUNT as usize {
        Ok(count as Count)
    } else {
        Err(Error::CountOverflow)
    }
}

/// The state of the compiler: the bytecode issued so far.
pub struct Compiler {
    instructions: Vec<Instruction>,
}

impl View for Compiler {
    type V = Seq<Instruction>;

    /// The bytecode issued so far.
    closed spec fn view(&self) -> Seq<Instruction> {
        self.instructions@
    }
}

impl Compiler {
    /// Creates a new compiler, with nothing issued.
    pub fn new() -> (r: Compiler)
        ensures
            r@ == Seq::<Instruction>::empty(),
    {
        Compiler { instructions: Vec::new() }
    }

    /// Compiles the given instructions after what is already issued. Fails
    /// with `CountOverflow` if, and only if, an operand or a jump target does
    /// not fit the operand field; what was issued before stays in front.
    pub fn compile(&mut self, src: &[peephole::Instruction]) -> (r: Result<(), Error>)
        ensures
            representable(peephole::program_view(src@), old(self)@.len()) ==> r.is_ok()
                && final(self)@ == old(self)@ + lower(
                peephole::program_view(src@),
                old(self)@.len(),
            ),
            !representable(peephole::program_view(src@), old(self)@.len()) ==> r == Err::<
                (),
                Error,
            >(Error::CountOverflow),
            old(self)@.len() <= final(self)@.len(),
            final(self)@.take(old(self)@.len() as int) == old(self)@,
        decreases src@,
    {
        let ghost tree = peephole::program_view(src@);
        let ghost base = self.instructions@.len();
        let mut i: usize = 0;
        proof {
            assert(tree.take(0) =~= Seq::empty());
            assert(self@ + lower(tree.take(0), base) =~= self@);
            assert(self@.take(base as int) =~= self@);
        }
        while i < src.len()
            invariant
                i <= src.len(),
                tree == peephole::program_view(src@),
                base == old(self)@.len(),
                representable(tree.take(i as int), base),
                self@ == old(self)@ + lower(tree.take(i as int), base),
            decreases src.len() - i,
        {
            let ghost front = tree.take(i as int);
            let ghost at = base + size(front);
            let ghost before = self@;
            proof {
                assert(tree.take(i + 1).drop_last() =~= front);
                assert(tree.take(i + 1).last() == peephole::statement_view(src@[i as int]));
                lemma_lower_len(front, base);
                assert(before.len() == at);
                if !node_representable(tree[i as int], at) {
                    lemma_unrepresentable_prefix(tree, i + 1, base);
                }
            }
            match &src[i] {
                peephole::Instruction::Left(k) => {
                    let k = self.operand(*k)?;
                    self.issue(Instruction::Left(k));
                },
                peephole::Instruction::Right(k) => {
                    let k = self.operand(*k)?;
                    self.issue(Instruction::Right(k));
                },
                peephole::Instruction::Change(d) => {
                    self.issue(Instruction::Change(*d));
                },
                peephole::Instruction::In => {
                    self.issue(Instruction::In);
                },
                peephole::Instruction::Out => {
                    self.issue(Instruction::Out);
                },
                peephole::Instruction::SetZero => {
                    self.issue(Instruction::SetZero);
                },
                peephole::Instruction::OffsetAddRight(k) => {
                    let k = self.operand(*k)?;
                    self.issue(Instruction::OffsetAddRight(k));
                },
                peephole::Instruction::OffsetAddLeft(k) => {
                    let k = self.operand(*k)?;
                    self.issue(Instruction::OffsetAddLeft(k));
                },
                peephole::Instruction::FindZeroRight(k) => {
                    let k = self.operand(*k)?;
                    self.issue(Instruction::FindZeroRight(k));
                },
                peephole::Instruction::FindZeroLeft(k) => {
                    let k = self.operand(*k)?;
                    self.issue(Instruction::FindZeroLeft(k));
                },
                peephole::Instruction::Loop(body) => {
                    let ghost inner = peephole::program_view(body@);
                    let begin_pc = self.instructions.len();
                    self.issue(Instruction::JumpZero(0));
                    let body_pc = self.instructions.len();
                    self.compile(body.as_slice())?;
                    proof {
                        lemma_lower_len(inner, at + 1);
                    }
                    let begin_target = self.operand(body_pc)?;
                    self.issue(Instruction::JumpNotZero(begin_target));
                    let end_target = self.operand(self.instructions.len())?;
                    self.instructions[begin_pc] = Instruction::JumpZero(end_target);
                    proof {
                        assert(self@ =~= before + lower_node(tree[i as int], at));
                    }
                },
            }
            proof {
                assert(self@ =~= old(self)@ + lower(tree.take(i + 1), base));
            }
            i += 1;
        }
        proof {
            assert(tree.take(i as int) =~= tree);
            assert(self@.take(base as int) =~= old(self)@);
        }
        Ok(())
    }

    /// Extracts the bytecode.
    pub fn into_program(self) -> (r: Vec<Instruction>)
        ensures
            r@ == self@,
    {
        self.instructions
    }

    /// Issues an instruction.
    fn issue(&mut self, instruction: Instruction)
        ensures
            final(self)@ == old(self)@.push(instruction),
    {
        self.instructions.push(instruction);
    }

    /// The operand for `count`; what was issued stays as it is.
    fn operand(&self, count: usize) -> (r: Result<Count, Error>)
        ensures
            count <= MAX_COUNT ==> r == Ok::<Count, Error>(count as Count),
            count > MAX_COUNT ==> r == Err::<Count, Error>(Error::CountOverflow),
    {
        usize_to_count(count)
    }
}

/// A program with a prefix that is not representable is not representable.
pub proof fn lemma_unrepresentable_prefix(p: Seq<Node>, k: int, base: nat)
    requires
        0 <= k <= p.len(),
        !representable(p.take(k), base),
    ensures
        !representable(p, base),
    decreases p.len(),
{
    if k == p.len() {
        assert(p.take(k) =~= p);
    } else {
        assert(p.drop_last().take(k) =~= p.take(k));
        lemma_unrepresentable_prefix(p.drop_last(), k, base);
    }
}

} // verus!
