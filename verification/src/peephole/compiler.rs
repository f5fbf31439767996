//! From the syntax tree to the peephole-optimised program.

use vstd::prelude::*;
use crate::ast;
use crate::common::Command;
use crate::peephole::{
    ends_with, lemma_encode_run, program_view, run, statement_view, Instruction, Node,
};
use crate::state::{wrap_add, Machine};

verus! {

/// The displacement of a move: positive to the right. `None` for any other
/// instruction.
pub open spec fn net_move(n: Node) -> Option<int> {
    match n {
        Node::Right(k) => Some(k as int),
        Node::Left(k) => Some(-(k as int)),
        _ => None,
    }
}

/// The move by `d` cells: to the right where `d` is positive.
pub open spec fn move_node(d: int) -> Node {
    if d >= 0 {
        Node::Right(d as usize)
    } else {
        Node::Left((-d) as usize)
    }
}

/// The program `q` followed by a move of `d` cells. The move is added to a
/// move that ends `q`, if the sum fits an operand; a sum of 0 leaves no move.
pub open spec fn append_move(q: Seq<Node>, d: int) -> Seq<Node> {
    if q.len() > 0 && net_move(q.last()) is Some && -usize::MAX <= net_move(q.last())->0 + d
        <= usize::MAX {
        let net = net_move(q.last())->0 + d;
        if net == 0 {
            q.drop_last()
        } else {
            q.drop_last().push(move_node(net))
        }
    } else if d == 0 {
        q
    } else {
        q.push(move_node(d))
    }
}

/// The program `q` followed by a change of `d`. The change is added, modulo
/// 256, to a change that ends `q`; a sum of 0 leaves no change.
pub open spec fn append_change(q: Seq<Node>, d: u8) -> Seq<Node> {
    if q.len() > 0 && q.last() is Change {
        let sum = wrap_add(q.last()->Change_0, d);
        if sum == 0 {
            q.drop_last()
        } else {
            q.drop_last().push(Node::Change(sum))
        }
    } else if d == 0 {
        q
    } else {
        q.push(Node::Change(d))
    }
}

/// The program `q` followed by one command of the syntax tree.
pub open spec fn issue(q: Seq<Node>, c: Command) -> Seq<Node> {
    match c {
        Command::Right => append_move(q, 1),
        Command::Left => append_move(q, -1),
        Command::Up => append_change(q, 1),
        Command::Down => append_change(q, 255),
        Command::In => q.push(Node::In),
        Command::Out => q.push(Node::Out),
        Command::Begin => q,
        Command::End => q,
    }
}

/// The instruction that stands for a loop around `body`: a loop of one of the
/// known shapes becomes the instruction that does all its iterations at once.
pub open spec fn fuse(body: Seq<Node>) -> Node {
    if body.len() == 1 && (body[0] == Node::Change(1) || body[0] == Node::Change(255)) {
        Node::SetZero
    } else if body.len() == 4 && body[0] == Node::Change(255) && body[1] is Right && body[2]
        == Node::Change(1) && body[3] == Node::Left(body[1]->Right_0) {
        Node::OffsetAddRight(body[1]->Right_0)
    } else if body.len() == 4 && body[0] == Node::Change(255) && body[1] is Left && body[2]
        == Node::Change(1) && body[3] == Node::Right(body[1]->Left_0) {
        Node::OffsetAddLeft(body[1]->Left_0)
    } else if body.len() == 1 && body[0] is Right {
        Node::FindZeroRight(body[0]->Right_0)
    } else if body.len() == 1 && body[0] is Left {
        Node::FindZeroLeft(body[0]->Left_0)
    } else {
        Node::Loop(body)
    }
}

/// The program `q` followed by the compilation of `p`. The body of a loop is
/// compiled by itself and then matched against the known shapes.
pub open spec fn extend(q: Seq<Node>, p: Seq<ast::Node>) -> Seq<Node>
    decreases p,
{
    if p.len() == 0 {
        q
    } else {
        let front = extend(q, p.drop_last());
        match p.last() {
            ast::Node::Cmd(c) => issue(front, c),
            ast::Node::Loop(body) => front.push(fuse(extend(Seq::empty(), body))),
        }
    }
}

/// The program `q` followed by what the optimiser makes of the program `p`,
/// which is itself peephole-optimised already or written by hand: moves and
/// changes are aggregated again, and loops matched again against the known
/// shapes.
pub open spec fn improve(q: Seq<Node>, p: Seq<Node>) -> Seq<Node>
    decreases p,
{
    if p.len() == 0 {
        q
    } else {
        let front = improve(q, p.drop_last());
        match p.last() {
            Node::Right(k) => append_move(front, k as int),
            Node::Left(k) => append_move(front, -(k as int)),
            Node::Change(d) => append_change(front, d),
            Node::Loop(body) => front.push(fuse(improve(Seq::empty(), body))),
            other => front.push(other),
        }
    }
}

/// The peephole-optimised program of a syntax tree.
pub open spec fn encode(p: Seq<ast::Node>) -> Seq<Node> {
    extend(Seq::empty(), p)
}

/// Program forms that can be compiled to the peephole-optimised program.
pub trait PeepholeCompilable {
    /// The peephole-optimised form of this program.
    spec fn peephole_spec(&self) -> Seq<Node>;

    /// Compile the program to its peephole-optimised form.
    fn peephole_compile(&self) -> (r: Vec<Instruction>)
        ensures
            program_view(r@) == self.peephole_spec(),
    ;
}

impl PeepholeCompilable for [ast::Statement] {
    open spec fn peephole_spec(&self) -> Seq<Node> {
        encode(ast::program_view(self@))
    }

    fn peephole_compile(&self) -> (r: Vec<Instruction>) {
        compile(self)
    }
}

impl PeepholeCompilable for [Instruction] {
    open spec fn peephole_spec(&self) -> Seq<Node> {
        improve(Seq::empty(), program_view(self@))
    }

    fn peephole_compile(&self) -> (r: Vec<Instruction>) {
        let mut compiler = Compiler::new();
        compiler.recompile(self);
        compiler.into_program()
    }
}

/// Compiles a syntax tree to a peephole-optimised program. Wherever the
/// tree runs to its end, the program ends with the same machine, and with no
/// less fuel.
pub fn compile(program: &[ast::Statement]) -> (r: Vec<Instruction>)
    ensures
        program_view(r@) == encode(ast::program_view(program@)),
        forall|m: Machine, fuel: nat|
            m.wf() && ast::run(ast::program_view(program@), m, fuel) is Done ==> ends_with(
                #[trigger] run(program_view(r@), m, fuel),
                ast::run(ast::program_view(program@), m, fuel)->Done_machine,
                ast::run(ast::program_view(program@), m, fuel)->Done_fuel,
            ),
    decreases program@, 1nat,
{
    let mut compiler = Compiler::new();
    compiler.compile(program);
    proof {
        let tree = ast::program_view(program@);
        assert forall|m: Machine, fuel: nat|
            m.wf() && ast::run(tree, m, fuel) is Done implies ends_with(
            #[trigger] run(encode(tree), m, fuel),
            ast::run(tree, m, fuel)->Done_machine,
            ast::run(tree, m, fuel)->Done_fuel,
        ) by {
            lemma_encode_run(tree, m, fuel);
        }
    }
    compiler.into_program()
}

/// The instruction that stands for a loop around `body`.
pub fn fuse_loop(body: Vec<Instruction>) -> (r: Instruction)
    ensures
        statement_view(r) == fuse(program_view(body@)),
{
    let ghost tree = program_view(body@);
    if body.len() == 1 {
        proof {
            assert(tree[0] == statement_view(body@[0]));
        }
        match &body[0] {
            Instruction::Change(d) => {
                if *d == 1 || *d == 255 {
                    return Instruction::SetZero;
                }
            },
            Instruction::Right(s) => {
                return Instruction::FindZeroRight(*s);
            },
            Instruction::Left(s) => {
                return Instruction::FindZeroLeft(*s);
            },
            _ => {},
        }
    } else if body.len() == 4 {
        proof {
            assert(tree[0] == statement_view(body@[0]));
            assert(tree[1] == statement_view(body@[1]));
            assert(tree[2] == statement_view(body@[2]));
            assert(tree[3] == statement_view(body@[3]));
        }
        match (&body[0], &body[1], &body[2], &body[3]) {
            (
                Instruction::Change(down),
                Instruction::Right(there),
                Instruction::Change(up),
                Instruction::Left(back),
            ) => {
                if *down == 255 && *up == 1 && *there == *back {
                    return Instruction::OffsetAddRight(*there);
                }
            },
            (
                Instruction::Change(down),
                Instruction::Left(there),
                Instruction::Change(up),
                Instruction::Right(back),
            ) => {
                if *down == 255 && *up == 1 && *there == *back {
                    return Instruction::OffsetAddLeft(*there);
                }
            },
            _ => {},
        }
    }
    Instruction::Loop(body)
}

/// The state of the compiler: the instructions issued so far.
pub struct Compiler {
    instructions: Vec<Instruction>,
}

impl View for Compiler {
    type V = Seq<Node>;

    /// The program compiled so far.
    closed spec fn view(&self) -> Seq<Node> {
        program_view(self.instructions@)
    }
}

impl Compiler {
    /// Creates a new compiler, with nothing compiled.
    pub fn new() -> (r: Compiler)
        ensures
            r@ == Seq::<Node>::empty(),
    {
        let r = Compiler { instructions: Vec::new() };
        proof {
            assert(program_view(r.instructions@) =~= Seq::empty());
        }
        r
    }

    /// Compiles the given statements after what is already compiled.
    pub fn compile(&mut self, program: &[ast::Statement])
        ensures
            final(self)@ == extend(old(self)@, ast::program_view(program@)),
        decreases program@, 0nat,
    {
        let ghost tree = ast::program_view(program@);
        let mut i: usize = 0;
        proof {
            assert(tree.take(0) =~= Seq::empty());
        }
        while i < program.len()
            invariant
                i <= program.len(),
                tree == ast::program_view(program@),
                self@ == extend(old(self)@, tree.take(i as int)),
            decreases program.len() - i,
        {
            proof {
                assert(tree.take(i + 1).drop_last() =~= tree.take(i as int));
                assert(tree.take(i + 1).last() == ast::statement_view(program@[i as int]));
            }
            match &program[i] {
                ast::Statement::Cmd(Command::Right) => {
                    self.issue_move(true, 1);
                },
                ast::Statement::Cmd(Command::Left) => {
                    self.issue_move(false, 1);
                },
                ast::Statement::Cmd(Command::Up) => {
                    self.issue_change(1);
                },
                ast::Statement::Cmd(Command::Down) => {
                    self.issue_change(255);
                },
                ast::Statement::Cmd(Command::In) => {
                    self.issue(Instruction::In);
                },
                ast::Statement::Cmd(Command::Out) => {
                    self.issue(Instruction::Out);
                },
                ast::Statement::Cmd(Command::Begin) | ast::Statement::Cmd(Command::End) => {},
                ast::Statement::Loop(body) => {
                    let compiled = compile(body.as_slice());
                    self.issue(fuse_loop(compiled));
                },
            }
            i += 1;
        }
        proof {
            assert(tree.take(i as int) =~= tree);
        }
    }

    /// Optimises the given instructions again after what is already
    /// compiled.
    pub fn recompile(&mut self, program: &[Instruction])
        ensures
            final(self)@ == improve(old(self)@, program_view(program@)),
        decreases program@,
    {
        let ghost tree = program_view(program@);
        let mut i: usize = 0;
        proof {
            assert(tree.take(0) =~= Seq::empty());
        }
        while i < program.len()
            invariant
                i <= program.len(),
                tree == program_view(program@),
                self@ == improve(old(self)@, tree.take(i as int)),
            decreases program.len() - i,
        {
            proof {
                assert(tree.take(i + 1).drop_last() =~= tree.take(i as int));
                assert(tree.take(i + 1).last() == statement_view(program@[i as int]));
            }
            match &program[i] {
                Instruction::Right(k) => {
                    self.issue_move(true, *k);
                },
                Instruction::Left(k) => {
                    self.issue_move(false, *k);
                },
                Instruction::Change(d) => {
                    self.issue_change(*d);
                },
                Instruction::In => {
                    self.issue(Instruction::In);
                },
                Instruction::Out => {
                    self.issue(Instruction::Out);
                },
                Instruction::SetZero => {
                    self.issue(Instruction::SetZero);
                },
                Instruction::OffsetAddRight(k) => {
                    self.issue(Instruction::OffsetAddRight(*k));
                },
                Instruction::OffsetAddLeft(k) => {
                    self.issue(Instruction::OffsetAddLeft(*k));
                },
                Instruction::FindZeroRight(k) => {
                    self.issue(Instruction::FindZeroRight(*k));
                },
                Instruction::FindZeroLeft(k) => {
                    self.issue(Instruction::FindZeroLeft(*k));
                },
                Instruction::Loop(body) => {
                    let mut inner = Compiler::new();
                    inner.recompile(body.as_slice());
                    self.issue(fuse_loop(inner.into_program()));
                },
            }
            i += 1;
        }
        proof {
            assert(tree.take(i as int) =~= tree);
        }
    }

    /// Extracts the compiled program.
    pub fn into_program(self) -> (r: Vec<Instruction>)
        ensures
            program_view(r@) == self@,
    {
        self.instructions
    }

    /// Issues an instruction as it is.
    pub fn issue(&mut self, instruction: Instruction)
        ensures
            final(self)@ == old(self)@.push(statement_view(instruction)),
    {
        let ghost before = program_view(self.instructions@);
        self.instructions.push(instruction);
        proof {
            assert(program_view(self.instructions@) =~= before.push(statement_view(instruction)));
        }
    }

    /// Removes the last instruction.
    fn retract(&mut self)
        requires
            old(self).instructions@.len() > 0,
        ensures
            final(self)@ == old(self)@.drop_last(),
    {
        let ghost before = program_view(self.instructions@);
        self.instructions.pop();
        proof {
            assert(program_view(self.instructions@) =~= before.drop_last());
        }
    }

    /// Issues a move of `count` cells, to the right or to the left, adding
    /// it to a move that was issued last.
    pub fn issue_move(&mut self, right: bool, count: usize)
        ensures
            final(self)@ == append_move(
                old(self)@,
                if right {
                    count as int
                } else {
                    -(count as int)
                },
            ),
    {
        let n = self.instructions.len();
        let ghost before = program_view(self.instructions@);
        if n > 0 {
            proof {
                assert(before.last() == statement_view(self.instructions@[n - 1]));
            }
            let last: Option<(bool, usize)> = match &self.instructions[n - 1] {
                Instruction::Right(a) => Some((true, *a)),
                Instruction::Left(a) => Some((false, *a)),
                _ => None,
            };
            match last {
                Some((last_right, a)) => {
                    if last_right == right {
                        match a.checked_add(count) {
                            Some(sum) => {
                                self.retract();
                                if sum != 0 {
                                    self.issue(Self::make_move(right, sum));
                                }
                                return ;
                            },
                            None => {},
                        }
                    } else if a >= count {
                        self.retract();
                        if a - count != 0 {
                            self.issue(Self::make_move(last_right, a - count));
                        }
                        return ;
                    } else {
                        self.retract();
                        self.issue(Self::make_move(right, count - a));
                        return ;
                    }
                },
                None => {},
            }
        }
        if count != 0 {
            self.issue(Self::make_move(right, count));
        }
    }

    /// The move by `count` cells to the right or to the left.
    fn make_move(right: bool, count: usize) -> (r: Instruction)
        requires
            count > 0,
        ensures
            statement_view(r) == move_node(
                if right {
                    count as int
                } else {
                    -(count as int)
                },
            ),
    {
        if right {
            Instruction::Right(count)
        } else {
            Instruction::Left(count)
        }
    }

    /// Issues a change of the current cell by `delta`, adding it to a change
    /// that was issued last.
    pub fn issue_change(&mut self, delta: u8)
        ensures
            final(self)@ == append_change(old(self)@, delta),
    {
        let n = self.instructions.len();
        let ghost before = program_view(self.instructions@);
        if n > 0 {
            proof {
                assert(before.last() == statement_view(self.instructions@[n - 1]));
            }
            let last: Option<u8> = match &self.instructions[n - 1] {
                Instruction::Change(a) => Some(*a),
                _ => None,
            };
            match last {
                Some(a) => {
                    let sum: u16 = (a as u16 + delta as u16) % 256;
                    self.retract();
                    if sum != 0 {
                        self.issue(Instruction::Change(sum as u8));
                    }
                    return ;
                },
                None => {},
            }
        }
        if delta != 0 {
            self.issue(Instruction::Change(delta));
        }
    }
}

} // verus!
