//! From the syntax tree to the run-length encoded tree.

use vstd::prelude::*;
use crate::ast;
use crate::common::{Command, Count, MAX_COUNT};
use crate::rle::{
    agrees, expand, lemma_encode_agrees, lemma_encode_expand, lemma_encode_well_formed,
    program_view, run, statement_view, well_formed, Node, Statement,
};
use crate::state::Machine;

verus! {

/// The encoded program `q` with one more command: the command joins the run
/// that ends `q` if it is the same command and the run's count can still
/// grow, and starts a new run otherwise.
pub open spec fn issue(q: Seq<Node>, c: Command) -> Seq<Node> {
    if q.len() > 0 && q.last() == Node::Cmd(c, q.last()->Cmd_1) && q.last()->Cmd_1 < MAX_COUNT {
        q.drop_last().push(Node::Cmd(c, (q.last()->Cmd_1 + 1) as Count))
    } else {
        q.push(Node::Cmd(c, 1))
    }
}

/// The encoded program `q` followed by the encoding of `p`. A loop ends the
/// run before it, and its body is encoded by itself.
pub open spec fn extend(q: Seq<Node>, p: Seq<ast::Node>) -> Seq<Node>
    decreases p,
{
    if p.len() == 0 {
        q
    } else {
        let front = extend(q, p.drop_last());
        match p.last() {
            ast::Node::Cmd(c) => issue(front, c),
            ast::Node::Loop(body) => front.push(Node::Loop(extend(Seq::empty(), body))),
        }
    }
}

/// The run-length encoding of a syntax tree.
pub open spec fn encode(p: Seq<ast::Node>) -> Seq<Node> {
    extend(Seq::empty(), p)
}

/// Program forms that can be compiled to the run-length encoded tree.
pub trait RleCompilable {
    /// The encoded tree of this program.
    spec fn rle_spec(&self) -> Seq<Node>;

    /// Run-length encode the program.
    fn rle_compile(&self) -> (r: Vec<Statement>)
        ensures
            program_view(r@) == self.rle_spec(),
    ;
}

impl RleCompilable for [ast::Statement] {
    open spec fn rle_spec(&self) -> Seq<Node> {
        encode(ast::program_view(self@))
    }

    fn rle_compile(&self) -> (r: Vec<Statement>) {
        compile(self)
    }
}

/// Compiles a syntax tree to a run-length encoded program: the well-formed
/// program that stands for the tree. From every machine and with every fuel
/// it ends as the tree ends, or fails as the tree fails.
pub fn compile(program: &[ast::Statement]) -> (r: Vec<Statement>)
    ensures
        program_view(r@) == encode(ast::program_view(program@)),
        well_formed(program_view(r@)),
        expand(program_view(r@)) == ast::program_view(program@),
        forall|m: Machine, fuel: nat|
            m.wf() ==> agrees(
                #[trigger] run(program_view(r@), m, fuel),
                ast::run(ast::program_view(program@), m, fuel),
            ),
    decreases program@, 1nat,
{
    let mut compiler = Compiler::new();
    compiler.compile(program);
    proof {
        let tree = ast::program_view(program@);
        lemma_encode_well_formed(tree);
        lemma_encode_expand(tree);
        assert forall|m: Machine, fuel: nat| m.wf() implies agrees(
            #[trigger] run(encode(tree), m, fuel),
            ast::run(tree, m, fuel),
        ) by {
            lemma_encode_agrees(tree, m, fuel);
        }
    }
    compiler.into_program()
}

/// The state of the encoder: the statements that are finished, and the run
/// that is still growing.
pub struct Compiler {
    instructions: Vec<Statement>,
    last_command: Command,
    last_repeat: Count,
}

impl View for Compiler {
    type V = Seq<Node>;

    /// The program encoded so far, the growing run included.
    closed spec fn view(&self) -> Seq<Node> {
        if self.last_repeat > 0 {
            program_view(self.instructions@).push(Node::Cmd(self.last_command, self.last_repeat))
        } else {
            program_view(self.instructions@)
        }
    }
}

impl Compiler {
    /// Where no run is growing, the finished statements do not end in one.
    pub closed spec fn wf(&self) -> bool {
        self.last_repeat == 0 ==> self.instructions@.len() == 0 || self.instructions@.last() is Loop
    }

    /// Creates a new encoder, with nothing encoded.
    pub fn new() -> (r: Compiler)
        ensures
            r.wf(),
            r@ == Seq::<Node>::empty(),
    {
        let r = Compiler { instructions: Vec::new(), last_command: Command::Right, last_repeat: 0 };
        proof {
            assert(program_view(r.instructions@) =~= Seq::empty());
        }
        r
    }

    /// Encodes the given statements after what is already encoded.
    pub fn compile(&mut self, program: &[ast::Statement])
        requires
            old(self).wf(),
        ensures
            final(self).wf(),
            final(self)@ == extend(old(self)@, ast::program_view(program@)),
        decreases program@, 0nat,
    {
        let ghost tree = ast::program_view(program@);
        let mut i: usize = 0;
        proof {
            assert(tree.take(0) =~= Seq::empty());
        }
        while i < program.len()
            invariant
                i <= program.len(),
                self.wf(),
                tree == ast::program_view(program@),
                self@ == extend(old(self)@, tree.take(i as int)),
            decreases program.len() - i,
        {
            proof {
                assert(tree.take(i + 1).drop_last() =~= tree.take(i as int));
                assert(tree.take(i + 1).last() == ast::statement_view(program@[i as int]));
            }
            match &program[i] {
                ast::Statement::Cmd(op_code) => {
                    self.issue_op(*op_code);
                },
                ast::Statement::Loop(body) => {
                    let compiled = compile(body.as_slice());
                    self.issue_loop(compiled);
                },
            }
            i += 1;
        }
        proof {
            assert(tree.take(i as int) =~= tree);
        }
    }

    /// Extracts the encoded program.
    pub fn into_program(self) -> (r: Vec<Statement>)
        requires
            self.wf(),
        ensures
            program_view(r@) == self@,
    {
        let mut this = self;
        this.push_op();
        this.instructions
    }

    /// Ends the growing run and puts it with the finished statements.
    fn push_op(&mut self)
        ensures
            final(self).last_repeat == 0,
            program_view(final(self).instructions@) == old(self)@,
            final(self)@ == old(self)@,
            old(self).last_repeat == 0 ==> final(self).instructions@ == old(self).instructions@,
            old(self).last_repeat > 0 ==> final(self).instructions@.len() > 0
                && final(self).instructions@.last() == Statement::Cmd(
                old(self).last_command,
                old(self).last_repeat,
            ),
    {
        if self.last_repeat > 0 {
            let ghost before = program_view(self.instructions@);
            self.instructions.push(Statement::Cmd(self.last_command, self.last_repeat));
            proof {
                assert(program_view(self.instructions@) =~= before.push(
                    Node::Cmd(self.last_command, self.last_repeat),
                ));
            }
            self.last_command = Command::Right;
            self.last_repeat = 0;
        }
    }

    /// Issues one command: it joins the growing run if it can.
    fn issue_op(&mut self, cmd: Command)
        requires
            old(self).wf(),
        ensures
            final(self).wf(),
            final(self)@ == issue(old(self)@, cmd),
    {
        proof {
            let seen = program_view(self.instructions@);
            if self.last_repeat == 0 && seen.len() > 0 {
                assert(seen.last() == statement_view(self.instructions@.last()));
            }
            if self.last_repeat > 0 {
                assert(self@.drop_last() =~= seen);
            }
        }
        if cmd == self.last_command {
            if let Some(last_repeat) = self.last_repeat.checked_add(1) {
                self.last_repeat = last_repeat;
            } else {
                self.push_op();
                self.last_command = cmd;
                self.last_repeat = 1;
            }
        } else {
            self.push_op();
            self.last_command = cmd;
            self.last_repeat = 1;
        }
    }

    /// Issues a loop around `body`, after the run that was growing.
    fn issue_loop(&mut self, body: Vec<Statement>)
        ensures
            final(self).wf(),
            final(self)@ == old(self)@.push(Node::Loop(program_view(body@))),
    {
        self.push_op();
        let ghost before = program_view(self.instructions@);
        self.instructions.push(Statement::Loop(body));
        proof {
            assert(program_view(self.instructions@) =~= before.push(
                Node::Loop(program_view(body@)),
            ));
        }
    }
}

} // verus!
