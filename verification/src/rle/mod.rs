//! The run-length encoded tree: a command carries the number of times it is
//! repeated.

mod compiler;
mod encoding;
mod equivalence;
mod interpreter;

pub use self::compiler::compile;
pub use self::compiler::encode;
pub use self::compiler::extend;
pub use self::compiler::issue;
pub use self::compiler::Compiler;
pub use self::compiler::RleCompilable;
pub use self::encoding::lemma_encode_expand;
pub use self::encoding::lemma_encode_well_formed;
pub use self::encoding::lemma_extend_expand;
pub use self::encoding::lemma_extend_well_formed;
pub use self::equivalence::agrees;
pub use self::equivalence::displacement;
pub use self::equivalence::fails_alike;
pub use self::equivalence::lemma_encode_agrees;
pub use self::equivalence::lemma_extend_fails;
pub use self::equivalence::lemma_encode_displacement;
pub use self::equivalence::lemma_encode_run;
pub use self::equivalence::lemma_extend_displacement;
pub use self::equivalence::tree_displacement;
pub use self::equivalence::lemma_extend_run;
pub use self::interpreter::command;
pub use self::interpreter::interpret;
pub use self::interpreter::lemma_loop_fuel;
pub use self::interpreter::lemma_loop_more_fuel;
pub use self::interpreter::lemma_run_more_fuel;
pub use self::interpreter::lemma_step_more_fuel;
pub use self::interpreter::lemma_loop_wf;
pub use self::interpreter::lemma_repeat_wf;
pub use self::interpreter::lemma_run_wf;
pub use self::interpreter::lemma_step_wf;
pub use self::interpreter::lemma_loop_next;
pub use self::interpreter::lemma_run_last;
pub use self::interpreter::lemma_run_push;
pub use self::interpreter::lemma_run_failed_prefix;
pub use self::interpreter::lemma_run_fuel;
pub use self::interpreter::lemma_step_fuel;
pub use self::interpreter::interpret_instruction;
pub use self::interpreter::repeat_read;
pub use self::interpreter::repeat_write;
pub use self::interpreter::run;
pub use self::interpreter::run_loop;
pub use self::interpreter::step;

use vstd::prelude::*;
use crate::common::{Command, Count};

verus! {

/// A program is a sequence of statements.
pub type Program = [Statement];

/// A statement of the run-length encoded tree.
#[derive(Debug, PartialEq, Eq)]
pub enum Statement {
    /// A command and the number of times it is repeated.
    Cmd(Command, Count),
    /// A loop around its body.
    Loop(Vec<Statement>),
}

/// The model of a statement.
pub enum Node {
    Cmd(Command, Count),
    Loop(Seq<Node>),
}

/// The model of one statement.
pub open spec fn statement_view(s: Statement) -> Node
    decreases s,
{
    match s {
        Statement::Cmd(c, n) => Node::Cmd(c, n),
        Statement::Loop(body) => Node::Loop(program_view(body@)),
    }
}

/// The model of a sequence of statements.
pub open spec fn program_view(p: Seq<Statement>) -> Seq<Node>
    decreases p,
{
    Seq::new(
        p.len(),
        |i: int|
            if 0 <= i < p.len() {
                statement_view(p[i])
            } else {
                Node::Cmd(Command::Right, 0)
            },
    )
}

/// Every run has a count of at least 1, and no run is followed by a run of
/// the same command unless its own count is the largest there is; the same
/// holds inside every loop.
pub open spec fn well_formed(p: Seq<Node>) -> bool
    decreases p,
{
    &&& forall|i: int| 0 <= i < p.len() ==> node_well_formed(#[trigger] p[i])
    &&& forall|i: int| 0 <= i < p.len() - 1 ==> !mergeable(#[trigger] p[i], p[i + 1])
}

/// A run has a count of at least 1; the body of a loop is well formed.
pub open spec fn node_well_formed(n: Node) -> bool
    decreases n,
{
    match n {
        Node::Cmd(_, count) => count >= 1,
        Node::Loop(body) => well_formed(body),
    }
}

/// Two statements in a row are runs of the same command, and the first could
/// still grow.
pub open spec fn mergeable(a: Node, b: Node) -> bool {
    a is Cmd && b is Cmd && a->Cmd_0 == b->Cmd_0 && a->Cmd_1 < crate::common::MAX_COUNT
}

/// The syntax tree that an encoded program stands for: each run written out
/// as so many commands.
pub open spec fn expand(p: Seq<Node>) -> Seq<crate::ast::Node>
    decreases p,
{
    if p.len() == 0 {
        Seq::empty()
    } else {
        expand(p.drop_last()) + expand_node(p.last())
    }
}

/// The statements that one encoded statement stands for.
pub open spec fn expand_node(n: Node) -> Seq<crate::ast::Node>
    decreases n,
{
    match n {
        Node::Cmd(c, count) => Seq::new(count as nat, |i: int| crate::ast::Node::Cmd(c)),
        Node::Loop(body) => seq![crate::ast::Node::Loop(expand(body))],
    }
}

impl View for Statement {
    type V = Node;

    open spec fn view(&self) -> Node {
        statement_view(*self)
    }
}

impl Clone for Statement {
    /// A copy with the same model.
    fn clone(&self) -> (r: Self)
        ensures
            statement_view(r) == statement_view(*self),
        decreases self,
    {
        match self {
            Statement::Cmd(c, n) => Statement::Cmd(*c, *n),
            Statement::Loop(body) => {
                let mut copy: Vec<Statement> = Vec::new();
                let mut i: usize = 0;
                while i < body.len()
                    invariant
                        i <= body.len(),
                        *self == Statement::Loop(*body),
                        copy@.len() == i,
                        forall|j: int|
                            0 <= j < i ==> statement_view(#[trigger] copy@[j]) == statement_view(
                                body@[j],
                            ),
                    decreases body.len() - i,
                {
                    proof {
                        assert(decreases_to!(*self => self->Loop_0));
                        assert(decreases_to!(self->Loop_0 => self->Loop_0@));
                        assert(decreases_to!(self->Loop_0@ => self->Loop_0@[i as int]));
                    }
                    copy.push(body[i].clone());
                    i += 1;
                }
                proof {
                    assert(program_view(copy@) =~= program_view(body@));
                }
                Statement::Loop(copy)
            },
        }
    }
}

} // verus!
