//! The syntax tree: commands in order, with loops as nested bodies.

mod interpreter;
mod parser;
mod text;

pub use self::interpreter::command;
pub use self::interpreter::interpret;
pub use self::interpreter::lemma_loop_fuel;
pub use self::interpreter::lemma_loop_more_fuel;
pub use self::interpreter::lemma_run_more_fuel;
pub use self::interpreter::lemma_step_more_fuel;
pub use self::interpreter::lemma_loop_wf;
pub use self::interpreter::lemma_run_wf;
pub use self::interpreter::lemma_step_wf;
pub use self::interpreter::lemma_loop_next;
pub use self::interpreter::lemma_run_last;
pub use self::interpreter::lemma_run_failed_prefix;
pub use self::interpreter::lemma_run_fuel;
pub use self::interpreter::lemma_step_fuel;
pub use self::interpreter::interpret_instruction;
pub use self::interpreter::run;
pub use self::interpreter::run_loop;
pub use self::interpreter::step;

pub use self::parser::byte_of;
pub use self::parser::command_of;
pub use self::parser::lemma_parse_well_formed;
pub use self::parser::lemma_parse_unparse;
pub use self::parser::parse;
pub use self::parser::parse_at;
pub use self::parser::parse_program;
pub use self::parser::to_source;
pub use self::parser::unparse;
pub use self::parser::unparse_node;
pub use self::text::commands_only;
pub use self::text::depth;
pub use self::text::dips;
pub use self::text::lemma_parse_brackets;
pub use self::text::lemma_parse_text;

use vstd::prelude::*;
use crate::common::Command;

verus! {

/// A program is a sequence of statements.
pub type Program = [Statement];

/// A statement of the syntax tree.
#[derive(Debug, PartialEq, Eq)]
pub enum Statement {
    /// One of the six commands that are no brackets.
    Cmd(Command),
    /// A loop around its body.
    Loop(Vec<Statement>),
}

/// The model of a statement.
pub enum Node {
    Cmd(Command),
    Loop(Seq<Node>),
}

/// The model of one statement.
pub open spec fn statement_view(s: Statement) -> Node
    decreases s,
{
    match s {
        Statement::Cmd(c) => Node::Cmd(c),
        Statement::Loop(body) => Node::Loop(program_view(body@)),
    }
}

/// The model of a sequence of statements.
pub open spec fn program_view(p: Seq<Statement>) -> Seq<Node>
    decreases p,
{
    Seq::new(
        p.len(),
        |i: int|
            if 0 <= i < p.len() {
                statement_view(p[i])
            } else {
                Node::Cmd(Command::Right)
            },
    )
}

/// Every command in the tree is one of the six that are no brackets.
pub open spec fn well_formed(p: Seq<Node>) -> bool
    decreases p,
{
    forall|i: int| 0 <= i < p.len() ==> node_well_formed(#[trigger] p[i])
}

/// Every command in the statement is one of the six that are no brackets.
pub open spec fn node_well_formed(n: Node) -> bool
    decreases n,
{
    match n {
        Node::Cmd(c) => c.is_plain(),
        Node::Loop(body) => well_formed(body),
    }
}

impl View for Statement {
    type V = Node;

    open spec fn view(&self) -> Node {
        statement_view(*self)
    }
}

impl Clone for Statement {
    /// A copy with the same model.
    fn clone(&self) -> (r: Self)
        ensures
            statement_view(r) == statement_view(*self),
        decreases self,
    {
        match self {
            Statement::Cmd(c) => Statement::Cmd(*c),
            Statement::Loop(body) => {
                let mut copy: Vec<Statement> = Vec::new();
                let mut i: usize = 0;
                while i < body.len()
                    invariant
                        i <= body.len(),
                        *self == Statement::Loop(*body),
                        copy@.len() == i,
                        forall|j: int|
                            0 <= j < i ==> statement_view(#[trigger] copy@[j]) == statement_view(
                                body@[j],
                            ),
                    decreases body.len() - i,
                {
                    proof {
                        assert(decreases_to!(*self => self->Loop_0));
                        assert(decreases_to!(self->Loop_0 => self->Loop_0@));
                        assert(decreases_to!(self->Loop_0@ => self->Loop_0@[i as int]));
                    }
                    copy.push(body[i].clone());
                    i += 1;
                }
                proof {
                    assert(program_view(copy@) =~= program_view(body@));
                }
                Statement::Loop(copy)
            },
        }
    }
}

} // verus!
