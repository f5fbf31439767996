//! From source text to the syntax tree, and back.

use vstd::prelude::*;
use crate::ast::{
    commands_only, depth, dips, lemma_parse_brackets, lemma_parse_text, node_well_formed,
    program_view, statement_view, well_formed, Node, Statement,
};
use crate::common::{Command, Error};

verus! {

/// The command that a source byte stands for; every other byte is a comment.
pub open spec fn command_of(b: u8) -> Option<Command> {
    if b == 62 {
        Some(Command::Right)
    } else if b == 60 {
        Some(Command::Left)
    } else if b == 43 {
        Some(Command::Up)
    } else if b == 45 {
        Some(Command::Down)
    } else if b == 44 {
        Some(Command::In)
    } else if b == 46 {
        Some(Command::Out)
    } else if b == 91 {
        Some(Command::Begin)
    } else if b == 93 {
        Some(Command::End)
    } else {
        None
    }
}

/// The source byte of a command.
pub open spec fn byte_of(c: Command) -> u8 {
    match c {
        Command::Right => 62,
        Command::Left => 60,
        Command::Up => 43,
        Command::Down => 45,
        Command::In => 44,
        Command::Out => 46,
        Command::Begin => 91,
        Command::End => 93,
    }
}

/// The result of parsing `source` from position `i` on, when `outer` holds the
/// bodies of the loops that are open, outermost first, without the innermost,
/// and `current` the statements collected so far at the innermost level.
pub open spec fn parse_at(source: Seq<u8>, i: int, outer: Seq<Seq<Node>>, current: Seq<Node>)
    -> Result<Seq<Node>, Error>
    decreases source.len() - i,
{
    if i < 0 || i >= source.len() {
        if outer.len() == 0 {
            Ok(current)
        } else {
            Err(Error::UnmatchedBegin)
        }
    } else {
        match command_of(source[i]) {
            Some(Command::Begin) => parse_at(source, i + 1, outer.push(current), Seq::empty()),
            Some(Command::End) => if outer.len() == 0 {
                Err(Error::UnmatchedEnd)
            } else {
                parse_at(
                    source,
                    i + 1,
                    outer.drop_last(),
                    outer.last().push(Node::Loop(current)),
                )
            },
            Some(c) => parse_at(source, i + 1, outer, current.push(Node::Cmd(c))),
            None => parse_at(source, i + 1, outer, current),
        }
    }
}

/// The tree that `source` denotes, or the error in its brackets: a `]` with no
/// loop open is reported where it stands, a `[` left open at the end.
pub open spec fn parse(source: Seq<u8>) -> Result<Seq<Node>, Error> {
    parse_at(source, 0, Seq::empty(), Seq::empty())
}

/// The source text of a tree.
pub open spec fn unparse(p: Seq<Node>) -> Seq<u8>
    decreases p,
{
    if p.len() == 0 {
        Seq::empty()
    } else {
        unparse(p.drop_last()) + unparse_node(p.last())
    }
}

/// The source text of a statement.
pub open spec fn unparse_node(n: Node) -> Seq<u8>
    decreases n,
{
    match n {
        Node::Cmd(c) => seq![byte_of(c)],
        Node::Loop(body) => seq![91u8] + unparse(body) + seq![93u8],
    }
}

/// The models of the bodies on the parser's stack.
pub open spec fn levels_view(stack: Seq<Vec<Statement>>) -> Seq<Seq<Node>> {
    Seq::new(stack.len(), |j: int| program_view(stack[j]@))
}

/// All bodies on the stack are well formed.
pub open spec fn levels_well_formed(outer: Seq<Seq<Node>>) -> bool {
    forall|j: int| 0 <= j < outer.len() ==> well_formed(#[trigger] outer[j])
}

/// Parsing on from well-formed bodies gives a well-formed tree.
proof fn lemma_parse_at_well_formed(
    source: Seq<u8>,
    i: int,
    outer: Seq<Seq<Node>>,
    current: Seq<Node>,
)
    requires
        levels_well_formed(outer),
        well_formed(current),
    ensures
        parse_at(source, i, outer, current) matches Ok(p) ==> well_formed(p),
    decreases source.len() - i,
{
    if i < 0 || i >= source.len() {
    } else {
        match command_of(source[i]) {
            Some(Command::Begin) => {
                lemma_parse_at_well_formed(source, i + 1, outer.push(current), Seq::empty());
            },
            Some(Command::End) => {
                if outer.len() != 0 {
                    assert(well_formed(outer.last()));
                    lemma_parse_at_well_formed(
                        source,
                        i + 1,
                        outer.drop_last(),
                        outer.last().push(Node::Loop(current)),
                    );
                }
            },
            Some(c) => {
                lemma_parse_at_well_formed(source, i + 1, outer, current.push(Node::Cmd(c)));
            },
            None => {
                lemma_parse_at_well_formed(source, i + 1, outer, current);
            },
        }
    }
}

/// A tree that comes out of the parser holds no bracket as a command.
pub proof fn lemma_parse_well_formed(source: Seq<u8>)
    ensures
        parse(source) matches Ok(p) ==> well_formed(p),
{
    lemma_parse_at_well_formed(source, 0, Seq::empty(), Seq::empty());
}

/// Reading the text of a well-formed tree adds the tree to the statements
/// collected so far, and leaves the open loops as they were.
proof fn lemma_parse_over_unparse(
    source: Seq<u8>,
    i: int,
    outer: Seq<Seq<Node>>,
    current: Seq<Node>,
    p: Seq<Node>,
)
    requires
        well_formed(p),
        0 <= i,
        i + unparse(p).len() <= source.len(),
        source.subrange(i, i + unparse(p).len()) == unparse(p),
    ensures
        parse_at(source, i, outer, current) == parse_at(
            source,
            i + unparse(p).len(),
            outer,
            current + p,
        ),
    decreases p, 1nat,
{
    if p.len() == 0 {
        assert(current + p =~= current);
    } else {
        let front = p.drop_last();
        let text = unparse(p);
        let mid = i + unparse(front).len();
        assert(well_formed(front)) by {
            assert forall|j: int| 0 <= j < front.len() implies node_well_formed(
                #[trigger] front[j],
            ) by {
                assert(front[j] == p[j]);
            }
        }
        assert(source.subrange(i, mid) =~= text.subrange(0, unparse(front).len() as int));
        assert(text.subrange(0, unparse(front).len() as int) =~= unparse(front));
        lemma_parse_over_unparse(source, i, outer, current, front);
        assert(source.subrange(mid, mid + unparse_node(p.last()).len()) =~= text.subrange(
            unparse(front).len() as int,
            text.len() as int,
        ));
        assert(text.subrange(unparse(front).len() as int, text.len() as int) =~= unparse_node(
            p.last(),
        ));
        assert(node_well_formed(p.last()));
        lemma_parse_over_unparse_node(source, mid, outer, current + front, p.last());
        assert((current + front).push(p.last()) =~= current + p);
    }
}

/// Reading the text of a well-formed statement adds the statement to those
/// collected so far, and leaves the open loops as they were.
proof fn lemma_parse_over_unparse_node(
    source: Seq<u8>,
    i: int,
    outer: Seq<Seq<Node>>,
    current: Seq<Node>,
    n: Node,
)
    requires
        node_well_formed(n),
        0 <= i,
        i + unparse_node(n).len() <= source.len(),
        source.subrange(i, i + unparse_node(n).len()) == unparse_node(n),
    ensures
        parse_at(source, i, outer, current) == parse_at(
            source,
            i + unparse_node(n).len(),
            outer,
            current.push(n),
        ),
    decreases n, 0nat,
{
    let text = unparse_node(n);
    assert(source[i] == source.subrange(i, i + text.len())[0]);
    match n {
        Node::Cmd(c) => {},
        Node::Loop(body) => {
            let inner = unparse(body);
            let n_inner = inner.len() as int;
            assert(text.len() == n_inner + 2);
            assert(source.subrange(i + 1, i + 1 + n_inner) =~= text.subrange(1, 1 + n_inner));
            assert(text.subrange(1, 1 + n_inner) =~= inner);
            lemma_parse_over_unparse(source, i + 1, outer.push(current), Seq::empty(), body);
            assert(Seq::<Node>::empty() + body =~= body);
            let close = i + 1 + inner.len();
            assert(source[close] == source.subrange(i, i + text.len())[1 + n_inner]);
            assert(source[close] == 93u8);
            assert(outer.push(current).drop_last() =~= outer);
        },
    }
}

/// Parsing the source text of a well-formed tree gives the tree back.
pub proof fn lemma_parse_unparse(p: Seq<Node>)
    requires
        well_formed(p),
    ensures
        parse(unparse(p)) == Ok::<Seq<Node>, Error>(p),
{
    let text = unparse(p);
    assert(text.subrange(0, text.len() as int) =~= text);
    lemma_parse_over_unparse(text, 0, Seq::empty(), Seq::empty(), p);
    assert(Seq::<Node>::empty() + p =~= p);
}

/// The command that a source byte stands for.
fn command_from_byte(b: u8) -> (r: Option<Command>)
    ensures
        r == command_of(b),
{
    if b == 62 {
        Some(Command::Right)
    } else if b == 60 {
        Some(Command::Left)
    } else if b == 43 {
        Some(Command::Up)
    } else if b == 45 {
        Some(Command::Down)
    } else if b == 44 {
        Some(Command::In)
    } else if b == 46 {
        Some(Command::Out)
    } else if b == 91 {
        Some(Command::Begin)
    } else if b == 93 {
        Some(Command::End)
    } else {
        None
    }
}

/// Parses source text into a syntax tree. Bytes that are no commands are
/// comments. A `]` with no loop open is `UnmatchedEnd`; a `[` still open at
/// the end is `UnmatchedBegin`. The tree of any other text holds no bracket
/// as a command, and written out again it is the text without its comments.
pub fn parse_program(input: &[u8]) -> (r: Result<Vec<Statement>, Error>)
    ensures
        match r {
            Ok(program) => parse(input@) == Ok::<Seq<Node>, Error>(program_view(program@))
                && well_formed(program_view(program@)) && unparse(program_view(program@))
                == commands_only(input@),
            Err(e) => parse(input@) == Err::<Seq<Node>, Error>(e),
        },
        r is Ok <==> !dips(input@) && depth(input@) == 0,
        r == Err::<Vec<Statement>, Error>(Error::UnmatchedEnd) <==> dips(input@),
        r == Err::<Vec<Statement>, Error>(Error::UnmatchedBegin) <==> !dips(input@) && depth(input@)
            > 0,
{
    let mut stack: Vec<Vec<Statement>> = Vec::new();
    let mut current: Vec<Statement> = Vec::new();
    let mut i: usize = 0;
    proof {
        assert(levels_view(stack@) =~= Seq::empty());
        assert(program_view(current@) =~= Seq::empty());
    }
    while i < input.len()
        invariant
            i <= input.len(),
            parse_at(input@, i as int, levels_view(stack@), program_view(current@)) == parse(
                input@,
            ),
        decreases input.len() - i,
    {
        let ghost outer = levels_view(stack@);
        let ghost inner = program_view(current@);
        match command_from_byte(input[i]) {
            Some(Command::Begin) => {
                stack.push(current);
                current = Vec::new();
                proof {
                    assert(levels_view(stack@) =~= outer.push(inner));
                    assert(program_view(current@) =~= Seq::empty());
                }
            },
            Some(Command::End) => {
                match stack.pop() {
                    None => {
                        proof {
                            lemma_parse_brackets(input@);
                        }
                        return Err(Error::UnmatchedEnd);
                    },
                    Some(enclosing) => {
                        let mut enclosing = enclosing;
                        let ghost before = program_view(enclosing@);
                        enclosing.push(Statement::Loop(current));
                        current = enclosing;
                        proof {
                            assert(levels_view(stack@) =~= outer.drop_last());
                            assert(before == outer.last());
                            assert(program_view(current@) =~= before.push(Node::Loop(inner)));
                        }
                    },
                }
            },
            Some(c) => {
                current.push(Statement::Cmd(c));
                proof {
                    assert(program_view(current@) =~= inner.push(Node::Cmd(c)));
                }
            },
            None => {},
        }
        i += 1;
    }
    proof {
        lemma_parse_well_formed(input@);
        lemma_parse_text(input@);
        lemma_parse_brackets(input@);
    }
    if stack.len() > 0 {
        Err(Error::UnmatchedBegin)
    } else {
        Ok(current)
    }
}

/// The source byte of a command.
fn command_to_byte(c: Command) -> (r: u8)
    ensures
        r == byte_of(c),
{
    match c {
        Command::Right => 62,
        Command::Left => 60,
        Command::Up => 43,
        Command::Down => 45,
        Command::In => 44,
        Command::Out => 46,
        Command::Begin => 91,
        Command::End => 93,
    }
}

/// Appends the source text of `program` to `out`.
fn write_source(program: &[Statement], out: &mut Vec<u8>)
    ensures
        final(out)@ == old(out)@ + unparse(program_view(program@)),
    decreases program@,
{
    let ghost tree = program_view(program@);
    let mut i: usize = 0;
    proof {
        assert(old(out)@ + unparse(tree.take(0)) =~= old(out)@);
    }
    while i < program.len()
        invariant
            i <= program.len(),
            tree == program_view(program@),
            out@ == old(out)@ + unparse(tree.take(i as int)),
        decreases program.len() - i,
    {
        proof {
            assert(tree.take(i + 1).drop_last() =~= tree.take(i as int));
            assert(tree.take(i + 1).last() == statement_view(program@[i as int]));
        }
        let ghost before = out@;
        match &program[i] {
            Statement::Cmd(c) => {
                out.push(command_to_byte(*c));
                proof {
                    assert(out@ =~= before + unparse_node(tree[i as int]));
                }
            },
            Statement::Loop(body) => {
                out.push(91u8);
                write_source(body.as_slice(), out);
                out.push(93u8);
                proof {
                    assert(out@ =~= before + unparse_node(tree[i as int]));
                }
            },
        }
        proof {
            assert(out@ =~= old(out)@ + unparse(tree.take(i + 1)));
        }
        i += 1;
    }
    proof {
        assert(tree.take(i as int) =~= tree);
    }
}

/// The source text of `program`.
pub fn to_source(program: &[Statement]) -> (r: Vec<u8>)
    ensures
        r@ == unparse(program_view(program@)),
{
    let mut out: Vec<u8> = Vec::new();
    write_source(program, &mut out);
    proof {
        assert(Seq::<u8>::empty() + unparse(program_view(program@)) =~= unparse(
            program_view(program@),
        ));
    }
    out
}

} // verus!
