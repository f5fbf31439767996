//! What the parser makes of a text, said without the parser: which texts it
//! takes, which it refuses and why, and what the tree of a text is.

use vstd::prelude::*;
use crate::ast::{command_of, parse, parse_at, unparse, unparse_node, Node};
use crate::common::{Command, Error};

verus! {

/// The text without its comments.
pub open spec fn commands_only(s: Seq<u8>) -> Seq<u8>
    decreases s.len(),
{
    if s.len() == 0 {
        Seq::empty()
    } else if command_of(s.last()) is Some {
        commands_only(s.drop_last()).push(s.last())
    } else {
        commands_only(s.drop_last())
    }
}

/// The number of `[` in the text less the number of `]`.
pub open spec fn depth(s: Seq<u8>) -> int
    decreases s.len(),
{
    if s.len() == 0 {
        0
    } else if s.last() == 91 {
        depth(s.drop_last()) + 1
    } else if s.last() == 93 {
        depth(s.drop_last()) - 1
    } else {
        depth(s.drop_last())
    }
}

/// Somewhere in the text more `]` than `[` have been read.
pub open spec fn dips(s: Seq<u8>) -> bool {
    exists|j: int| 0 <= j <= s.len() && #[trigger] depth(s.take(j)) < 0
}

/// The text of the loops that are open and of the statements collected at
/// the innermost level.
spec fn written(outer: Seq<Seq<Node>>, current: Seq<Node>) -> Seq<u8>
    decreases outer.len(),
{
    if outer.len() == 0 {
        unparse(current)
    } else {
        written(outer.drop_last(), outer.last()) + seq![91u8] + unparse(current)
    }
}

/// One more statement at the innermost level adds its text.
proof fn lemma_written_push(outer: Seq<Seq<Node>>, current: Seq<Node>, n: Node)
    ensures
        written(outer, current.push(n)) == written(outer, current) + unparse_node(n),
{
    assert(current.push(n).drop_last() =~= current);
    if outer.len() == 0 {
    } else {
        let head = written(outer.drop_last(), outer.last()) + seq![91u8];
        assert(head + (unparse(current) + unparse_node(n)) =~= head + unparse(current)
            + unparse_node(n));
    }
}

/// Where the text read so far, without its comments, is what has been
/// collected, the tree that comes out is the text without its comments.
proof fn lemma_parse_at_text(source: Seq<u8>, i: int, outer: Seq<Seq<Node>>, current: Seq<Node>)
    requires
        0 <= i <= source.len(),
        written(outer, current) == commands_only(source.take(i)),
    ensures
        parse_at(source, i, outer, current) matches Ok(p) ==> unparse(p) == commands_only(source),
    decreases source.len() - i,
{
    if i >= source.len() {
        assert(source.take(i) =~= source);
    } else {
        assert(source.take(i + 1).drop_last() =~= source.take(i));
        assert(source.take(i + 1).last() == source[i]);
        let b = source[i];
        let so_far = written(outer, current);
        match command_of(b) {
            Some(Command::Begin) => {
                let opened = outer.push(current);
                assert(opened.drop_last() =~= outer);
                assert(unparse(Seq::<Node>::empty()) =~= Seq::<u8>::empty());
                assert(written(opened, Seq::empty()) =~= so_far.push(b));
                lemma_parse_at_text(source, i + 1, opened, Seq::empty());
            },
            Some(Command::End) => {
                if outer.len() != 0 {
                    let closed = outer.last().push(Node::Loop(current));
                    lemma_written_push(outer.drop_last(), outer.last(), Node::Loop(current));
                    let head = written(outer.drop_last(), outer.last());
                    assert(head + (seq![91u8] + unparse(current) + seq![93u8]) =~= so_far.push(b));
                    lemma_parse_at_text(source, i + 1, outer.drop_last(), closed);
                }
            },
            Some(c) => {
                lemma_written_push(outer, current, Node::Cmd(c));
                assert(so_far + seq![b] =~= so_far.push(b));
                lemma_parse_at_text(source, i + 1, outer, current.push(Node::Cmd(c)));
            },
            None => {
                lemma_parse_at_text(source, i + 1, outer, current);
            },
        }
    }
}

/// The tree of a text, written out again, is the text without its comments.
pub proof fn lemma_parse_text(source: Seq<u8>)
    ensures
        parse(source) matches Ok(p) ==> unparse(p) == commands_only(source),
{
    assert(source.take(0) =~= Seq::<u8>::empty());
    lemma_parse_at_text(source, 0, Seq::empty(), Seq::empty());
}

/// Where as many loops are open as brackets have been opened and not closed,
/// the result says how the brackets of the whole text stand.
proof fn lemma_parse_at_brackets(
    source: Seq<u8>,
    i: int,
    outer: Seq<Seq<Node>>,
    current: Seq<Node>,
)
    requires
        0 <= i <= source.len(),
        outer.len() == depth(source.take(i)),
        forall|j: int| 0 <= j <= i ==> #[trigger] depth(source.take(j)) >= 0,
    ensures
        match parse_at(source, i, outer, current) {
            Ok(_) => !dips(source) && depth(source) == 0,
            Err(Error::UnmatchedBegin) => !dips(source) && depth(source) > 0,
            Err(Error::UnmatchedEnd) => dips(source),
            Err(_) => false,
        },
    decreases source.len() - i,
{
    if i >= source.len() {
        assert(source.take(i) =~= source);
    } else {
        assert(source.take(i + 1).drop_last() =~= source.take(i));
        assert(source.take(i + 1).last() == source[i]);
        match command_of(source[i]) {
            Some(Command::Begin) => {
                lemma_parse_at_brackets(source, i + 1, outer.push(current), Seq::empty());
            },
            Some(Command::End) => {
                if outer.len() == 0 {
                    assert(depth(source.take(i + 1)) < 0);
                } else {
                    lemma_parse_at_brackets(
                        source,
                        i + 1,
                        outer.drop_last(),
                        outer.last().push(Node::Loop(current)),
                    );
                }
            },
            Some(c) => {
                lemma_parse_at_brackets(source, i + 1, outer, current.push(Node::Cmd(c)));
            },
            None => {
                lemma_parse_at_brackets(source, i + 1, outer, current);
            },
        }
    }
}

/// Which texts parse: a text in which a `]` comes with no `[` open is
/// refused with `UnmatchedEnd`; any other text in which a `[` stays open is
/// refused with `UnmatchedBegin`; every other text has a tree.
pub proof fn lemma_parse_brackets(source: Seq<u8>)
    ensures
        parse(source) is Ok <==> !dips(source) && depth(source) == 0,
        parse(source) == Err::<Seq<Node>, Error>(Error::UnmatchedEnd) <==> dips(source),
        parse(source) == Err::<Seq<Node>, Error>(Error::UnmatchedBegin) <==> !dips(source)
            && depth(source) > 0,
{
    assert(source.take(0) =~= Seq::<u8>::empty());
    assert forall|j: int| 0 <= j <= 0 implies #[trigger] depth(source.take(j)) >= 0 by {
        assert(source.take(j) =~= Seq::<u8>::empty());
    }
    lemma_parse_at_brackets(source, 0, Seq::empty(), Seq::empty());
    if !dips(source) {
        assert(source.take(source.len() as int) =~= source);
        assert(depth(source.take(source.len() as int)) >= 0);
    }
}

} // verus!
