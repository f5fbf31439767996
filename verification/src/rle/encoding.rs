//! What the encoder promises of the form of its output.

use vstd::prelude::*;
use crate::ast;
use crate::common::{Count, MAX_COUNT};
use crate::rle::{
    encode, expand, expand_node, extend, issue, mergeable, node_well_formed, well_formed, Node,
};

verus! {

/// A well-formed program with one more command issued is well formed.
proof fn lemma_issue_well_formed(q: Seq<Node>, c: crate::common::Command)
    requires
        well_formed(q),
    ensures
        well_formed(issue(q, c)),
{
    let grown = issue(q, c);
    if q.len() > 0 && q.last() == Node::Cmd(c, q.last()->Cmd_1) && q.last()->Cmd_1 < MAX_COUNT {
        assert forall|i: int| 0 <= i < grown.len() implies node_well_formed(
            #[trigger] grown[i],
        ) by {
            if i < grown.len() - 1 {
                assert(grown[i] == q[i]);
            }
        }
        assert forall|i: int| 0 <= i < grown.len() - 1 implies !mergeable(
            #[trigger] grown[i],
            grown[i + 1],
        ) by {
            assert(grown[i] == q[i]);
            assert(!mergeable(q[i], q[i + 1]));
        }
    } else {
        assert forall|i: int| 0 <= i < grown.len() implies node_well_formed(
            #[trigger] grown[i],
        ) by {
            if i < q.len() {
                assert(grown[i] == q[i]);
            }
        }
        assert forall|i: int| 0 <= i < grown.len() - 1 implies !mergeable(
            #[trigger] grown[i],
            grown[i + 1],
        ) by {
            assert(grown[i] == q[i]);
            if i < q.len() - 1 {
                assert(!mergeable(q[i], q[i + 1]));
            }
        }
    }
}

/// Encoding onto a well-formed program gives a well-formed program.
pub proof fn lemma_extend_well_formed(q: Seq<Node>, p: Seq<ast::Node>)
    requires
        well_formed(q),
    ensures
        well_formed(extend(q, p)),
    decreases p,
{
    if p.len() > 0 {
        let front = extend(q, p.drop_last());
        lemma_extend_well_formed(q, p.drop_last());
        match p.last() {
            ast::Node::Cmd(c) => {
                lemma_issue_well_formed(front, c);
            },
            ast::Node::Loop(body) => {
                lemma_extend_well_formed(Seq::empty(), body);
                let grown = front.push(Node::Loop(encode(body)));
                assert forall|i: int| 0 <= i < grown.len() implies node_well_formed(
                    #[trigger] grown[i],
                ) by {
                    if i < front.len() {
                        assert(grown[i] == front[i]);
                    }
                }
                assert forall|i: int| 0 <= i < grown.len() - 1 implies !mergeable(
                    #[trigger] grown[i],
                    grown[i + 1],
                ) by {
                    assert(grown[i] == front[i]);
                    if i < front.len() - 1 {
                        assert(!mergeable(front[i], front[i + 1]));
                    }
                }
            },
        }
    }
}

/// The encoding of a syntax tree is well formed: every count is at least 1,
/// and what could have been one run is one run.
pub proof fn lemma_encode_well_formed(p: Seq<ast::Node>)
    ensures
        well_formed(encode(p)),
{
    lemma_extend_well_formed(Seq::empty(), p);
}

/// A program with one more statement stands for what it stood for and what
/// the statement stands for.
proof fn lemma_expand_push(q: Seq<Node>, n: Node)
    ensures
        expand(q.push(n)) == expand(q) + expand_node(n),
{
    assert(q.push(n).drop_last() =~= q);
}

/// Encoding loses nothing: the program encoded onto `q` stands for what `q`
/// stands for, followed by the tree.
pub proof fn lemma_extend_expand(q: Seq<Node>, p: Seq<ast::Node>)
    ensures
        expand(extend(q, p)) == expand(q) + p,
    decreases p,
{
    if p.len() == 0 {
        assert(expand(q) + p =~= expand(q));
    } else {
        let front = extend(q, p.drop_last());
        lemma_extend_expand(q, p.drop_last());
        assert(p =~= p.drop_last().push(p.last()));
        match p.last() {
            ast::Node::Cmd(c) => {
                if front.len() > 0 && front.last() == Node::Cmd(c, front.last()->Cmd_1)
                    && front.last()->Cmd_1 < MAX_COUNT {
                    let n = front.last()->Cmd_1;
                    let more = Node::Cmd(c, (n + 1) as Count);
                    lemma_expand_push(front.drop_last(), more);
                    assert(expand_node(more) =~= expand_node(front.last()).push(
                        ast::Node::Cmd(c),
                    ));
                    assert(expand(front) == expand(front.drop_last()) + expand_node(front.last()));
                    assert(expand(issue(front, c)) =~= expand(front).push(ast::Node::Cmd(c)));
                } else {
                    lemma_expand_push(front, Node::Cmd(c, 1));
                    assert(expand_node(Node::Cmd(c, 1)) =~= seq![ast::Node::Cmd(c)]);
                    assert(expand(issue(front, c)) =~= expand(front).push(ast::Node::Cmd(c)));
                }
            },
            ast::Node::Loop(body) => {
                lemma_extend_expand(Seq::empty(), body);
                assert(expand(Seq::<Node>::empty()) + body =~= body);
                lemma_expand_push(front, Node::Loop(encode(body)));
                assert(expand(front.push(Node::Loop(encode(body)))) =~= expand(front).push(
                    ast::Node::Loop(body),
                ));
            },
        }
        assert(expand(q) + p =~= (expand(q) + p.drop_last()).push(p.last()));
    }
}

/// The encoding of a syntax tree stands for the tree.
pub proof fn lemma_encode_expand(p: Seq<ast::Node>)
    ensures
        expand(encode(p)) == p,
{
    lemma_extend_expand(Seq::empty(), p);
    assert(expand(Seq::<Node>::empty()) + p =~= p);
}

} // verus!
