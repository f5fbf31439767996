//! The jumps of compiled bytecode come in pairs.

use vstd::prelude::*;
use crate::bytecode::{
    lemma_lower_len, lemma_lower_node_len, lower, lower_node, node_representable, representable,
    size,
};
use crate::common::{Count, Instruction};
use crate::peephole::Node;

verus! {

/// The jump at index `i` of `code`, which stands at position `base` and
/// after, has its partner: a `JumpZero` goes to just behind a later
/// `JumpNotZero` that goes back to just behind it, and the other way round.
/// Any other instruction needs no partner.
pub open spec fn jump_matched(code: Seq<Instruction>, base: nat, i: int) -> bool {
    match code[i] {
        Instruction::JumpZero(target) => {
            let partner = target - 1 - base;
            i < partner < code.len() && code[partner] == Instruction::JumpNotZero(
                (base + i + 1) as Count,
            )
        },
        Instruction::JumpNotZero(target) => {
            let partner = target - 1 - base;
            0 <= partner < i && code[partner] == Instruction::JumpZero((base + i + 1) as Count)
        },
        _ => true,
    }
}

/// Every jump of `code`, which stands at position `base` and after, has its
/// partner.
pub open spec fn jumps_matched(code: Seq<Instruction>, base: nat) -> bool {
    forall|i: int| 0 <= i < code.len() ==> #[trigger] jump_matched(code, base, i)
}

/// In the bytecode of a program every jump has its partner.
pub proof fn lemma_lower_matched(p: Seq<Node>, base: nat)
    requires
        representable(p, base),
    ensures
        jumps_matched(lower(p, base), base),
    decreases p, 1nat,
{
    if p.len() > 0 {
        let front = p.drop_last();
        let at = base + size(front);
        let head = lower(front, base);
        let tail = lower_node(p.last(), at);
        let code = lower(p, base);
        lemma_lower_len(front, base);
        lemma_lower_node_len(p.last(), at);
        lemma_lower_matched(front, base);
        lemma_lower_node_matched(p.last(), at);
        assert forall|i: int| 0 <= i < code.len() implies #[trigger] jump_matched(
            code,
            base,
            i,
        ) by {
            if i < head.len() {
                assert(jump_matched(head, base, i));
                assert(code[i] == head[i]);
                match head[i] {
                    Instruction::JumpZero(target) => {
                        assert(code[target - 1 - base] == head[target - 1 - base]);
                    },
                    Instruction::JumpNotZero(target) => {
                        assert(code[target - 1 - base] == head[target - 1 - base]);
                    },
                    _ => {},
                }
            } else {
                let k = i - head.len();
                assert(jump_matched(tail, at, k));
                assert(code[i] == tail[k]);
                match tail[k] {
                    Instruction::JumpZero(target) => {
                        assert(code[target - 1 - base] == tail[target - 1 - at]);
                    },
                    Instruction::JumpNotZero(target) => {
                        assert(code[target - 1 - base] == tail[target - 1 - at]);
                    },
                    _ => {},
                }
            }
        }
    }
}

/// In the bytecode of an instruction every jump has its partner.
pub proof fn lemma_lower_node_matched(n: Node, at: nat)
    requires
        node_representable(n, at),
    ensures
        jumps_matched(lower_node(n, at), at),
    decreases n, 0nat,
{
    let code = lower_node(n, at);
    match n {
        Node::Loop(body) => {
            let inner = lower(body, at + 1);
            let sz = size(body) as int;
            lemma_lower_len(body, at + 1);
            lemma_lower_matched(body, at + 1);
            assert(code.len() == sz + 2);
            assert forall|i: int| 0 <= i < code.len() implies #[trigger] jump_matched(
                code,
                at,
                i,
            ) by {
                if i == 0 {
                    assert(code[0] == Instruction::JumpZero((at + sz + 2) as Count));
                    assert(code[sz + 1] == Instruction::JumpNotZero((at + 1) as Count));
                } else if i == sz + 1 {
                    assert(code[0] == Instruction::JumpZero((at + sz + 2) as Count));
                    assert(code[sz + 1] == Instruction::JumpNotZero((at + 1) as Count));
                } else {
                    let k = i - 1;
                    assert(jump_matched(inner, at + 1, k));
                    assert(code[i] == inner[k]);
                    match inner[k] {
                        Instruction::JumpZero(target) => {
                            assert(code[target - 1 - at] == inner[target - 1 - (at + 1)]);
                        },
                        Instruction::JumpNotZero(target) => {
                            assert(code[target - 1 - at] == inner[target - 1 - (at + 1)]);
                        },
                        _ => {},
                    }
                }
            }
        },
        _ => {
            assert(code.len() == 1);
            assert(jump_matched(code, at, 0));
        },
    }
}

} // verus!
