//! The encoded tree means what the syntax tree means.

use vstd::prelude::*;
use crate::ast;
use crate::common::{Command, Count, MAX_COUNT};
use crate::rle::{
    command, encode, extend, issue, lemma_run_last, lemma_run_push, lemma_run_wf, repeat_read,
    repeat_write, run, run_loop, Node,
};
use crate::state::{same_io, wrap_add, wrap_sub, Machine, Outcome};

verus! {

/// A run of one command does what the command does.
proof fn lemma_command_once(c: Command, m: Machine, fuel: nat)
    ensures
        command(c, 1, m, fuel) == ast::command(c, m, fuel),
{
    reveal_with_fuel(repeat_read, 2);
    reveal_with_fuel(repeat_write, 2);
}

/// Adding a count that is one larger is adding the count and then 1.
proof fn lemma_wrap_add_more(x: u8, n: Count)
    requires
        n < MAX_COUNT,
    ensures
        wrap_add(wrap_add(x, (n % 256) as u8), 1) == wrap_add(x, (((n + 1) as Count) % 256) as u8),
{
}

/// Subtracting a count that is one larger is subtracting the count and then 1.
proof fn lemma_wrap_sub_more(x: u8, n: Count)
    requires
        n < MAX_COUNT,
    ensures
        wrap_sub(wrap_sub(x, (n % 256) as u8), 1) == wrap_sub(x, (((n + 1) as Count) % 256) as u8),
{
}

/// Changing the cell by a count that is one larger is changing it by the
/// count and then by 1.
proof fn lemma_change_more(n: Count, m: Machine)
    requires
        n < MAX_COUNT,
        m.wf(),
    ensures
        m.up((((n + 1) as Count) % 256) as u8) == m.up((n % 256) as u8).up(1),
        m.down((((n + 1) as Count) % 256) as u8) == m.down((n % 256) as u8).down(1),
{
    let k = (n + 1) as Count;
    lemma_wrap_add_more(m.cell(), n);
    lemma_wrap_sub_more(m.cell(), n);
    assert(m.up((n % 256) as u8).cell() == wrap_add(m.cell(), (n % 256) as u8));
    assert(m.down((n % 256) as u8).cell() == wrap_sub(m.cell(), (n % 256) as u8));
    assert(m.up((n % 256) as u8).up(1).tape.cells =~= m.up((k % 256) as u8).tape.cells);
    assert(m.down((n % 256) as u8).down(1).tape.cells =~= m.down((k % 256) as u8).tape.cells);
}

/// A run that is one longer does what the run does, and then the command
/// once more.
proof fn lemma_command_more(c: Command, n: Count, m: Machine, fuel: nat)
    requires
        n < MAX_COUNT,
        m.wf(),
        command(c, n, m, fuel) is Done,
        ast::command(c, command(c, n, m, fuel)->Done_machine, fuel) is Done,
    ensures
        command(c, (n + 1) as Count, m, fuel) == ast::command(
            c,
            command(c, n, m, fuel)->Done_machine,
            fuel,
        ),
{
    let k = (n + 1) as Count;
    match c {
        Command::Up => {
            lemma_change_more(n, m);
        },
        Command::Down => {
            lemma_change_more(n, m);
        },
        Command::In => {
            assert(repeat_read(m, k as nat) == repeat_read(m, n as nat).read());
        },
        Command::Out => {
            assert(repeat_write(m, k as nat) == repeat_write(m, n as nat).write());
        },
        _ => {},
    }
}

/// One more command at the end of an encoded program does to the machine
/// what the command does.
proof fn lemma_issue_run(q: Seq<Node>, c: Command, m: Machine, fuel: nat, m1: Machine, f1: nat)
    requires
        m.wf(),
        run(q, m, fuel) == (Outcome::Done { machine: m1, fuel: f1 }),
        ast::command(c, m1, f1) is Done,
    ensures
        run(issue(q, c), m, fuel) == ast::command(c, m1, f1),
{
    if q.len() > 0 && q.last() == Node::Cmd(c, q.last()->Cmd_1) && q.last()->Cmd_1 < MAX_COUNT {
        let n = q.last()->Cmd_1;
        let q0 = q.drop_last();
        lemma_run_last(q, m, fuel);
        let m0 = run(q0, m, fuel)->Done_machine;
        let f0 = run(q0, m, fuel)->Done_fuel;
        lemma_run_wf(q0, m, fuel);
        assert(command(c, n, m0, f0) == (Outcome::Done { machine: m1, fuel: f1 }));
        assert(f0 == f1);
        lemma_command_more(c, n, m0, f0);
        lemma_run_push(q0, Node::Cmd(c, (n + 1) as Count), m, fuel);
    } else {
        lemma_command_once(c, m1, f1);
        lemma_run_push(q, Node::Cmd(c, 1), m, fuel);
    }
}

/// Where the syntax tree `p` runs to its end, the encoded program that `p`
/// was appended to does the same after it has done its own part.
pub proof fn lemma_extend_run(
    q: Seq<Node>,
    p: Seq<ast::Node>,
    m: Machine,
    fuel: nat,
    m1: Machine,
    f1: nat,
)
    requires
        m.wf(),
        run(q, m, fuel) == (Outcome::Done { machine: m1, fuel: f1 }),
        ast::run(p, m1, f1) is Done,
    ensures
        run(extend(q, p), m, fuel) == ast::run(p, m1, f1),
    decreases f1, p, 0nat,
{
    if p.len() > 0 {
        let front = p.drop_last();
        ast::lemma_run_last(p, m1, f1);
        ast::lemma_run_fuel(front, m1, f1);
        let m2 = ast::run(front, m1, f1)->Done_machine;
        let f2 = ast::run(front, m1, f1)->Done_fuel;
        lemma_extend_run(q, front, m, fuel, m1, f1);
        let middle = extend(q, front);
        lemma_run_wf(middle, m, fuel);
        match p.last() {
            ast::Node::Cmd(c) => {
                lemma_issue_run(middle, c, m, fuel, m2, f2);
            },
            ast::Node::Loop(body) => {
                lemma_run_push(middle, Node::Loop(encode(body)), m, fuel);
                lemma_loop_run(body, m2, f2);
            },
        }
    }
}

/// Where a loop of the syntax tree runs to its end, the loop around the
/// encoded body does the same.
proof fn lemma_loop_run(body: Seq<ast::Node>, m: Machine, fuel: nat)
    requires
        m.wf(),
        ast::run_loop(body, m, fuel) is Done,
    ensures
        run_loop(encode(body), m, fuel) == ast::run_loop(body, m, fuel),
    decreases fuel, body, 1nat,
{
    if m.cell() != 0 {
        let less = (fuel - 1) as nat;
        ast::lemma_loop_next(body, m, fuel);
        ast::lemma_run_fuel(body, m, less);
        crate::rle::lemma_loop_next(encode(body), m, fuel);
        let m1 = ast::run(body, m, less)->Done_machine;
        let f1 = ast::run(body, m, less)->Done_fuel;
        lemma_extend_run(Seq::empty(), body, m, less, m, less);
        ast::lemma_run_wf(body, m, less);
        lemma_loop_run(body, m1, f1);
    }
}

/// Where a syntax tree runs to its end, its run-length encoding ends with the
/// same machine and the same fuel.
pub proof fn lemma_encode_run(p: Seq<ast::Node>, m: Machine, fuel: nat)
    requires
        m.wf(),
        ast::run(p, m, fuel) is Done,
    ensures
        run(encode(p), m, fuel) == ast::run(p, m, fuel),
{
    lemma_extend_run(Seq::empty(), p, m, fuel, m, fuel);
}

/// Both runs failed, with the same error, after reading and writing the same.
pub open spec fn fails_alike(a: Outcome, b: Outcome) -> bool {
    a is Failed && b is Failed && a->Failed_error == b->Failed_error && same_io(
        a->Failed_machine,
        b->Failed_machine,
    )
}

/// The two runs ended with the same machine and fuel, or failed alike.
pub open spec fn agrees(a: Outcome, b: Outcome) -> bool {
    if b is Done {
        a == b
    } else {
        fails_alike(a, b)
    }
}

/// A run of moves that fails also fails when it is one longer; a run after
/// which one more command fails, fails so when it is one longer.
proof fn lemma_command_fails(c: Command, n: Count, m: Machine, fuel: nat)
    requires
        n < MAX_COUNT,
    ensures
        command(c, n, m, fuel) is Failed ==> command(c, (n + 1) as Count, m, fuel) == command(
            c,
            n,
            m,
            fuel,
        ),
        command(c, n, m, fuel) is Done && ast::command(
            c,
            command(c, n, m, fuel)->Done_machine,
            fuel,
        ) is Failed ==> fails_alike(
            command(c, (n + 1) as Count, m, fuel),
            ast::command(c, command(c, n, m, fuel)->Done_machine, fuel),
        ),
{
}

/// One more command at the end of an encoded program that fails changes
/// nothing of how it fails.
proof fn lemma_issue_failed(q: Seq<Node>, c: Command, m: Machine, fuel: nat)
    requires
        run(q, m, fuel) is Failed,
    ensures
        run(issue(q, c), m, fuel) == run(q, m, fuel),
{
    if q.len() > 0 && q.last() == Node::Cmd(c, q.last()->Cmd_1) && q.last()->Cmd_1 < MAX_COUNT {
        let n = q.last()->Cmd_1;
        let q0 = q.drop_last();
        lemma_run_last(q, m, fuel);
        lemma_run_push(q0, Node::Cmd(c, (n + 1) as Count), m, fuel);
        match run(q0, m, fuel) {
            Outcome::Done { machine, fuel: left } => {
                lemma_command_fails(c, n, machine, left);
            },
            _ => {},
        }
    } else {
        lemma_run_push(q, Node::Cmd(c, 1), m, fuel);
    }
}

/// One more command that fails, at the end of an encoded program that has
/// run to its end, fails in the program too.
proof fn lemma_issue_fails(q: Seq<Node>, c: Command, m: Machine, fuel: nat, m1: Machine, f1: nat)
    requires
        run(q, m, fuel) == (Outcome::Done { machine: m1, fuel: f1 }),
        ast::command(c, m1, f1) is Failed,
    ensures
        fails_alike(run(issue(q, c), m, fuel), ast::command(c, m1, f1)),
{
    if q.len() > 0 && q.last() == Node::Cmd(c, q.last()->Cmd_1) && q.last()->Cmd_1 < MAX_COUNT {
        let n = q.last()->Cmd_1;
        let q0 = q.drop_last();
        lemma_run_last(q, m, fuel);
        lemma_run_push(q0, Node::Cmd(c, (n + 1) as Count), m, fuel);
        let m0 = run(q0, m, fuel)->Done_machine;
        let f0 = run(q0, m, fuel)->Done_fuel;
        assert(command(c, n, m0, f0) == (Outcome::Done { machine: m1, fuel: f1 }));
        lemma_command_fails(c, n, m0, f0);
    } else {
        lemma_command_once(c, m1, f1);
        lemma_run_push(q, Node::Cmd(c, 1), m, fuel);
    }
}

/// Where the syntax tree `p` fails, the encoded program that `p` was appended
/// to fails alike after it has done its own part.
pub proof fn lemma_extend_fails(
    q: Seq<Node>,
    p: Seq<ast::Node>,
    m: Machine,
    fuel: nat,
    m1: Machine,
    f1: nat,
)
    requires
        m.wf(),
        run(q, m, fuel) == (Outcome::Done { machine: m1, fuel: f1 }),
        ast::run(p, m1, f1) is Failed,
    ensures
        fails_alike(run(extend(q, p), m, fuel), ast::run(p, m1, f1)),
    decreases f1, p, 0nat,
{
    if p.len() > 0 {
        let front = p.drop_last();
        let middle = extend(q, front);
        ast::lemma_run_last(p, m1, f1);
        ast::lemma_run_fuel(front, m1, f1);
        lemma_run_wf(q, m, fuel);
        match ast::run(front, m1, f1) {
            Outcome::Done { machine: m2, fuel: f2 } => {
                lemma_extend_run(q, front, m, fuel, m1, f1);
                ast::lemma_run_wf(front, m1, f1);
                match p.last() {
                    ast::Node::Cmd(c) => {
                        lemma_issue_fails(middle, c, m, fuel, m2, f2);
                    },
                    ast::Node::Loop(body) => {
                        lemma_run_push(middle, Node::Loop(encode(body)), m, fuel);
                        lemma_loop_fails(body, m2, f2);
                    },
                }
            },
            _ => {
                lemma_extend_fails(q, front, m, fuel, m1, f1);
                match p.last() {
                    ast::Node::Cmd(c) => {
                        lemma_issue_failed(middle, c, m, fuel);
                    },
                    ast::Node::Loop(body) => {
                        lemma_run_push(middle, Node::Loop(encode(body)), m, fuel);
                    },
                }
            },
        }
    }
}

/// Where a loop of the syntax tree fails, the loop around the encoded body
/// fails alike.
proof fn lemma_loop_fails(body: Seq<ast::Node>, m: Machine, fuel: nat)
    requires
        m.wf(),
        ast::run_loop(body, m, fuel) is Failed,
    ensures
        fails_alike(run_loop(encode(body), m, fuel), ast::run_loop(body, m, fuel)),
    decreases fuel, body, 1nat,
{
    if m.cell() != 0 && fuel > 0 {
        let less = (fuel - 1) as nat;
        ast::lemma_loop_next(body, m, fuel);
        ast::lemma_run_fuel(body, m, less);
        crate::rle::lemma_loop_next(encode(body), m, fuel);
        match ast::run(body, m, less) {
            Outcome::Done { machine: m1, fuel: f1 } => {
                lemma_extend_run(Seq::empty(), body, m, less, m, less);
                ast::lemma_run_wf(body, m, less);
                lemma_loop_fails(body, m1, f1);
            },
            _ => {
                lemma_extend_fails(Seq::empty(), body, m, less, m, less);
            },
        }
    }
}

/// The run-length encoding of a syntax tree does what the tree does: it ends
/// with the same machine and fuel, or fails with the same error after the
/// same input and output.
pub proof fn lemma_encode_agrees(p: Seq<ast::Node>, m: Machine, fuel: nat)
    requires
        m.wf(),
    ensures
        agrees(run(encode(p), m, fuel), ast::run(p, m, fuel)),
{
    if ast::run(p, m, fuel) is Done {
        lemma_extend_run(Seq::empty(), p, m, fuel, m, fuel);
    } else {
        lemma_extend_fails(Seq::empty(), p, m, fuel, m, fuel);
    }
}

/// The net displacement of the pointer by the moves of a syntax tree that
/// stand outside its loops: one cell for each move, to the right counted up.
pub open spec fn tree_displacement(p: Seq<ast::Node>) -> int
    decreases p.len(),
{
    if p.len() == 0 {
        0
    } else {
        tree_displacement(p.drop_last()) + match p.last() {
            ast::Node::Cmd(Command::Right) => 1int,
            ast::Node::Cmd(Command::Left) => -1int,
            _ => 0int,
        }
    }
}

/// The net displacement of the pointer by the moves of an encoded program
/// that stand outside its loops: each run of moves with its count.
pub open spec fn displacement(p: Seq<Node>) -> int
    decreases p.len(),
{
    if p.len() == 0 {
        0
    } else {
        displacement(p.drop_last()) + match p.last() {
            Node::Cmd(Command::Right, n) => n as int,
            Node::Cmd(Command::Left, n) => -(n as int),
            _ => 0int,
        }
    }
}

/// Encoding keeps the displacement: the encoded program moves the pointer as
/// far as what was encoded before and the moves of the tree together.
pub proof fn lemma_extend_displacement(q: Seq<Node>, p: Seq<ast::Node>)
    ensures
        displacement(extend(q, p)) == displacement(q) + tree_displacement(p),
    decreases p.len(),
{
    if p.len() > 0 {
        let front = extend(q, p.drop_last());
        lemma_extend_displacement(q, p.drop_last());
        match p.last() {
            ast::Node::Cmd(c) => {
                if front.len() > 0 && front.last() == Node::Cmd(c, front.last()->Cmd_1)
                    && front.last()->Cmd_1 < MAX_COUNT {
                    let grown = front.drop_last().push(
                        Node::Cmd(c, (front.last()->Cmd_1 + 1) as Count),
                    );
                    assert(grown.drop_last() =~= front.drop_last());
                } else {
                    assert(front.push(Node::Cmd(c, 1)).drop_last() =~= front);
                }
            },
            ast::Node::Loop(body) => {
                assert(front.push(Node::Loop(encode(body))).drop_last() =~= front);
            },
        }
    }
}

/// The run-length encoding of a syntax tree moves the pointer as far as the
/// tree does. This holds of every tree, and so of those that are made of
/// moves alone.
pub proof fn lemma_encode_displacement(p: Seq<ast::Node>)
    ensures
        displacement(encode(p)) == tree_displacement(p),
{
    lemma_extend_displacement(Seq::empty(), p);
}

} // verus!
