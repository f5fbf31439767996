//! The peephole-optimised program does what the syntax tree does, wherever
//! the syntax tree runs to its end.

use vstd::prelude::*;
use crate::ast;
use crate::common::{Command, Error};
use crate::peephole::{
    append_change, append_move, encode, extend, fuse, improve, issue, lemma_loop_fuel,
    lemma_loop_next, lemma_run_fuel, lemma_run_last, lemma_run_push, lemma_run_wf, move_node,
    net_move, run, run_loop, step, Node,
};
use crate::state::{same_io, sought, wrap_add, wrap_sub, Machine, Outcome, Tape};

verus! {

/// The run ended, with the given machine and at least the given fuel.
pub open spec fn ends_with(outcome: Outcome, machine: Machine, fuel: nat) -> bool {
    outcome matches Outcome::Done { machine: m, fuel: left } && m == machine && left >= fuel
}

/// The next instruction after an outcome.
spec fn then(outcome: Outcome, n: Node) -> Outcome {
    match outcome {
        Outcome::Done { machine, fuel } => step(n, machine, fuel),
        failed => failed,
    }
}

/// A program of one instruction does what the instruction does.
proof fn lemma_run_one(a: Node, m: Machine, fuel: nat)
    ensures
        run(seq![a], m, fuel) == step(a, m, fuel),
{
    let none = Seq::<Node>::empty();
    assert(seq![a] =~= none.push(a));
    lemma_run_push(none, a, m, fuel);
}

/// A program of four instructions does what they do one after the other.
proof fn lemma_run_four(a: Node, b: Node, c: Node, d: Node, m: Machine, fuel: nat)
    ensures
        run(seq![a, b, c, d], m, fuel) == then(then(then(step(a, m, fuel), b), c), d),
{
    let none = Seq::<Node>::empty();
    let one = none.push(a);
    let two = one.push(b);
    let three = two.push(c);
    assert(seq![a, b, c, d] =~= three.push(d));
    lemma_run_push(none, a, m, fuel);
    lemma_run_push(one, b, m, fuel);
    lemma_run_push(two, c, m, fuel);
    lemma_run_push(three, d, m, fuel);
}

/// A move at the end of a program, merged or not, moves the pointer.
proof fn lemma_append_move_run(
    q: Seq<Node>,
    d: int,
    m: Machine,
    fuel: nat,
    m1: Machine,
    g1: nat,
)
    requires
        run(q, m, fuel) == (Outcome::Done { machine: m1, fuel: g1 }),
        0 <= m1.tape.pointer + d < m1.tape.cells.len(),
        0 <= m1.tape.pointer,
        -usize::MAX <= d <= usize::MAX,
    ensures
        run(append_move(q, d), m, fuel) == (Outcome::Done {
            machine: m1.with_tape(m1.tape.shift(d)),
            fuel: g1,
        }),
{
    let target = m1.with_tape(m1.tape.shift(d));
    if q.len() > 0 && net_move(q.last()) is Some && -usize::MAX <= net_move(q.last())->0 + d
        <= usize::MAX {
        let a = net_move(q.last())->0;
        let net = a + d;
        let q0 = q.drop_last();
        lemma_run_last(q, m, fuel);
        let m0 = run(q0, m, fuel)->Done_machine;
        let g0 = run(q0, m, fuel)->Done_fuel;
        assert(step(q.last(), m0, g0) == (Outcome::Done { machine: m1, fuel: g1 }));
        assert(m1.tape.pointer == m0.tape.pointer + a);
        assert(m1.tape.cells == m0.tape.cells);
        assert(g0 == g1);
        if net == 0 {
            assert(target == m0);
        } else {
            lemma_run_push(q0, move_node(net), m, fuel);
            assert(step(move_node(net), m0, g0) == (Outcome::Done { machine: target, fuel: g1 }));
        }
    } else if d == 0 {
        assert(target == m1);
    } else {
        lemma_run_push(q, move_node(d), m, fuel);
        assert(step(move_node(d), m1, g1) == (Outcome::Done { machine: target, fuel: g1 }));
    }
}

/// Two changes in a row are one change by their sum.
proof fn lemma_up_up(m: Machine, a: u8, d: u8)
    requires
        m.wf(),
    ensures
        m.up(a).up(d) == m.up(wrap_add(a, d)),
        wrap_add(a, d) == 0 ==> m.up(a).up(d) == m,
        m.up(0) == m,
        m.down(1) == m.up(255),
{
    assert(m.up(a).cell() == wrap_add(m.cell(), a));
    assert(m.up(a).up(d).tape.cells =~= m.up(wrap_add(a, d)).tape.cells);
    if wrap_add(a, d) == 0 {
        assert(m.up(a).up(d).tape.cells =~= m.tape.cells);
    }
    assert(m.up(0).tape.cells =~= m.tape.cells);
    assert(wrap_sub(m.cell(), 1) == wrap_add(m.cell(), 255));
}

/// A change at the end of a program, merged or not, changes the cell.
proof fn lemma_append_change_run(
    q: Seq<Node>,
    d: u8,
    m: Machine,
    fuel: nat,
    m1: Machine,
    g1: nat,
)
    requires
        m.wf(),
        run(q, m, fuel) == (Outcome::Done { machine: m1, fuel: g1 }),
    ensures
        run(append_change(q, d), m, fuel) == (Outcome::Done { machine: m1.up(d), fuel: g1 }),
{
    lemma_run_wf(q, m, fuel);
    if q.len() > 0 && q.last() is Change {
        let a = q.last()->Change_0;
        let sum = wrap_add(a, d);
        let q0 = q.drop_last();
        lemma_run_last(q, m, fuel);
        lemma_run_wf(q0, m, fuel);
        let m0 = run(q0, m, fuel)->Done_machine;
        let g0 = run(q0, m, fuel)->Done_fuel;
        assert(step(q.last(), m0, g0) == (Outcome::Done { machine: m1, fuel: g1 }));
        assert(m1 == m0.up(a));
        lemma_up_up(m0, a, d);
        if sum != 0 {
            lemma_run_push(q0, Node::Change(sum), m, fuel);
        }
    } else if d == 0 {
        lemma_up_up(m1, 0, 0);
    } else {
        lemma_run_push(q, Node::Change(d), m, fuel);
    }
}

/// A command of the syntax tree, issued at the end of a program, does to the
/// machine what the command does.
proof fn lemma_issue_run(
    q: Seq<Node>,
    c: Command,
    m: Machine,
    fuel: nat,
    m1: Machine,
    g1: nat,
    f1: nat,
)
    requires
        m.wf(),
        run(q, m, fuel) == (Outcome::Done { machine: m1, fuel: g1 }),
        ast::command(c, m1, f1) is Done,
    ensures
        run(issue(q, c), m, fuel) == (Outcome::Done {
            machine: ast::command(c, m1, f1)->Done_machine,
            fuel: g1,
        }),
{
    lemma_run_wf(q, m, fuel);
    match c {
        Command::Right => {
            lemma_append_move_run(q, 1, m, fuel, m1, g1);
        },
        Command::Left => {
            lemma_append_move_run(q, -1, m, fuel, m1, g1);
        },
        Command::Up => {
            lemma_append_change_run(q, 1, m, fuel, m1, g1);
        },
        Command::Down => {
            lemma_append_change_run(q, 255, m, fuel, m1, g1);
            lemma_up_up(m1, 0, 0);
        },
        Command::In => {
            lemma_run_push(q, Node::In, m, fuel);
        },
        Command::Out => {
            lemma_run_push(q, Node::Out, m, fuel);
        },
        Command::Begin => {},
        Command::End => {},
    }
}

/// A loop that only changes its cell by 1, up or down, ends with the cell
/// at 0 and all else as it was.
proof fn lemma_set_zero(d: u8, m: Machine, fuel: nat)
    requires
        m.wf(),
        d == 1 || d == 255,
        run_loop(seq![Node::Change(d)], m, fuel) is Done,
    ensures
        run_loop(seq![Node::Change(d)], m, fuel)->Done_machine == m.zero(),
    decreases fuel,
{
    let body = seq![Node::Change(d)];
    if m.cell() == 0 {
        assert(m.zero().tape.cells =~= m.tape.cells);
    } else {
        let less = (fuel - 1) as nat;
        lemma_loop_next(body, m, fuel);
        lemma_run_one(Node::Change(d), m, less);
        lemma_set_zero(d, m.up(d), less);
        assert(m.up(d).zero().tape.cells =~= m.zero().tape.cells);
    }
}

/// A loop that only moves right ends where the search to the right ends.
proof fn lemma_find_right(s: usize, m: Machine, fuel: nat)
    requires
        m.wf(),
        run_loop(seq![Node::Right(s)], m, fuel) is Done,
    ensures
        m.tape.seek_right(s as nat) == Ok::<Tape, (Error, Tape)>(
            run_loop(seq![Node::Right(s)], m, fuel)->Done_machine.tape,
        ),
        run_loop(seq![Node::Right(s)], m, fuel)->Done_machine == m.with_tape(
            run_loop(seq![Node::Right(s)], m, fuel)->Done_machine.tape,
        ),
    decreases fuel,
{
    let body = seq![Node::Right(s)];
    if m.cell() != 0 {
        let less = (fuel - 1) as nat;
        lemma_loop_next(body, m, fuel);
        lemma_run_one(Node::Right(s), m, less);
        let m1 = m.with_tape(m.tape.shift(s as int));
        assert(run(body, m, less) == (Outcome::Done { machine: m1, fuel: less }));
        lemma_find_right(s, m1, less);
        if s == 0 {
            assert(m1 == m);
        }
    }
}

/// A loop that only moves left ends where the search to the left ends.
proof fn lemma_find_left(s: usize, m: Machine, fuel: nat)
    requires
        m.wf(),
        run_loop(seq![Node::Left(s)], m, fuel) is Done,
    ensures
        m.tape.seek_left(s as nat) == Ok::<Tape, (Error, Tape)>(
            run_loop(seq![Node::Left(s)], m, fuel)->Done_machine.tape,
        ),
        run_loop(seq![Node::Left(s)], m, fuel)->Done_machine == m.with_tape(
            run_loop(seq![Node::Left(s)], m, fuel)->Done_machine.tape,
        ),
    decreases fuel,
{
    let body = seq![Node::Left(s)];
    if m.cell() != 0 {
        let less = (fuel - 1) as nat;
        lemma_loop_next(body, m, fuel);
        lemma_run_one(Node::Left(s), m, less);
        let m1 = m.with_tape(m.tape.shift(-(s as int)));
        assert(run(body, m, less) == (Outcome::Done { machine: m1, fuel: less }));
        lemma_find_left(s, m1, less);
        if s == 0 {
            assert(m1 == m);
        }
    }
}

/// The body of a loop that carries its cell to the right.
spec fn carry_right(k: usize) -> Seq<Node> {
    seq![Node::Change(255), Node::Right(k), Node::Change(1), Node::Left(k)]
}

/// The body of a loop that carries its cell to the left.
spec fn carry_left(k: usize) -> Seq<Node> {
    seq![Node::Change(255), Node::Left(k), Node::Change(1), Node::Right(k)]
}

/// The machine after one iteration of a loop that carries its cell to the
/// cell at `at`: the cell is one less, the other one more.
spec fn carried(m: Machine, at: int) -> Machine {
    let lowered = m.tape.cells.update(m.tape.pointer, wrap_add(m.cell(), 255));
    m.with_tape(
        Tape { cells: lowered.update(at, wrap_add(lowered[at], 1)), pointer: m.tape.pointer },
    )
}

/// All that is left to carry after one iteration gives the same as carrying
/// all at once.
proof fn lemma_carried(m: Machine, d: int)
    requires
        m.wf(),
        m.cell() != 0,
        0 <= m.tape.pointer + d < m.tape.cells.len(),
    ensures
        carried(m, m.tape.pointer + d).wf(),
        carried(m, m.tape.pointer + d).cell() == 0 ==> carried(m, m.tape.pointer + d)
            == m.with_tape(m.tape.add_at(d, m.cell()).store(0)),
        carried(m, m.tape.pointer + d).cell() != 0 ==> carried(m, m.tape.pointer + d).with_tape(
            carried(m, m.tape.pointer + d).tape.add_at(
                d,
                carried(m, m.tape.pointer + d).cell(),
            ).store(0),
        ) == m.with_tape(m.tape.add_at(d, m.cell()).store(0)),
{
    let p = m.tape.pointer;
    let c = m.cell();
    let next = carried(m, p + d);
    let whole = m.tape.add_at(d, c).store(0);
    let lowered = m.tape.cells.update(p, wrap_add(c, 255));
    assert(wrap_add(c, 255) == c - 1);
    if d == 0 {
        assert(next.tape.cells[p] == c);
        assert(next.tape.add_at(d, next.cell()).store(0).cells =~= whole.cells);
    } else {
        assert(lowered[p + d] == m.tape.cells[p + d]);
        assert(next.tape.cells[p] == c - 1);
        assert(next.tape.cells[p + d] == wrap_add(m.tape.cells[p + d], 1));
        if c == 1 {
            assert(next.tape.cells =~= whole.cells);
        } else {
            assert(wrap_add(wrap_add(m.tape.cells[p + d], 1), (c - 1) as u8) == wrap_add(
                m.tape.cells[p + d],
                c,
            ));
            assert(next.tape.add_at(d, next.cell()).store(0).cells =~= whole.cells);
        }
    }
}

/// One iteration of a loop that carries its cell to the right.
proof fn lemma_carry_right_step(k: usize, m: Machine, fuel: nat)
    requires
        m.wf(),
        run(carry_right(k), m, fuel) is Done,
    ensures
        m.tape.pointer + k < m.tape.cells.len(),
        run(carry_right(k), m, fuel) == (Outcome::Done {
            machine: carried(m, m.tape.pointer + k),
            fuel,
        }),
{
    lemma_run_four(Node::Change(255), Node::Right(k), Node::Change(1), Node::Left(k), m, fuel);
    let ma = m.up(255);
    let mb = ma.with_tape(ma.tape.shift(k as int));
    let mc = mb.up(1);
    let md = mc.with_tape(mc.tape.shift(-(k as int)));
    assert(step(Node::Change(255), m, fuel) == (Outcome::Done { machine: ma, fuel }));
    assert(step(Node::Right(k), ma, fuel) == (Outcome::Done { machine: mb, fuel }));
    assert(step(Node::Change(1), mb, fuel) == (Outcome::Done { machine: mc, fuel }));
    assert(step(Node::Left(k), mc, fuel) == (Outcome::Done { machine: md, fuel }));
    assert(md == carried(m, m.tape.pointer + k));
}

/// One iteration of a loop that carries its cell to the left.
proof fn lemma_carry_left_step(k: usize, m: Machine, fuel: nat)
    requires
        m.wf(),
        run(carry_left(k), m, fuel) is Done,
    ensures
        k <= m.tape.pointer,
        run(carry_left(k), m, fuel) == (Outcome::Done {
            machine: carried(m, m.tape.pointer - k),
            fuel,
        }),
{
    lemma_run_four(Node::Change(255), Node::Left(k), Node::Change(1), Node::Right(k), m, fuel);
    let ma = m.up(255);
    let mb = ma.with_tape(ma.tape.shift(-(k as int)));
    let mc = mb.up(1);
    let md = mc.with_tape(mc.tape.shift(k as int));
    assert(step(Node::Change(255), m, fuel) == (Outcome::Done { machine: ma, fuel }));
    assert(step(Node::Left(k), ma, fuel) == (Outcome::Done { machine: mb, fuel }));
    assert(step(Node::Change(1), mb, fuel) == (Outcome::Done { machine: mc, fuel }));
    assert(step(Node::Right(k), mc, fuel) == (Outcome::Done { machine: md, fuel }));
    assert(md == carried(m, m.tape.pointer - k));
}

/// One iteration of a loop that carries its cell to the right leaves a
/// machine from which the rest of the carrying gives the same as the whole.
proof fn lemma_carry_right_once(k: usize, m: Machine, fuel: nat)
    requires
        m.wf(),
        m.cell() != 0,
        run(carry_right(k), m, fuel) is Done,
    ensures
        run(carry_right(k), m, fuel)->Done_fuel == fuel,
        run(carry_right(k), m, fuel)->Done_machine.wf(),
        run(carry_right(k), m, fuel)->Done_machine.offset_add_right(k as nat)
            == m.offset_add_right(k as nat),
{
    lemma_carry_right_step(k, m, fuel);
    lemma_carried(m, k as int);
}

/// One iteration of a loop that carries its cell to the left leaves a
/// machine from which the rest of the carrying gives the same as the whole.
proof fn lemma_carry_left_once(k: usize, m: Machine, fuel: nat)
    requires
        m.wf(),
        m.cell() != 0,
        run(carry_left(k), m, fuel) is Done,
    ensures
        run(carry_left(k), m, fuel)->Done_fuel == fuel,
        run(carry_left(k), m, fuel)->Done_machine.wf(),
        run(carry_left(k), m, fuel)->Done_machine.offset_add_left(k as nat) == m.offset_add_left(
            k as nat,
        ),
{
    lemma_carry_left_step(k, m, fuel);
    lemma_carried(m, -(k as int));
}

/// A loop that carries its cell to the right ends as the one instruction
/// that adds the cell there.
proof fn lemma_carry_right(k: usize, m: Machine, fuel: nat)
    requires
        m.wf(),
        run_loop(carry_right(k), m, fuel) is Done,
    ensures
        m.offset_add_right(k as nat) == Ok::<Machine, Error>(
            run_loop(carry_right(k), m, fuel)->Done_machine,
        ),
    decreases fuel,
{
    if m.cell() != 0 {
        let less = (fuel - 1) as nat;
        lemma_loop_next(carry_right(k), m, fuel);
        lemma_carry_right_once(k, m, less);
        lemma_carry_right(k, run(carry_right(k), m, less)->Done_machine, less);
    }
}

/// A loop that carries its cell to the left ends as the one instruction
/// that adds the cell there.
proof fn lemma_carry_left(k: usize, m: Machine, fuel: nat)
    requires
        m.wf(),
        run_loop(carry_left(k), m, fuel) is Done,
    ensures
        m.offset_add_left(k as nat) == Ok::<Machine, Error>(
            run_loop(carry_left(k), m, fuel)->Done_machine,
        ),
    decreases fuel,
{
    if m.cell() != 0 {
        let less = (fuel - 1) as nat;
        lemma_loop_next(carry_left(k), m, fuel);
        lemma_carry_left_once(k, m, less);
        lemma_carry_left(k, run(carry_left(k), m, less)->Done_machine, less);
    }
}

/// Where a loop around `body` runs to its end, the instruction that the loop
/// is replaced by ends with the same machine, and with no less fuel.
pub proof fn lemma_fuse_run(body: Seq<Node>, m: Machine, fuel: nat)
    requires
        m.wf(),
        run_loop(body, m, fuel) is Done,
    ensures
        ends_with(
            step(fuse(body), m, fuel),
            run_loop(body, m, fuel)->Done_machine,
            run_loop(body, m, fuel)->Done_fuel,
        ),
{
    lemma_loop_fuel(body, m, fuel);
    if body.len() == 1 && (body[0] == Node::Change(1) || body[0] == Node::Change(255)) {
        let d = body[0]->Change_0;
        assert(body =~= seq![Node::Change(d)]);
        lemma_set_zero(d, m, fuel);
    } else if body.len() == 4 && body[0] == Node::Change(255) && body[1] is Right && body[2]
        == Node::Change(1) && body[3] == Node::Left(body[1]->Right_0) {
        let k = body[1]->Right_0;
        assert(body =~= carry_right(k));
        lemma_carry_right(k, m, fuel);
    } else if body.len() == 4 && body[0] == Node::Change(255) && body[1] is Left && body[2]
        == Node::Change(1) && body[3] == Node::Right(body[1]->Left_0) {
        let k = body[1]->Left_0;
        assert(body =~= carry_left(k));
        lemma_carry_left(k, m, fuel);
    } else if body.len() == 1 && body[0] is Right {
        let s = body[0]->Right_0;
        assert(body =~= seq![Node::Right(s)]);
        lemma_find_right(s, m, fuel);
    } else if body.len() == 1 && body[0] is Left {
        let s = body[0]->Left_0;
        assert(body =~= seq![Node::Left(s)]);
        lemma_find_left(s, m, fuel);
    } else {
    }
}

/// A loop that only changes its cell by 1 fails for want of fuel or not at
/// all.
proof fn lemma_set_zero_fails(d: u8, m: Machine, fuel: nat)
    requires
        run_loop(seq![Node::Change(d)], m, fuel) is Failed,
    ensures
        run_loop(seq![Node::Change(d)], m, fuel)->Failed_error == Error::StepLimit,
    decreases fuel,
{
    let body = seq![Node::Change(d)];
    if m.cell() != 0 && fuel > 0 {
        let less = (fuel - 1) as nat;
        lemma_loop_next(body, m, fuel);
        lemma_run_one(Node::Change(d), m, less);
        lemma_set_zero_fails(d, m.up(d), less);
    }
}

/// A loop that only moves right and runs into the end of the tape fails
/// where the search to the right fails.
proof fn lemma_find_right_fails(s: usize, m: Machine, fuel: nat)
    requires
        m.wf(),
        run_loop(seq![Node::Right(s)], m, fuel) is Failed,
        run_loop(seq![Node::Right(s)], m, fuel)->Failed_error != Error::StepLimit,
    ensures
        sought(m.tape.seek_right(s as nat), m, fuel) is Failed,
        sought(m.tape.seek_right(s as nat), m, fuel)->Failed_error == run_loop(
            seq![Node::Right(s)],
            m,
            fuel,
        )->Failed_error,
        same_io(
            sought(m.tape.seek_right(s as nat), m, fuel)->Failed_machine,
            run_loop(seq![Node::Right(s)], m, fuel)->Failed_machine,
        ),
    decreases fuel,
{
    let body = seq![Node::Right(s)];
    if m.cell() != 0 && fuel > 0 {
        let less = (fuel - 1) as nat;
        lemma_loop_next(body, m, fuel);
        lemma_run_one(Node::Right(s), m, less);
        if m.tape.pointer + s < m.tape.cells.len() {
            let m1 = m.with_tape(m.tape.shift(s as int));
            assert(run(body, m, less) == (Outcome::Done { machine: m1, fuel: less }));
            lemma_find_right_fails(s, m1, less);
            if s == 0 {
                assert(m1 == m);
            }
        }
    }
}

/// A loop that only moves left and runs into the start of the tape fails
/// where the search to the left fails.
proof fn lemma_find_left_fails(s: usize, m: Machine, fuel: nat)
    requires
        m.wf(),
        run_loop(seq![Node::Left(s)], m, fuel) is Failed,
        run_loop(seq![Node::Left(s)], m, fuel)->Failed_error != Error::StepLimit,
    ensures
        sought(m.tape.seek_left(s as nat), m, fuel) is Failed,
        sought(m.tape.seek_left(s as nat), m, fuel)->Failed_error == run_loop(
            seq![Node::Left(s)],
            m,
            fuel,
        )->Failed_error,
        same_io(
            sought(m.tape.seek_left(s as nat), m, fuel)->Failed_machine,
            run_loop(seq![Node::Left(s)], m, fuel)->Failed_machine,
        ),
    decreases fuel,
{
    let body = seq![Node::Left(s)];
    if m.cell() != 0 && fuel > 0 {
        let less = (fuel - 1) as nat;
        lemma_loop_next(body, m, fuel);
        lemma_run_one(Node::Left(s), m, less);
        if s <= m.tape.pointer {
            let m1 = m.with_tape(m.tape.shift(-(s as int)));
            assert(run(body, m, less) == (Outcome::Done { machine: m1, fuel: less }));
            lemma_find_left_fails(s, m1, less);
            if s == 0 {
                assert(m1 == m);
            }
        }
    }
}

/// One iteration of a loop that carries its cell to the right fails only
/// past the end of the tape, and leaves input and output alone.
proof fn lemma_carry_right_step_fails(k: usize, m: Machine, fuel: nat)
    requires
        m.wf(),
        run(carry_right(k), m, fuel) is Failed,
    ensures
        m.tape.pointer + k >= m.tape.cells.len(),
        run(carry_right(k), m, fuel)->Failed_error == Error::PointerOverflow,
        same_io(run(carry_right(k), m, fuel)->Failed_machine, m),
{
    lemma_run_four(Node::Change(255), Node::Right(k), Node::Change(1), Node::Left(k), m, fuel);
    let ma = m.up(255);
    assert(step(Node::Change(255), m, fuel) == (Outcome::Done { machine: ma, fuel }));
    if m.tape.pointer + k < m.tape.cells.len() {
        let mb = ma.with_tape(ma.tape.shift(k as int));
        let mc = mb.up(1);
        let md = mc.with_tape(mc.tape.shift(-(k as int)));
        assert(step(Node::Right(k), ma, fuel) == (Outcome::Done { machine: mb, fuel }));
        assert(step(Node::Change(1), mb, fuel) == (Outcome::Done { machine: mc, fuel }));
        assert(step(Node::Left(k), mc, fuel) == (Outcome::Done { machine: md, fuel }));
    } else {
        assert(step(Node::Right(k), ma, fuel) == (Outcome::Failed {
            error: Error::PointerOverflow,
            machine: ma,
        }));
    }
}

/// One iteration of a loop that carries its cell to the left fails only
/// before the start of the tape, and leaves input and output alone.
proof fn lemma_carry_left_step_fails(k: usize, m: Machine, fuel: nat)
    requires
        m.wf(),
        run(carry_left(k), m, fuel) is Failed,
    ensures
        k > m.tape.pointer,
        run(carry_left(k), m, fuel)->Failed_error == Error::PointerUnderflow,
        same_io(run(carry_left(k), m, fuel)->Failed_machine, m),
{
    lemma_run_four(Node::Change(255), Node::Left(k), Node::Change(1), Node::Right(k), m, fuel);
    let ma = m.up(255);
    assert(step(Node::Change(255), m, fuel) == (Outcome::Done { machine: ma, fuel }));
    if k <= m.tape.pointer {
        let mb = ma.with_tape(ma.tape.shift(-(k as int)));
        let mc = mb.up(1);
        let md = mc.with_tape(mc.tape.shift(k as int));
        assert(step(Node::Left(k), ma, fuel) == (Outcome::Done { machine: mb, fuel }));
        assert(step(Node::Change(1), mb, fuel) == (Outcome::Done { machine: mc, fuel }));
        assert(step(Node::Right(k), mc, fuel) == (Outcome::Done { machine: md, fuel }));
    } else {
        assert(step(Node::Left(k), ma, fuel) == (Outcome::Failed {
            error: Error::PointerUnderflow,
            machine: ma,
        }));
    }
}

/// A loop that carries its cell to the right and leaves the tape fails as
/// the one instruction that adds the cell there.
proof fn lemma_carry_right_fails(k: usize, m: Machine, fuel: nat)
    requires
        m.wf(),
        run_loop(carry_right(k), m, fuel) is Failed,
        run_loop(carry_right(k), m, fuel)->Failed_error != Error::StepLimit,
    ensures
        m.offset_add_right(k as nat) == Err::<Machine, Error>(
            run_loop(carry_right(k), m, fuel)->Failed_error,
        ),
        same_io(run_loop(carry_right(k), m, fuel)->Failed_machine, m),
    decreases fuel,
{
    if m.cell() != 0 && fuel > 0 {
        let less = (fuel - 1) as nat;
        lemma_loop_next(carry_right(k), m, fuel);
        if run(carry_right(k), m, less) is Done {
            lemma_carry_right_once(k, m, less);
            lemma_carry_right_step(k, m, less);
            lemma_carry_right_fails(k, run(carry_right(k), m, less)->Done_machine, less);
        } else {
            lemma_carry_right_step_fails(k, m, less);
        }
    }
}

/// A loop that carries its cell to the left and leaves the tape fails as
/// the one instruction that adds the cell there.
proof fn lemma_carry_left_fails(k: usize, m: Machine, fuel: nat)
    requires
        m.wf(),
        run_loop(carry_left(k), m, fuel) is Failed,
        run_loop(carry_left(k), m, fuel)->Failed_error != Error::StepLimit,
    ensures
        m.offset_add_left(k as nat) == Err::<Machine, Error>(
            run_loop(carry_left(k), m, fuel)->Failed_error,
        ),
        same_io(run_loop(carry_left(k), m, fuel)->Failed_machine, m),
    decreases fuel,
{
    if m.cell() != 0 && fuel > 0 {
        let less = (fuel - 1) as nat;
        lemma_loop_next(carry_left(k), m, fuel);
        if run(carry_left(k), m, less) is Done {
            lemma_carry_left_once(k, m, less);
            lemma_carry_left_step(k, m, less);
            lemma_carry_left_fails(k, run(carry_left(k), m, less)->Done_machine, less);
        } else {
            lemma_carry_left_step_fails(k, m, less);
        }
    }
}

/// Where a loop around `body` fails on the tape, the instruction that the
/// loop is replaced by fails with the same error, after the same input and
/// output. (A loop that fails for want of fuel says nothing of the
/// instruction, which may need none.)
pub proof fn lemma_fuse_fails(body: Seq<Node>, m: Machine, fuel: nat)
    requires
        m.wf(),
        run_loop(body, m, fuel) is Failed,
        run_loop(body, m, fuel)->Failed_error != Error::StepLimit,
    ensures
        step(fuse(body), m, fuel) is Failed,
        step(fuse(body), m, fuel)->Failed_error == run_loop(body, m, fuel)->Failed_error,
        same_io(
            step(fuse(body), m, fuel)->Failed_machine,
            run_loop(body, m, fuel)->Failed_machine,
        ),
{
    if body.len() == 1 && (body[0] == Node::Change(1) || body[0] == Node::Change(255)) {
        let d = body[0]->Change_0;
        assert(body =~= seq![Node::Change(d)]);
        lemma_set_zero_fails(d, m, fuel);
    } else if body.len() == 4 && body[0] == Node::Change(255) && body[1] is Right && body[2]
        == Node::Change(1) && body[3] == Node::Left(body[1]->Right_0) {
        let k = body[1]->Right_0;
        assert(body =~= carry_right(k));
        lemma_carry_right_fails(k, m, fuel);
    } else if body.len() == 4 && body[0] == Node::Change(255) && body[1] is Left && body[2]
        == Node::Change(1) && body[3] == Node::Right(body[1]->Left_0) {
        let k = body[1]->Left_0;
        assert(body =~= carry_left(k));
        lemma_carry_left_fails(k, m, fuel);
    } else if body.len() == 1 && body[0] is Right {
        let s = body[0]->Right_0;
        assert(body =~= seq![Node::Right(s)]);
        lemma_find_right_fails(s, m, fuel);
    } else if body.len() == 1 && body[0] is Left {
        let s = body[0]->Left_0;
        assert(body =~= seq![Node::Left(s)]);
        lemma_find_left_fails(s, m, fuel);
    } else {
    }
}

/// Where the syntax tree `p` runs to its end, the program that `p` was
/// compiled onto ends with the same machine, and with no less fuel, after it
/// has done its own part.
pub proof fn lemma_extend_run(
    q: Seq<Node>,
    p: Seq<ast::Node>,
    m: Machine,
    fuel: nat,
    m1: Machine,
    g1: nat,
    f1: nat,
)
    requires
        m.wf(),
        run(q, m, fuel) == (Outcome::Done { machine: m1, fuel: g1 }),
        g1 >= f1,
        ast::run(p, m1, f1) is Done,
    ensures
        ends_with(
            run(extend(q, p), m, fuel),
            ast::run(p, m1, f1)->Done_machine,
            ast::run(p, m1, f1)->Done_fuel,
        ),
    decreases f1, p, 0nat,
{
    if p.len() > 0 {
        let front = p.drop_last();
        lemma_run_wf(q, m, fuel);
        ast::lemma_run_last(p, m1, f1);
        ast::lemma_run_fuel(front, m1, f1);
        ast::lemma_run_wf(front, m1, f1);
        let m3 = ast::run(front, m1, f1)->Done_machine;
        let f3 = ast::run(front, m1, f1)->Done_fuel;
        lemma_extend_run(q, front, m, fuel, m1, g1, f1);
        let middle = extend(q, front);
        let g3 = run(middle, m, fuel)->Done_fuel;
        match p.last() {
            ast::Node::Cmd(c) => {
                lemma_issue_run(middle, c, m, fuel, m3, g3, f3);
            },
            ast::Node::Loop(body) => {
                let compiled = encode(body);
                lemma_run_push(middle, fuse(compiled), m, fuel);
                lemma_loop_run(body, m3, f3, g3);
                lemma_fuse_run(compiled, m3, g3);
            },
        }
    }
}

/// Where a loop of the syntax tree runs to its end, the loop around the
/// compiled body ends with the same machine, and with no less fuel.
proof fn lemma_loop_run(body: Seq<ast::Node>, m: Machine, f: nat, g: nat)
    requires
        m.wf(),
        g >= f,
        ast::run_loop(body, m, f) is Done,
    ensures
        ends_with(
            run_loop(encode(body), m, g),
            ast::run_loop(body, m, f)->Done_machine,
            ast::run_loop(body, m, f)->Done_fuel,
        ),
    decreases f, body, 1nat,
{
    if m.cell() != 0 {
        let f_less = (f - 1) as nat;
        let g_less = (g - 1) as nat;
        ast::lemma_loop_next(body, m, f);
        ast::lemma_run_fuel(body, m, f_less);
        ast::lemma_run_wf(body, m, f_less);
        lemma_loop_next(encode(body), m, g);
        let m1 = ast::run(body, m, f_less)->Done_machine;
        let f1 = ast::run(body, m, f_less)->Done_fuel;
        lemma_extend_run(Seq::empty(), body, m, g_less, m, g_less, f_less);
        let g1 = run(encode(body), m, g_less)->Done_fuel;
        lemma_loop_run(body, m1, f1, g1);
    }
}

/// Where a syntax tree runs to its end, its peephole-optimised program ends
/// with the same machine, and with no less fuel.
pub proof fn lemma_encode_run(p: Seq<ast::Node>, m: Machine, fuel: nat)
    requires
        m.wf(),
        ast::run(p, m, fuel) is Done,
    ensures
        ends_with(
            run(encode(p), m, fuel),
            ast::run(p, m, fuel)->Done_machine,
            ast::run(p, m, fuel)->Done_fuel,
        ),
{
    lemma_extend_run(Seq::empty(), p, m, fuel, m, fuel, fuel);
}

/// Where the program `p` runs to its end, the program that `p` was
/// optimised onto ends with the same machine, and with no less fuel, after it
/// has done its own part.
pub proof fn lemma_improve_run(
    q: Seq<Node>,
    p: Seq<Node>,
    m: Machine,
    fuel: nat,
    m1: Machine,
    g1: nat,
    f1: nat,
)
    requires
        m.wf(),
        run(q, m, fuel) == (Outcome::Done { machine: m1, fuel: g1 }),
        g1 >= f1,
        run(p, m1, f1) is Done,
    ensures
        ends_with(
            run(improve(q, p), m, fuel),
            run(p, m1, f1)->Done_machine,
            run(p, m1, f1)->Done_fuel,
        ),
    decreases f1, p, 0nat,
{
    if p.len() > 0 {
        let front = p.drop_last();
        lemma_run_wf(q, m, fuel);
        lemma_run_last(p, m1, f1);
        lemma_run_fuel(front, m1, f1);
        lemma_run_wf(front, m1, f1);
        let m3 = run(front, m1, f1)->Done_machine;
        let f3 = run(front, m1, f1)->Done_fuel;
        lemma_improve_run(q, front, m, fuel, m1, g1, f1);
        let middle = improve(q, front);
        let g3 = run(middle, m, fuel)->Done_fuel;
        match p.last() {
            Node::Right(k) => {
                lemma_append_move_run(middle, k as int, m, fuel, m3, g3);
            },
            Node::Left(k) => {
                lemma_append_move_run(middle, -(k as int), m, fuel, m3, g3);
            },
            Node::Change(d) => {
                lemma_append_change_run(middle, d, m, fuel, m3, g3);
            },
            Node::Loop(body) => {
                let improved = improve(Seq::empty(), body);
                lemma_run_push(middle, fuse(improved), m, fuel);
                lemma_loop_improve(body, m3, f3, g3);
                lemma_fuse_run(improved, m3, g3);
            },
            other => {
                lemma_run_push(middle, other, m, fuel);
            },
        }
    }
}

/// Where a loop runs to its end, the loop around the body optimised again
/// ends with the same machine, and with no less fuel.
proof fn lemma_loop_improve(body: Seq<Node>, m: Machine, f: nat, g: nat)
    requires
        m.wf(),
        g >= f,
        run_loop(body, m, f) is Done,
    ensures
        ends_with(
            run_loop(improve(Seq::empty(), body), m, g),
            run_loop(body, m, f)->Done_machine,
            run_loop(body, m, f)->Done_fuel,
        ),
    decreases f, body, 1nat,
{
    if m.cell() != 0 {
        let f_less = (f - 1) as nat;
        let g_less = (g - 1) as nat;
        lemma_loop_next(body, m, f);
        lemma_run_fuel(body, m, f_less);
        lemma_run_wf(body, m, f_less);
        lemma_loop_next(improve(Seq::empty(), body), m, g);
        let m1 = run(body, m, f_less)->Done_machine;
        let f1 = run(body, m, f_less)->Done_fuel;
        lemma_improve_run(Seq::empty(), body, m, g_less, m, g_less, f_less);
        let g1 = run(improve(Seq::empty(), body), m, g_less)->Done_fuel;
        lemma_loop_improve(body, m1, f1, g1);
    }
}

/// Optimising a peephole-optimised program again changes nothing of what it
/// does: where the program runs to its end, the program optimised again ends
/// with the same machine, and with no less fuel.
pub proof fn lemma_recompile_run(p: Seq<Node>, m: Machine, fuel: nat)
    requires
        m.wf(),
        run(p, m, fuel) is Done,
    ensures
        ends_with(
            run(improve(Seq::empty(), p), m, fuel),
            run(p, m, fuel)->Done_machine,
            run(p, m, fuel)->Done_fuel,
        ),
{
    lemma_improve_run(Seq::empty(), p, m, fuel, m, fuel, fuel);
}

/// A search to the right over cells none of which is 0 ends with
/// `PointerOverflow`: where the current cell and every cell a multiple of the
/// stride to its right are not 0, `FindZeroRight` fails so, whatever the
/// fuel.
pub proof fn lemma_find_zero_right_overflow(stride: usize, m: Machine, fuel: nat)
    requires
        m.wf(),
        stride > 0,
        m.tape.no_zero_right(stride as nat),
    ensures
        step(Node::FindZeroRight(stride), m, fuel) is Failed,
        step(Node::FindZeroRight(stride), m, fuel)->Failed_error == Error::PointerOverflow,
{
    m.tape.lemma_seek_right_overflow(stride as nat);
}

/// A search to the left over cells none of which is 0 ends with
/// `PointerUnderflow`: where the current cell and every cell a multiple of
/// the stride to its left are not 0, `FindZeroLeft` fails so, whatever the
/// fuel.
pub proof fn lemma_find_zero_left_underflow(stride: usize, m: Machine, fuel: nat)
    requires
        m.wf(),
        stride > 0,
        m.tape.no_zero_left(stride as nat),
    ensures
        step(Node::FindZeroLeft(stride), m, fuel) is Failed,
        step(Node::FindZeroLeft(stride), m, fuel)->Failed_error == Error::PointerUnderflow,
{
    m.tape.lemma_seek_left_underflow(stride as nat);
}

} // verus!
