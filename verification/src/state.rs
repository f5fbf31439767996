//! The tape: a fixed array of byte cells with a movable pointer, and the
//! mathematical model of the whole machine that the tiers' meanings are
//! stated over.

use vstd::prelude::*;
use crate::common::Error;

verus! {

/// The capacity of a tape made by [`State::new`].
pub const DEFAULT_CAPACITY: usize = 30000;

/// The sum of a cell and a delta, modulo 256.
pub open spec fn wrap_add(a: u8, b: u8) -> u8 {
    ((a + b) % 256) as u8
}

/// The difference of a cell and a delta, modulo 256.
pub open spec fn wrap_sub(a: u8, b: u8) -> u8 {
    ((a - b) % 256) as u8
}

/// The model of a tape: its cells and the position of the pointer.
pub struct Tape {
    pub cells: Seq<u8>,
    pub pointer: int,
}

impl Tape {
    /// The pointer stands on a cell.
    pub open spec fn wf(self) -> bool {
        0 <= self.pointer < self.cells.len()
    }

    /// The current cell.
    pub open spec fn cell(self) -> u8 {
        self.cells[self.pointer]
    }

    /// The tape with the current cell replaced.
    pub open spec fn store(self, v: u8) -> Tape {
        Tape { cells: self.cells.update(self.pointer, v), pointer: self.pointer }
    }

    /// The tape with the pointer moved by `d`.
    pub open spec fn shift(self, d: int) -> Tape {
        Tape { cells: self.cells, pointer: self.pointer + d }
    }

    /// The tape with `v` added to the cell `d` away from the pointer.
    pub open spec fn add_at(self, d: int, v: u8) -> Tape {
        Tape {
            cells: self.cells.update(self.pointer + d, wrap_add(self.cells[self.pointer + d], v)),
            pointer: self.pointer,
        }
    }

    /// The tape after moving right by `stride` until the current cell is 0,
    /// or the error that stopped the search and the tape as it stood then.
    /// Each stride is checked against the end of the tape. With a stride of 0
    /// on a cell that is not 0 the search would never end, and counts as out
    /// of fuel.
    pub open spec fn seek_right(self, stride: nat) -> Result<Tape, (Error, Tape)>
        decreases self.cells.len() - self.pointer,
    {
        if self.cell() == 0 {
            Ok(self)
        } else if stride == 0 {
            Err((Error::StepLimit, self))
        } else if self.pointer + stride < self.cells.len() {
            self.shift(stride as int).seek_right(stride)
        } else {
            Err((Error::PointerOverflow, self))
        }
    }

    /// The tape after moving left by `stride` until the current cell is 0, or
    /// the error that stopped the search and the tape as it stood then. Each
    /// stride is checked against the start of the tape. With a stride of 0 on
    /// a cell that is not 0 the search would never end, and counts as out of
    /// fuel.
    pub open spec fn seek_left(self, stride: nat) -> Result<Tape, (Error, Tape)>
        decreases self.pointer,
    {
        if self.cell() == 0 {
            Ok(self)
        } else if stride == 0 {
            Err((Error::StepLimit, self))
        } else if stride <= self.pointer {
            self.shift(-(stride as int)).seek_left(stride)
        } else {
            Err((Error::PointerUnderflow, self))
        }
    }

    /// A search to the right that finds a 0 leaves the pointer on a cell and
    /// the cells as they were.
    pub proof fn lemma_seek_right_wf(self, stride: nat)
        requires
            self.wf(),
        ensures
            self.seek_right(stride) matches Ok(tape) ==> tape.wf() && tape.cells == self.cells
                && tape.cell() == 0,
        decreases self.cells.len() - self.pointer,
    {
        if self.cell() != 0 && stride != 0 && self.pointer + stride < self.cells.len() {
            self.shift(stride as int).lemma_seek_right_wf(stride);
        }
    }

    /// A search to the left that finds a 0 leaves the pointer on a cell and
    /// the cells as they were.
    pub proof fn lemma_seek_left_wf(self, stride: nat)
        requires
            self.wf(),
        ensures
            self.seek_left(stride) matches Ok(tape) ==> tape.wf() && tape.cells == self.cells
                && tape.cell() == 0,
        decreases self.pointer,
    {
        if self.cell() != 0 && stride != 0 && stride <= self.pointer {
            self.shift(-(stride as int)).lemma_seek_left_wf(stride);
        }
    }

    /// The current cell, and every cell a multiple of `stride` to its right,
    /// is not 0.
    pub open spec fn no_zero_right(self, stride: nat) -> bool {
        forall|i: int|
            self.pointer <= i < self.cells.len() && (i - self.pointer) % (stride as int) == 0
                ==> #[trigger] self.cells[i] != 0
    }

    /// A search to the right by a stride that is not 0, over cells none of
    /// which is 0, runs into the end of the tape.
    pub proof fn lemma_seek_right_overflow(self, stride: nat)
        requires
            self.wf(),
            stride > 0,
            self.no_zero_right(stride),
        ensures
            self.seek_right(stride) is Err,
            self.seek_right(stride)->Err_0.0 == Error::PointerOverflow,
        decreases self.cells.len() - self.pointer,
    {
        assert(0int % (stride as int) == 0) by (nonlinear_arith)
            requires
                stride > 0,
        ;
        assert(self.cells[self.pointer] != 0);
        if self.pointer + stride < self.cells.len() {
            let next = self.shift(stride as int);
            assert forall|i: int|
                next.pointer <= i < next.cells.len() && (i - next.pointer) % (stride as int)
                    == 0 implies #[trigger] next.cells[i] != 0 by {
                vstd::arithmetic::div_mod::lemma_mod_multiples_vanish(
                    1,
                    i - next.pointer,
                    stride as int,
                );
                assert(1 * (stride as int) + (i - next.pointer) == i - self.pointer);
            }
            next.lemma_seek_right_overflow(stride);
        }
    }

    /// The current cell, and every cell a multiple of `stride` to its left,
    /// is not 0.
    pub open spec fn no_zero_left(self, stride: nat) -> bool {
        forall|i: int|
            0 <= i <= self.pointer && (self.pointer - i) % (stride as int) == 0
                ==> #[trigger] self.cells[i] != 0
    }

    /// A search to the left by a stride that is not 0, over cells none of
    /// which is 0, runs into the start of the tape.
    pub proof fn lemma_seek_left_underflow(self, stride: nat)
        requires
            self.wf(),
            stride > 0,
            self.no_zero_left(stride),
        ensures
            self.seek_left(stride) is Err,
            self.seek_left(stride)->Err_0.0 == Error::PointerUnderflow,
        decreases self.pointer,
    {
        assert(0int % (stride as int) == 0) by (nonlinear_arith)
            requires
                stride > 0,
        ;
        assert(self.cells[self.pointer] != 0);
        if stride <= self.pointer {
            let next = self.shift(-(stride as int));
            assert forall|i: int|
                0 <= i <= next.pointer && (next.pointer - i) % (stride as int)
                    == 0 implies #[trigger] next.cells[i] != 0 by {
                vstd::arithmetic::div_mod::lemma_mod_multiples_vanish(
                    1,
                    next.pointer - i,
                    stride as int,
                );
                assert(1 * (stride as int) + (next.pointer - i) == self.pointer - i);
            }
            next.lemma_seek_left_underflow(stride);
        }
    }

    /// A tape of `capacity` zeroed cells with the pointer on the first.
    pub open spec fn blank(capacity: nat) -> Tape {
        Tape { cells: Seq::new(capacity, |i: int| 0u8), pointer: 0 }
    }
}

/// The model of a running machine: the tape, the input not yet read and the
/// output written so far.
pub struct Machine {
    pub tape: Tape,
    pub input: Seq<u8>,
    pub output: Seq<u8>,
}

/// How a run ends.
pub enum Outcome {
    /// The program ran to its end, leaving `machine` and `fuel` loop iterations
    /// unused.
    Done { machine: Machine, fuel: nat },
    /// The run stopped with `error`, leaving `machine`.
    Failed { error: Error, machine: Machine },
}

/// The run did not stop for want of fuel.
pub open spec fn settled(outcome: Outcome) -> bool {
    outcome is Failed ==> outcome->Failed_error != Error::StepLimit
}

/// The outcome with `extra` more fuel left where the run came to its end.
pub open spec fn raised(outcome: Outcome, extra: nat) -> Outcome {
    match outcome {
        Outcome::Done { machine, fuel } => Outcome::Done { machine, fuel: fuel + extra },
        failed => failed,
    }
}

/// Two machines have read the same input and written the same output.
pub open spec fn same_io(a: Machine, b: Machine) -> bool {
    a.input == b.input && a.output == b.output
}

/// The outcome of a step that costs no fuel and either gives a machine or
/// fails where it stands.
pub open spec fn lift(r: Result<Machine, Error>, m: Machine, fuel: nat) -> Outcome {
    match r {
        Ok(machine) => Outcome::Done { machine, fuel },
        Err(error) => Outcome::Failed { error, machine: m },
    }
}

/// The outcome of a search on the tape of `m`, which costs no fuel.
pub open spec fn sought(r: Result<Tape, (Error, Tape)>, m: Machine, fuel: nat) -> Outcome {
    match r {
        Ok(tape) => Outcome::Done { machine: m.with_tape(tape), fuel },
        Err((error, tape)) => Outcome::Failed { error, machine: m.with_tape(tape) },
    }
}

impl Machine {
    /// The pointer stands on a cell.
    pub open spec fn wf(self) -> bool {
        self.tape.wf()
    }

    /// A fresh machine of `capacity` cells that is to read `input`.
    pub open spec fn start(capacity: nat, input: Seq<u8>) -> Machine {
        Machine { tape: Tape::blank(capacity), input, output: Seq::empty() }
    }

    /// The current cell.
    pub open spec fn cell(self) -> u8 {
        self.tape.cell()
    }

    /// The machine with its tape replaced.
    pub open spec fn with_tape(self, tape: Tape) -> Machine {
        Machine { tape, input: self.input, output: self.output }
    }

    /// Move the pointer left by `n`, or fail below the first cell.
    pub open spec fn left(self, n: nat) -> Result<Machine, Error> {
        if n <= self.tape.pointer {
            Ok(self.with_tape(self.tape.shift(-(n as int))))
        } else {
            Err(Error::PointerUnderflow)
        }
    }

    /// Move the pointer right by `n`, or fail past the last cell.
    pub open spec fn right(self, n: nat) -> Result<Machine, Error> {
        if self.tape.pointer + n < self.tape.cells.len() {
            Ok(self.with_tape(self.tape.shift(n as int)))
        } else {
            Err(Error::PointerOverflow)
        }
    }

    /// Add `d` to the current cell, modulo 256.
    pub open spec fn up(self, d: u8) -> Machine {
        self.with_tape(self.tape.store(wrap_add(self.cell(), d)))
    }

    /// Subtract `d` from the current cell, modulo 256.
    pub open spec fn down(self, d: u8) -> Machine {
        self.with_tape(self.tape.store(wrap_sub(self.cell(), d)))
    }

    /// Set the current cell to 0.
    pub open spec fn zero(self) -> Machine {
        self.with_tape(self.tape.store(0))
    }

    /// Read the next input byte into the current cell; at the end of the
    /// input the cell becomes 0.
    pub open spec fn read(self) -> Machine {
        if self.input.len() > 0 {
            Machine {
                tape: self.tape.store(self.input[0]),
                input: self.input.skip(1),
                output: self.output,
            }
        } else {
            self.zero()
        }
    }

    /// Append the current cell to the output.
    pub open spec fn write(self) -> Machine {
        Machine { tape: self.tape, input: self.input, output: self.output.push(self.cell()) }
    }

    /// Add the current cell to the cell `k` to the right and zero the current
    /// cell. Nothing happens, and nothing can fail, when the current cell is 0.
    pub open spec fn offset_add_right(self, k: nat) -> Result<Machine, Error> {
        if self.cell() == 0 {
            Ok(self)
        } else if self.tape.pointer + k < self.tape.cells.len() {
            Ok(self.with_tape(self.tape.add_at(k as int, self.cell()).store(0)))
        } else {
            Err(Error::PointerOverflow)
        }
    }

    /// Add the current cell to the cell `k` to the left and zero the current
    /// cell. Nothing happens, and nothing can fail, when the current cell is 0.
    pub open spec fn offset_add_left(self, k: nat) -> Result<Machine, Error> {
        if self.cell() == 0 {
            Ok(self)
        } else if k <= self.tape.pointer {
            Ok(self.with_tape(self.tape.add_at(-(k as int), self.cell()).store(0)))
        } else {
            Err(Error::PointerUnderflow)
        }
    }
}

/// Input held in memory, with the position of the next byte to read.
pub struct Input<'a> {
    bytes: &'a [u8],
    pos: usize,
}

impl<'a> Input<'a> {
    /// The position is within the bytes.
    pub closed spec fn wf(&self) -> bool {
        self.pos <= self.bytes@.len()
    }

    /// The bytes not yet read.
    pub closed spec fn remaining(&self) -> Seq<u8> {
        self.bytes@.skip(self.pos as int)
    }

    /// Input that will deliver `bytes` from the first on.
    pub fn new(bytes: &'a [u8]) -> (r: Input<'a>)
        ensures
            r.wf(),
            r.remaining() == bytes@,
    {
        Input { bytes, pos: 0 }
    }

    /// The next byte, or `None` at the end.
    pub fn next(&mut self) -> (r: Option<u8>)
        requires
            old(self).wf(),
        ensures
            final(self).wf(),
            old(self).remaining().len() == 0 ==> r.is_none() && final(self).remaining()
                == old(self).remaining(),
            old(self).remaining().len() > 0 ==> r == Some(old(self).remaining()[0])
                && final(self).remaining() == old(self).remaining().skip(1),
    {
        if self.pos < self.bytes.len() {
            let b = self.bytes[self.pos];
            self.pos = self.pos + 1;
            proof {
                assert(final(self).remaining() =~= old(self).remaining().skip(1));
            }
            Some(b)
        } else {
            None
        }
    }
}

/// The tape of a running program.
pub struct State {
    memory: Vec<u8>,
    pointer: usize,
}

impl View for State {
    type V = Tape;

    closed spec fn view(&self) -> Tape {
        Tape { cells: self.memory@, pointer: self.pointer as int }
    }
}

/// The machine made of a tape, input and output.
pub open spec fn machine_of(state: State, input: Input, output: Vec<u8>) -> Machine {
    Machine { tape: state@, input: input.remaining(), output: output@ }
}

/// The outcome that a run reports by returning `r` and leaving `machine`: on
/// success `r` holds the loop iterations left unused.
pub open spec fn outcome_of(r: Result<u64, Error>, machine: Machine) -> Outcome {
    match r {
        Ok(left) => Outcome::Done { machine, fuel: left as nat },
        Err(error) => Outcome::Failed { error, machine },
    }
}

impl State {
    /// The pointer stands on a cell.
    pub open spec fn wf(&self) -> bool {
        self@.wf()
    }

    /// A tape of the default capacity.
    pub fn new() -> (r: State)
        ensures
            r.wf(),
            r@ == Tape::blank(DEFAULT_CAPACITY as nat),
    {
        State::with_capacity(DEFAULT_CAPACITY)
    }

    /// A tape of `memory_size` zeroed cells with the pointer on the first.
    pub fn with_capacity(memory_size: usize) -> (r: State)
        requires
            memory_size > 0,
        ensures
            r.wf(),
            r@ == Tape::blank(memory_size as nat),
    {
        let mut memory: Vec<u8> = Vec::new();
        let mut i: usize = 0;
        while i < memory_size
            invariant
                i <= memory_size,
                memory@.len() == i,
                forall|j: int| 0 <= j < i ==> memory@[j] == 0u8,
            decreases memory_size - i,
        {
            memory.push(0u8);
            i = i + 1;
        }
        proof {
            assert(memory@ =~= Tape::blank(memory_size as nat).cells);
        }
        State { memory, pointer: 0 }
    }

    /// The number of cells.
    pub fn capacity(&self) -> (r: usize)
        ensures
            r == self@.cells.len(),
    {
        self.memory.len()
    }

    /// The position of the pointer.
    pub fn pointer(&self) -> (r: usize)
        ensures
            r == self@.pointer,
    {
        self.pointer
    }

    /// Move the pointer left by `count`.
    pub fn left(&mut self, count: usize) -> (r: Result<(), Error>)
        requires
            old(self).wf(),
        ensures
            final(self).wf(),
            count <= old(self)@.pointer ==> r.is_ok() && final(self)@ == old(self)@.shift(
                -(count as int),
            ),
            count > old(self)@.pointer ==> r == Err::<(), Error>(Error::PointerUnderflow)
                && final(self)@ == old(self)@,
    {
        if count <= self.pointer {
            self.pointer = self.pointer - count;
            Ok(())
        } else {
            Err(Error::PointerUnderflow)
        }
    }

    /// Move the pointer right by `count`.
    pub fn right(&mut self, count: usize) -> (r: Result<(), Error>)
        requires
            old(self).wf(),
        ensures
            final(self).wf(),
            old(self)@.pointer + count < old(self)@.cells.len() ==> r.is_ok() && final(self)@
                == old(self)@.shift(count as int),
            old(self)@.pointer + count >= old(self)@.cells.len() ==> r == Err::<(), Error>(
                Error::PointerOverflow,
            ) && final(self)@ == old(self)@,
    {
        if count < self.memory.len() - self.pointer {
            self.pointer = self.pointer + count;
            Ok(())
        } else {
            Err(Error::PointerOverflow)
        }
    }

    /// Add `count` to the current cell, modulo 256.
    pub fn up(&mut self, count: u8)
        requires
            old(self).wf(),
        ensures
            final(self).wf(),
            final(self)@ == old(self)@.store(wrap_add(old(self)@.cell(), count)),
    {
        let old_val = self.memory[self.pointer];
        let sum: u16 = (old_val as u16 + count as u16) % 256;
        self.memory[self.pointer] = sum as u8;
    }

    /// Subtract `count` from the current cell, modulo 256.
    pub fn down(&mut self, count: u8)
        requires
            old(self).wf(),
        ensures
            final(self).wf(),
            final(self)@ == old(self)@.store(wrap_sub(old(self)@.cell(), count)),
    {
        let old_val = self.memory[self.pointer];
        let diff: u16 = (old_val as u16 + 256 - count as u16) % 256;
        self.memory[self.pointer] = diff as u8;
    }

    /// The current cell.
    pub fn load(&self) -> (r: u8)
        requires
            self.wf(),
        ensures
            r == self@.cell(),
    {
        self.memory[self.pointer]
    }

    /// Replace the current cell.
    pub fn store(&mut self, value: u8)
        requires
            old(self).wf(),
        ensures
            final(self).wf(),
            final(self)@ == old(self)@.store(value),
    {
        self.memory[self.pointer] = value;
    }

    /// Add `value` to the cell `offset` to the right of the pointer.
    pub fn up_pos_offset(&mut self, offset: usize, value: u8) -> (r: Result<(), Error>)
        requires
            old(self).wf(),
        ensures
            final(self).wf(),
            old(self)@.pointer + offset < old(self)@.cells.len() ==> r.is_ok() && final(self)@
                == old(self)@.add_at(offset as int, value),
            old(self)@.pointer + offset >= old(self)@.cells.len() ==> r == Err::<(), Error>(
                Error::PointerOverflow,
            ) && final(self)@ == old(self)@,
    {
        if offset < self.memory.len() - self.pointer {
            let at = self.pointer + offset;
            let old_val = self.memory[at];
            let sum: u16 = (old_val as u16 + value as u16) % 256;
            self.memory[at] = sum as u8;
            Ok(())
        } else {
            Err(Error::PointerOverflow)
        }
    }

    /// Add `value` to the cell `offset` to the left of the pointer.
    pub fn up_neg_offset(&mut self, offset: usize, value: u8) -> (r: Result<(), Error>)
        requires
            old(self).wf(),
        ensures
            final(self).wf(),
            offset <= old(self)@.pointer ==> r.is_ok() && final(self)@ == old(self)@.add_at(
                -(offset as int),
                value,
            ),
            offset > old(self)@.pointer ==> r == Err::<(), Error>(Error::PointerUnderflow)
                && final(self)@ == old(self)@,
    {
        if offset <= self.pointer {
            let at = self.pointer - offset;
            let old_val = self.memory[at];
            let sum: u16 = (old_val as u16 + value as u16) % 256;
            self.memory[at] = sum as u8;
            Ok(())
        } else {
            Err(Error::PointerUnderflow)
        }
    }

    /// Move the pointer right by `stride` until the current cell is 0.
    pub fn find_zero_right(&mut self, stride: usize) -> (r: Result<(), Error>)
        requires
            old(self).wf(),
        ensures
            final(self).wf(),
            match old(self)@.seek_right(stride as nat) {
                Ok(tape) => r.is_ok() && final(self)@ == tape,
                Err((error, tape)) => r == Err::<(), Error>(error) && final(self)@ == tape,
            },
    {
        while self.memory[self.pointer] != 0
            invariant
                self.wf(),
                old(self)@.seek_right(stride as nat) == self@.seek_right(stride as nat),
            decreases self.memory@.len() - self.pointer,
        {
            if stride == 0 {
                return Err(Error::StepLimit);
            }
            if stride < self.memory.len() - self.pointer {
                self.pointer = self.pointer + stride;
            } else {
                return Err(Error::PointerOverflow);
            }
        }
        Ok(())
    }

    /// Move the pointer left by `stride` until the current cell is 0.
    pub fn find_zero_left(&mut self, stride: usize) -> (r: Result<(), Error>)
        requires
            old(self).wf(),
        ensures
            final(self).wf(),
            match old(self)@.seek_left(stride as nat) {
                Ok(tape) => r.is_ok() && final(self)@ == tape,
                Err((error, tape)) => r == Err::<(), Error>(error) && final(self)@ == tape,
            },
    {
        while self.memory[self.pointer] != 0
            invariant
                self.wf(),
                old(self)@.seek_left(stride as nat) == self@.seek_left(stride as nat),
            decreases self.pointer,
        {
            if stride == 0 {
                return Err(Error::StepLimit);
            }
            if stride <= self.pointer {
                self.pointer = self.pointer - stride;
            } else {
                return Err(Error::PointerUnderflow);
            }
        }
        Ok(())
    }

    /// Read a byte from `input` into the current cell; at the end of the input
    /// the cell becomes 0.
    pub fn read(&mut self, input: &mut Input)
        requires
            old(self).wf(),
            old(input).wf(),
        ensures
            final(self).wf(),
            final(input).wf(),
            old(input).remaining().len() > 0 ==> final(self)@ == old(self)@.store(
                old(input).remaining()[0],
            ) && final(input).remaining() == old(input).remaining().skip(1),
            old(input).remaining().len() == 0 ==> final(self)@ == old(self)@.store(0)
                && final(input).remaining() == old(input).remaining(),
    {
        let byte = match input.next() {
            Some(b) => b,
            None => 0u8,
        };
        self.memory[self.pointer] = byte;
    }

    /// Append the current cell to `output`.
    pub fn write(&self, output: &mut Vec<u8>)
        requires
            self.wf(),
        ensures
            final(output)@ == old(output)@.push(self@.cell()),
    {
        output.push(self.memory[self.pointer]);
    }
}

} // verus!
