//! Conversions and the common interface of the program forms.

use vstd::prelude::*;
use crate::common::Error;
use crate::state::{machine_of, Input, Machine, Outcome, State, Tape, DEFAULT_CAPACITY};

pub use crate::bytecode::BytecodeCompilable;
pub use crate::peephole::PeepholeCompilable;
pub use crate::rle::RleCompilable;

verus! {

/// The number of cells of a tape made for `size`: the default where none is
/// given.
pub open spec fn capacity_of(size: Option<usize>) -> nat {
    match size {
        Some(n) => n as nat,
        None => DEFAULT_CAPACITY as nat,
    }
}

/// What a run from memory returns: the output of a run that came to its end,
/// or the error of one that did not.
pub open spec fn memory_result(outcome: Outcome) -> Result<Seq<u8>, Error> {
    match outcome {
        Outcome::Done { machine, .. } => Ok(machine.output),
        Outcome::Failed { error, .. } => Err(error),
    }
}

/// Program forms that can be interpreted.
pub trait Interpretable {
    /// The outcome of running the program from `m` with `fuel` loop iterations
    /// allowed.
    spec fn meaning(&self, m: Machine, fuel: nat) -> Outcome;

    /// Interprets the program against the given tape, reading `input` and
    /// appending to `output`, with `fuel` loop iterations allowed.
    fn interpret_state(&self, state: State, input: Input, output: &mut Vec<u8>, fuel: u64) -> (r:
        Result<(), Error>)
        requires
            state.wf(),
            input.wf(),
        ensures
            match self.meaning(machine_of(state, input, *old(output)), fuel as nat) {
                Outcome::Done { machine, .. } => r.is_ok() && final(output)@ == machine.output,
                Outcome::Failed { error, machine } => r == Err::<(), Error>(error)
                    && final(output)@ == machine.output,
            },
    ;

    /// Interprets the program on a fresh tape of `size` cells, or of the
    /// default capacity where `size` is `None`.
    fn interpret(&self, size: Option<usize>, input: Input, output: &mut Vec<u8>, fuel: u64) -> (r:
        Result<(), Error>)
        requires
            size != Some(0usize),
            input.wf(),
        ensures
            match self.meaning(
                Machine {
                    tape: Tape::blank(capacity_of(size)),
                    input: input.remaining(),
                    output: old(output)@,
                },
                fuel as nat,
            ) {
                Outcome::Done { machine, .. } => r.is_ok() && final(output)@ == machine.output,
                Outcome::Failed { error, machine } => r == Err::<(), Error>(error)
                    && final(output)@ == machine.output,
            },
    {
        let state = match size {
            Some(n) => State::with_capacity(n),
            None => State::new(),
        };
        self.interpret_state(state, input, output, fuel)
    }

    /// Interprets the program with `input` as its whole input and returns
    /// what it wrote.
    fn interpret_memory(&self, size: Option<usize>, input: &[u8], fuel: u64) -> (r: Result<
        Vec<u8>,
        Error,
    >)
        requires
            size != Some(0usize),
        ensures
            match memory_result(
                self.meaning(Machine::start(capacity_of(size), input@), fuel as nat),
            ) {
                Ok(written) => r.is_ok() && r.unwrap()@ == written,
                Err(error) => r == Err::<Vec<u8>, Error>(error),
            },
    {
        let mut output: Vec<u8> = Vec::new();
        match self.interpret(size, Input::new(input), &mut output, fuel) {
            Ok(()) => Ok(output),
            Err(e) => Err(e),
        }
    }
}

/// For converting smaller numeric types into `usize`.
pub trait IntoUsize: Sized {
    /// The value that `into_usize` returns.
    spec fn into_usize_spec(self) -> usize;

    /// The value as a `usize`.
    fn into_usize(self) -> (r: usize)
        ensures
            r == self.into_usize_spec(),
    ;
}

impl IntoUsize for usize {
    open spec fn into_usize_spec(self) -> usize {
        self
    }

    fn into_usize(self) -> (r: usize) {
        self
    }
}

impl IntoUsize for u64 {
    open spec fn into_usize_spec(self) -> usize {
        self as usize
    }

    fn into_usize(self) -> (r: usize) {
        self as usize
    }
}

impl IntoUsize for u32 {
    open spec fn into_usize_spec(self) -> usize {
        self as usize
    }

    fn into_usize(self) -> (r: usize)
        ensures
            r as int == self as int,
    {
        let r = self as usize;
        assert(self.into_usize_spec() == self as usize);
        assert(self as usize == r);
        r
    }
}

impl IntoUsize for u16 {
    open spec fn into_usize_spec(self) -> usize {
        self as usize
    }

    fn into_usize(self) -> (r: usize)
        ensures
            r as int == self as int,
    {
        self as usize
    }
}

impl IntoUsize for u8 {
    open spec fn into_usize_spec(self) -> usize {
        self as usize
    }

    fn into_usize(self) -> (r: usize)
        ensures
            r as int == self as int,
    {
        self as usize
    }
}

} // verus!
