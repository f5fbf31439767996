use bf::ast::parse_program;
use bf::bytecode::{advance, interpret, start, Position, Request};
use bf::common::Error;
use bf::common::Instruction;
use bf::common::Instruction::{Change, In, JumpNotZero, JumpZero, Left, Out, Right};
use bf::state::{Input, State};
use bf::traits::BytecodeCompilable;

const FACTOR_SRC: &[u8] = b"\
    >>>>>>>>>>,----------[--------------------------------------<<<<<<<<<<[->>>>>++++++++++<\
    <<<<]>>>>>[-<<<<<+>>>>>]>>>>>[-<<<<<<<<<<+>>>>>>>>>>],----------][-]++++++++++>[-]>[-]<<\
    <<<<<<<<<<[->>+>>>>>+<<<<<<<]>>>>>>>[-<<<<<<<+>>>>>>>]<<<<<[->>>>>>>>>>+[-<<<<<<<+>>+>>>\
    >>]<<<<<[->>>>>+<<<<<]>>>[-<<<<+>+>>>]<<<[->>>+<<<]<<[->-<]>>>+<<[[-]>>-<<]>>[->>>>[-]<+\
    <<<]<<<<<<]>>>>>>>>>>>[-]>[-]<<<[-<<<<<<<<<+>>>>>+>>>>]<<<<[->>>>+<<<<]<<<<<[->>>>>>>>>>\
    >>+[-<<<<<<<<<+>>+>>>>>>>]<<<<<<<[->>>>>>>+<<<<<<<]>>>[-<<<<+>+>>>]<<<[->>>+<<<]<<[->-<]\
    >>>+<<[[-]>>-<<]>>[->>>>>>[-]<+<<<<<]<<<<<<]>>>>>>>>[-]>>>[-<<<+<<<+>>>>>>]<<<<<<[->>>>>\
    >+<<<<<<]>>>>>>[++++++++++++++++++++++++++++++++++++++++++++++++.[-]]>[-<<<<+<<<+>>>>>>>\
    ]<<<<<<<[->>>>>>>+<<<<<<<]>>>[[-]>>>>++++++++++++++++++++++++++++++++++++++++++++++++.[-\
    ]<<<<]>>>>[-]<<++++++++++++++++++++++++++++++++++++++++++++++++.[-]<[-]<[-]+++++++++++++\
    +++++++++++++++++++++++++++++++++++++++++++++.[-]<<<<<<<<<++<[->>>>>>>>>+<<+<<<<<<<]>>>>\
    >>>[-<<<<<<<+>>>>>>>]>>-[[-]<<<<<<[-]>[-]<<<<[->>+>>>>>+<<<<<<<]>>>>>>>[-<<<<<<<+>>>>>>>\
    ]<<<<<[->>+[->+>>+<<<]>>>[-<<<+>>>]<<<<<<[->>>>>+>+<<<<<<]>>>>>>[-<<<<<<+>>>>>>]<<[->-<]\
    >>>+<<[[-]>>-<<]>>[-<<<<[-]<+>>>>>]<<<<<<]>>>>>>+<<<<[[-]>>>>-<<<<<<<+>>>]>>>>[->+++++++\
    +++++++++++++++++++++++++.[-]>[-]++++++++++>[-]>[-]<<<<<<<<<<<[->+>>>>>+<<<<<<]>>>>>>[-<\
    <<<<<+>>>>>>]<<<<<[->>>>>>>>>>+[-<<<<<<<+>>+>>>>>]<<<<<[->>>>>+<<<<<]>>>[-<<<<+>+>>>]<<<\
    [->>>+<<<]<<[->-<]>>>+<<[[-]>>-<<]>>[->>>>[-]<+<<<]<<<<<<]>>>>>>>>>>>[-]>[-]<<<[-<<<<<<<\
    <<+>>>>>+>>>>]<<<<[->>>>+<<<<]<<<<<[->>>>>>>>>>>>+[-<<<<<<<<<+>>+>>>>>>>]<<<<<<<[->>>>>>\
    >+<<<<<<<]>>>[-<<<<+>+>>>]<<<[->>>+<<<]<<[->-<]>>>+<<[[-]>>-<<]>>[->>>>>>[-]<+<<<<<]<<<<\
    <<]>>>>>>>>[-]>>>[-<<<+<<<+>>>>>>]<<<<<<[->>>>>>+<<<<<<]>>>>>>[+++++++++++++++++++++++++\
    +++++++++++++++++++++++.[-]]>[-<<<<+<<<+>>>>>>>]<<<<<<<[->>>>>>>+<<<<<<<]>>>[[-]>>>>++++\
    ++++++++++++++++++++++++++++++++++++++++++++.[-]<<<<]>>>>[-]<<++++++++++++++++++++++++++\
    ++++++++++++++++++++++.[-]<[-]<<<<<<<<<<<[-]>>>[-<<<+>>>]>>>>>]<<<<<[-]<<<[->>>>>>>>>+<<\
    +<<<<<<<]>>>>>>>[-<<<<<<<+>>>>>>>]>>-]>[-]++++++++++.[-]";

fn drive(program: &[Instruction], capacity: usize, input: &[u8], fuel: u64) -> (Result<u64, Error>, Vec<u8>, usize) {
    let mut state = State::with_capacity(capacity);
    let mut input = Input::new(input);
    let mut output = Vec::new();
    let mut at = start(fuel);
    loop {
        match advance(program, &mut state, at) {
            Err(e) => return (Err(e), output, state.pointer()),
            Ok((Request::Done, next)) => return (Ok(next.fuel), output, state.pointer()),
            Ok((Request::Read, next)) => {
                state.read(&mut input);
                at = next;
            }
            Ok((Request::Write(byte), next)) => {
                assert_eq!(byte, state.load());
                output.push(byte);
                at = next;
            }
        }
    }
}

fn at_once(program: &[Instruction], capacity: usize, input: &[u8], fuel: u64) -> (Result<u64, Error>, Vec<u8>, usize) {
    let mut state = State::with_capacity(capacity);
    let mut input = Input::new(input);
    let mut output = Vec::new();
    let r = interpret(program, &mut state, &mut input, &mut output, fuel);
    (r, output, state.pointer())
}

#[test]
fn a_run_starts_at_the_first_instruction() {
    assert_eq!(start(7), Position { pc: 0, fuel: 7 });
}

#[test]
fn a_run_stops_where_it_needs_a_byte() {
    let program = vec![Change(3), Out, Right(1), In, Out];
    let mut state = State::with_capacity(2);
    let r = advance(&program, &mut state, start(5));
    assert_eq!(r, Ok((Request::Write(3), Position { pc: 2, fuel: 5 })));
    assert_eq!(state.load(), 3);
    let r = advance(&program, &mut state, Position { pc: 2, fuel: 5 });
    assert_eq!(r, Ok((Request::Read, Position { pc: 4, fuel: 5 })));
    assert_eq!(state.pointer(), 1);
    state.store(9);
    let r = advance(&program, &mut state, Position { pc: 4, fuel: 5 });
    assert_eq!(r, Ok((Request::Write(9), Position { pc: 5, fuel: 5 })));
    let r = advance(&program, &mut state, Position { pc: 5, fuel: 5 });
    assert_eq!(r, Ok((Request::Done, Position { pc: 5, fuel: 5 })));
}

#[test]
fn a_run_in_steps_pays_for_its_loops() {
    let program = vec![Change(2), JumpZero(5), Out, Change(255), JumpNotZero(2)];
    let mut state = State::with_capacity(1);
    assert_eq!(
        advance(&program, &mut state, start(2)),
        Ok((Request::Write(2), Position { pc: 3, fuel: 1 }))
    );
    assert_eq!(
        advance(&program, &mut state, Position { pc: 3, fuel: 1 }),
        Ok((Request::Write(1), Position { pc: 3, fuel: 0 }))
    );
    assert_eq!(
        advance(&program, &mut state, Position { pc: 3, fuel: 0 }),
        Ok((Request::Done, Position { pc: 5, fuel: 0 }))
    );
    let mut state = State::with_capacity(1);
    assert_eq!(
        advance(&program, &mut state, start(1)),
        Ok((Request::Write(2), Position { pc: 3, fuel: 0 }))
    );
    assert_eq!(
        advance(&program, &mut state, Position { pc: 3, fuel: 0 }),
        Err(Error::StepLimit)
    );
}

#[test]
fn a_run_in_steps_fails_on_the_tape() {
    let mut state = State::with_capacity(2);
    assert_eq!(advance(&[Out, Left(1)], &mut state, Position { pc: 1, fuel: 0 }), Err(Error::PointerUnderflow));
    assert_eq!(advance(&[Right(2)], &mut state, start(0)), Err(Error::PointerOverflow));
}

#[test]
fn a_position_past_the_end_is_the_end() {
    let mut state = State::with_capacity(2);
    assert_eq!(
        advance(&[Out], &mut state, Position { pc: 9, fuel: 4 }),
        Ok((Request::Done, Position { pc: 9, fuel: 4 }))
    );
}

#[test]
fn a_run_in_steps_ends_as_a_run_at_once() {
    let sources: [&[u8]; 6] = [
        FACTOR_SRC,
        b",[.,]",
        b"+++[->+<]>[-.]<[>>]",
        b"+[>+]",
        b">>+[<]<<",
        b",.,.,.",
    ];
    let inputs: [&[u8]; 4] = [b"100\n", b"6\n", b"", b"xy"];
    for source in sources {
        let program = parse_program(source).unwrap().bytecode_compile().unwrap();
        for input in inputs {
            for fuel in [0, 3, 50, 20000] {
                assert_eq!(drive(&program, 24, input, fuel), at_once(&program, 24, input, fuel));
            }
        }
    }
    let program = vec![In, Out, JumpZero(0), Out, JumpNotZero(6), In, Out];
    for input in [&b""[..], &b"a"[..], &b"\x00b"[..]] {
        for fuel in [0, 1, 2, 9] {
            assert_eq!(drive(&program, 3, input, fuel), at_once(&program, 3, input, fuel));
        }
    }
}
