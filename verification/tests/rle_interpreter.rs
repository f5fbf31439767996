use bf::common::Command::{Down, In, Left, Out, Right, Up};
use bf::common::Error;
use bf::rle::{interpret, Statement};
use bf::state::{Input, State};
use bf::traits::Interpretable;

const HELLO_WORLD_SRC: &[u8] = b"\
    ++++++++++[->+++++++<]>++.<++++++++++[->++<]>+++++++++.+++++++..+++.<++++++++++[->------\
    <]>-------.------------.<++++++++++[->+++++<]>+++++.<++++++++++[->++<]>++++.+++.------.-\
    -------.<++++++++++[->------<]>-------.";

const FACTOR_SRC: &[u8] = b"\
    >>>>>>>>>>,----------[--------------------------------------<<<<<<<<<<[->>>>>++++++++++<\
    <<<<]>>>>>[-<<<<<+>>>>>]>>>>>[-<<<<<<<<<<+>>>>>>>>>>],----------][-]++++++++++>[-]>[-]<<\
    <<<<<<<<<<[->>+>>>>>+<<<<<<<]>>>>>>>[-<<<<<<<+>>>>>>>]<<<<<[->>>>>>>>>>+[-<<<<<<<+>>+>>>\
    >>]<<<<<[->>>>>+<<<<<]>>>[-<<<<+>+>>>]<<<[->>>+<<<]<<[->-<]>>>+<<[[-]>>-<<]>>[->>>>[-]<+\
    <<<]<<<<<<]>>>>>>>>>>>[-]>[-]<<<[-<<<<<<<<<+>>>>>+>>>>]<<<<[->>>>+<<<<]<<<<<[->>>>>>>>>>\
    >>+[-<<<<<<<<<+>>+>>>>>>>]<<<<<<<[->>>>>>>+<<<<<<<]>>>[-<<<<+>+>>>]<<<[->>>+<<<]<<[->-<]\
    >>>+<<[[-]>>-<<]>>[->>>>>>[-]<+<<<<<]<<<<<<]>>>>>>>>[-]>>>[-<<<+<<<+>>>>>>]<<<<<<[->>>>>\
    >+<<<<<<]>>>>>>[++++++++++++++++++++++++++++++++++++++++++++++++.[-]]>[-<<<<+<<<+>>>>>>>\
    ]<<<<<<<[->>>>>>>+<<<<<<<]>>>[[-]>>>>++++++++++++++++++++++++++++++++++++++++++++++++.[-\
    ]<<<<]>>>>[-]<<++++++++++++++++++++++++++++++++++++++++++++++++.[-]<[-]<[-]+++++++++++++\
    +++++++++++++++++++++++++++++++++++++++++++++.[-]<<<<<<<<<++<[->>>>>>>>>+<<+<<<<<<<]>>>>\
    >>>[-<<<<<<<+>>>>>>>]>>-[[-]<<<<<<[-]>[-]<<<<[->>+>>>>>+<<<<<<<]>>>>>>>[-<<<<<<<+>>>>>>>\
    ]<<<<<[->>+[->+>>+<<<]>>>[-<<<+>>>]<<<<<<[->>>>>+>+<<<<<<]>>>>>>[-<<<<<<+>>>>>>]<<[->-<]\
    >>>+<<[[-]>>-<<]>>[-<<<<[-]<+>>>>>]<<<<<<]>>>>>>+<<<<[[-]>>>>-<<<<<<<+>>>]>>>>[->+++++++\
    +++++++++++++++++++++++++.[-]>[-]++++++++++>[-]>[-]<<<<<<<<<<<[->+>>>>>+<<<<<<]>>>>>>[-<\
    <<<<<+>>>>>>]<<<<<[->>>>>>>>>>+[-<<<<<<<+>>+>>>>>]<<<<<[->>>>>+<<<<<]>>>[-<<<<+>+>>>]<<<\
    [->>>+<<<]<<[->-<]>>>+<<[[-]>>-<<]>>[->>>>[-]<+<<<]<<<<<<]>>>>>>>>>>>[-]>[-]<<<[-<<<<<<<\
    <<+>>>>>+>>>>]<<<<[->>>>+<<<<]<<<<<[->>>>>>>>>>>>+[-<<<<<<<<<+>>+>>>>>>>]<<<<<<<[->>>>>>\
    >+<<<<<<<]>>>[-<<<<+>+>>>]<<<[->>>+<<<]<<[->-<]>>>+<<[[-]>>-<<]>>[->>>>>>[-]<+<<<<<]<<<<\
    <<]>>>>>>>>[-]>>>[-<<<+<<<+>>>>>>]<<<<<<[->>>>>>+<<<<<<]>>>>>>[+++++++++++++++++++++++++\
    +++++++++++++++++++++++.[-]]>[-<<<<+<<<+>>>>>>>]<<<<<<<[->>>>>>>+<<<<<<<]>>>[[-]>>>>++++\
    ++++++++++++++++++++++++++++++++++++++++++++.[-]<<<<]>>>>[-]<<++++++++++++++++++++++++++\
    ++++++++++++++++++++++.[-]<[-]<<<<<<<<<<<[-]>>>[-<<<+>>>]>>>>>]<<<<<[-]<<<[->>>>>>>>>+<<\
    +<<<<<<<]>>>>>>>[-<<<<<<<+>>>>>>>]>>-]>[-]++++++++++.[-]";

#[test]
fn hello_world() {
    assert_parse_interpret(HELLO_WORLD_SRC, "", "Hello, World!");
}

#[test]
fn factoring() {
    assert_parse_interpret(FACTOR_SRC, "2\n", "2: 2\n");
    assert_parse_interpret(FACTOR_SRC, "3\n", "3: 3\n");
    assert_parse_interpret(FACTOR_SRC, "6\n", "6: 2 3\n");
    assert_parse_interpret(FACTOR_SRC, "100\n", "100: 2 2 5 5\n");
}

#[test]
fn counts_are_applied_in_bulk() {
    let program = vec![
        Statement::Cmd(Right, 7),
        Statement::Cmd(Up, 300),
        Statement::Cmd(Out, 2),
        Statement::Cmd(Down, 45),
        Statement::Cmd(Out, 1),
        Statement::Cmd(Left, 7),
        Statement::Cmd(Out, 1),
    ];
    let mut state = State::with_capacity(8);
    let mut input = Input::new(b"");
    let mut output = Vec::new();
    assert_eq!(interpret(&program, &mut state, &mut input, &mut output, 0), Ok(0));
    assert_eq!(output, vec![44, 44, 255, 0]);
    assert_eq!(state.pointer(), 0);
}

#[test]
fn reads_are_repeated() {
    let program = vec![Statement::Cmd(In, 3), Statement::Cmd(Out, 1), Statement::Cmd(In, 2), Statement::Cmd(Out, 1)];
    assert_eq!(program.interpret_memory(None, b"abcd", 0), Ok(vec![b'c', 0]));
}

#[test]
fn a_move_past_the_end_fails_without_moving() {
    let program = vec![Statement::Cmd(Right, 3), Statement::Cmd(Right, 5)];
    let mut state = State::with_capacity(8);
    let mut input = Input::new(b"");
    let mut output = Vec::new();
    assert_eq!(
        interpret(&program, &mut state, &mut input, &mut output, 9),
        Err(Error::PointerOverflow)
    );
    assert_eq!(state.pointer(), 3);
}

#[test]
fn a_move_below_the_start_fails() {
    let program = vec![Statement::Cmd(Right, 3), Statement::Cmd(Left, 4)];
    assert_eq!(program.interpret_memory(Some(8), b"", 9), Err(Error::PointerUnderflow));
}

#[test]
fn a_loop_pays_for_each_iteration() {
    let program = vec![
        Statement::Cmd(Up, 5),
        Statement::Loop(vec![Statement::Cmd(Down, 1)]),
    ];
    let mut state = State::new();
    let mut input = Input::new(b"");
    let mut output = Vec::new();
    assert_eq!(interpret(&program, &mut state, &mut input, &mut output, 12), Ok(7));
    assert_eq!(program.interpret_memory(None, b"", 5), Ok(vec![]));
    assert_eq!(program.interpret_memory(None, b"", 4), Err(Error::StepLimit));
}

fn assert_parse_interpret(program: &[u8], input: &str, output: &str) {
    let program = bf::ast::parse_program(program).unwrap();
    let program = bf::rle::compile(&program);
    assert_interpret(&*program, input.as_bytes(), output.as_bytes());
}

fn assert_interpret(program: &[Statement], input: &[u8], output: &[u8]) {
    let actual = program.interpret_memory(None, input, u64::MAX).unwrap();
    assert_eq!(actual, output);
}
