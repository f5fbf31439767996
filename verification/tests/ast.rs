use bf::ast::{interpret, parse_program, to_source, Statement};
use bf::common::Command::{Begin, Down, End, In, Left, Out, Right, Up};
use bf::common::Error;
use bf::state::{Input, State};
use bf::traits::Interpretable;

const HELLO_WORLD_SRC: &[u8] = b"\
    ++++++++++[->+++++++<]>++.<++++++++++[->++<]>+++++++++.+++++++..+++.<++++++++++[->------\
    <]>-------.------------.<++++++++++[->+++++<]>+++++.<++++++++++[->++<]>++++.+++.------.-\
    -------.<++++++++++[->------<]>-------.";

const FACTOR_SRC: &[u8] = b"\
    >>>>>>>>>>,----------[--------------------------------------<<<<<<<<<<[->>>>>++++++++++<\
    <<<<]>>>>>[-<<<<<+>>>>>]>>>>>[-<<<<<<<<<<+>>>>>>>>>>],----------][-]++++++++++>[-]>[-]<<\
    <<<<<<<<<<[->>+>>>>>+<<<<<<<]>>>>>>>[-<<<<<<<+>>>>>>>]<<<<<[->>>>>>>>>>+[-<<<<<<<+>>+>>>\
    >>]<<<<<[->>>>>+<<<<<]>>>[-<<<<+>+>>>]<<<[->>>+<<<]<<[->-<]>>>+<<[[-]>>-<<]>>[->>>>[-]<+\
    <<<]<<<<<<]>>>>>>>>>>>[-]>[-]<<<[-<<<<<<<<<+>>>>>+>>>>]<<<<[->>>>+<<<<]<<<<<[->>>>>>>>>>\
    >>+[-<<<<<<<<<+>>+>>>>>>>]<<<<<<<[->>>>>>>+<<<<<<<]>>>[-<<<<+>+>>>]<<<[->>>+<<<]<<[->-<]\
    >>>+<<[[-]>>-<<]>>[->>>>>>[-]<+<<<<<]<<<<<<]>>>>>>>>[-]>>>[-<<<+<<<+>>>>>>]<<<<<<[->>>>>\
    >+<<<<<<]>>>>>>[++++++++++++++++++++++++++++++++++++++++++++++++.[-]]>[-<<<<+<<<+>>>>>>>\
    ]<<<<<<<[->>>>>>>+<<<<<<<]>>>[[-]>>>>++++++++++++++++++++++++++++++++++++++++++++++++.[-\
    ]<<<<]>>>>[-]<<++++++++++++++++++++++++++++++++++++++++++++++++.[-]<[-]<[-]+++++++++++++\
    +++++++++++++++++++++++++++++++++++++++++++++.[-]<<<<<<<<<++<[->>>>>>>>>+<<+<<<<<<<]>>>>\
    >>>[-<<<<<<<+>>>>>>>]>>-[[-]<<<<<<[-]>[-]<<<<[->>+>>>>>+<<<<<<<]>>>>>>>[-<<<<<<<+>>>>>>>\
    ]<<<<<[->>+[->+>>+<<<]>>>[-<<<+>>>]<<<<<<[->>>>>+>+<<<<<<]>>>>>>[-<<<<<<+>>>>>>]<<[->-<]\
    >>>+<<[[-]>>-<<]>>[-<<<<[-]<+>>>>>]<<<<<<]>>>>>>+<<<<[[-]>>>>-<<<<<<<+>>>]>>>>[->+++++++\
    +++++++++++++++++++++++++.[-]>[-]++++++++++>[-]>[-]<<<<<<<<<<<[->+>>>>>+<<<<<<]>>>>>>[-<\
    <<<<<+>>>>>>]<<<<<[->>>>>>>>>>+[-<<<<<<<+>>+>>>>>]<<<<<[->>>>>+<<<<<]>>>[-<<<<+>+>>>]<<<\
    [->>>+<<<]<<[->-<]>>>+<<[[-]>>-<<]>>[->>>>[-]<+<<<]<<<<<<]>>>>>>>>>>>[-]>[-]<<<[-<<<<<<<\
    <<+>>>>>+>>>>]<<<<[->>>>+<<<<]<<<<<[->>>>>>>>>>>>+[-<<<<<<<<<+>>+>>>>>>>]<<<<<<<[->>>>>>\
    >+<<<<<<<]>>>[-<<<<+>+>>>]<<<[->>>+<<<]<<[->-<]>>>+<<[[-]>>-<<]>>[->>>>>>[-]<+<<<<<]<<<<\
    <<]>>>>>>>>[-]>>>[-<<<+<<<+>>>>>>]<<<<<<[->>>>>>+<<<<<<]>>>>>>[+++++++++++++++++++++++++\
    +++++++++++++++++++++++.[-]]>[-<<<<+<<<+>>>>>>>]<<<<<<<[->>>>>>>+<<<<<<<]>>>[[-]>>>>++++\
    ++++++++++++++++++++++++++++++++++++++++++++.[-]<<<<]>>>>[-]<<++++++++++++++++++++++++++\
    ++++++++++++++++++++++.[-]<[-]<<<<<<<<<<<[-]>>>[-<<<+>>>]>>>>>]<<<<<[-]<<<[->>>>>>>>>+<<\
    +<<<<<<<]>>>>>>>[-<<<<<<<+>>>>>>>]>>-]>[-]++++++++++.[-]";

#[test]
fn parses_the_six_commands() {
    assert_eq!(
        parse_program(b"<>+-,."),
        Ok(vec![
            Statement::Cmd(Left),
            Statement::Cmd(Right),
            Statement::Cmd(Up),
            Statement::Cmd(Down),
            Statement::Cmd(In),
            Statement::Cmd(Out),
        ])
    );
}

#[test]
fn parses_the_empty_program() {
    assert_eq!(parse_program(b""), Ok(vec![]));
}

#[test]
fn other_bytes_are_comments() {
    assert_eq!(
        parse_program(b"add one: + and\nloop [ until done - ] \x00\xff"),
        Ok(vec![
            Statement::Cmd(Up),
            Statement::Loop(vec![Statement::Cmd(Down)]),
        ])
    );
}

#[test]
fn loops_nest() {
    assert_eq!(
        parse_program(b"[[]+[-[.]]]"),
        Ok(vec![Statement::Loop(vec![
            Statement::Loop(vec![]),
            Statement::Cmd(Up),
            Statement::Loop(vec![
                Statement::Cmd(Down),
                Statement::Loop(vec![Statement::Cmd(Out)]),
            ]),
        ])])
    );
}

#[test]
fn an_open_bracket_alone_is_unmatched_begin() {
    assert_eq!(parse_program(b"["), Err(Error::UnmatchedBegin));
    assert_eq!(parse_program(b"+[[-]"), Err(Error::UnmatchedBegin));
}

#[test]
fn a_close_bracket_with_nothing_open_is_unmatched_end() {
    assert_eq!(parse_program(b"]"), Err(Error::UnmatchedEnd));
    assert_eq!(parse_program(b"[]]"), Err(Error::UnmatchedEnd));
}

#[test]
fn the_first_error_in_reading_order_is_reported() {
    assert_eq!(parse_program(b"][["), Err(Error::UnmatchedEnd));
    assert_eq!(parse_program(b"[[]]]["), Err(Error::UnmatchedEnd));
    assert_eq!(parse_program(b"[[]"), Err(Error::UnmatchedBegin));
}

#[test]
fn source_of_a_tree_parses_back() {
    let tree = vec![
        Statement::Cmd(Up),
        Statement::Loop(vec![
            Statement::Cmd(Right),
            Statement::Loop(vec![]),
            Statement::Cmd(In),
            Statement::Cmd(Out),
            Statement::Cmd(Left),
        ]),
        Statement::Cmd(Down),
    ];
    let text = to_source(&tree);
    assert_eq!(text, b"+[>[],.<]-".to_vec());
    assert_eq!(parse_program(&text), Ok(tree));
}

#[test]
fn source_is_kept_without_its_comments() {
    let tree = parse_program(FACTOR_SRC).unwrap();
    assert_eq!(to_source(&tree), FACTOR_SRC.to_vec());
    let tree = parse_program(b"a+b[c-d]e").unwrap();
    assert_eq!(to_source(&tree), b"+[-]".to_vec());
}

#[test]
fn source_shows_brackets_held_as_commands() {
    assert_eq!(to_source(&[Statement::Cmd(Begin), Statement::Cmd(End)]), b"[]".to_vec());
}

#[test]
fn hello_world_as_tree() {
    let program = parse_program(HELLO_WORLD_SRC).unwrap();
    assert_eq!(
        program.interpret_memory(None, b"", u64::MAX),
        Ok(b"Hello, World!".to_vec())
    );
}

#[test]
fn factoring_as_tree() {
    let program = parse_program(FACTOR_SRC).unwrap();
    assert_eq!(program.interpret_memory(None, b"2\n", u64::MAX), Ok(b"2: 2\n".to_vec()));
    assert_eq!(program.interpret_memory(None, b"6\n", u64::MAX), Ok(b"6: 2 3\n".to_vec()));
    assert_eq!(
        program.interpret_memory(None, b"100\n", u64::MAX),
        Ok(b"100: 2 2 5 5\n".to_vec())
    );
}

#[test]
fn echo() {
    let program = parse_program(b",.").unwrap();
    assert_eq!(program.interpret_memory(None, b"A", u64::MAX), Ok(b"A".to_vec()));
}

#[test]
fn end_of_input_reads_as_zero() {
    let program = parse_program(b"+++,.,.").unwrap();
    assert_eq!(program.interpret_memory(None, b"", 0), Ok(vec![0, 0]));
    assert_eq!(program.interpret_memory(None, b"x", 0), Ok(vec![b'x', 0]));
}

#[test]
fn left_on_a_fresh_tape_is_pointer_underflow() {
    let program = parse_program(b"<").unwrap();
    assert_eq!(program.interpret_memory(None, b"", u64::MAX), Err(Error::PointerUnderflow));
}

#[test]
fn right_past_the_last_cell_is_pointer_overflow() {
    let program = parse_program(b">>>").unwrap();
    assert_eq!(program.interpret_memory(Some(4), b"", u64::MAX), Ok(vec![]));
    assert_eq!(program.interpret_memory(Some(3), b"", u64::MAX), Err(Error::PointerOverflow));
}

#[test]
fn default_tape_has_thirty_thousand_cells() {
    let mut text = vec![b'>'; 29999];
    let program = parse_program(&text).unwrap();
    assert_eq!(program.interpret_memory(None, b"", 0), Ok(vec![]));
    text.push(b'>');
    let program = parse_program(&text).unwrap();
    assert_eq!(program.interpret_memory(None, b"", 0), Err(Error::PointerOverflow));
}

#[test]
fn cells_wrap() {
    let program = parse_program(b"-.++.").unwrap();
    assert_eq!(program.interpret_memory(None, b"", 0), Ok(vec![255, 1]));
}

#[test]
fn an_endless_loop_stops_at_the_step_limit() {
    let program = parse_program(b"+[]").unwrap();
    assert_eq!(program.interpret_memory(None, b"", 0), Err(Error::StepLimit));
    assert_eq!(program.interpret_memory(None, b"", 100000), Err(Error::StepLimit));
}

#[test]
fn fuel_is_spent_on_loop_iterations_only() {
    let program = parse_program(b"+++>++<[->[->+<]<]").unwrap();
    let mut state = State::new();
    let mut input = Input::new(b"");
    let mut output = Vec::new();
    assert_eq!(interpret(&program, &mut state, &mut input, &mut output, 10), Ok(5));
    assert_eq!(program.interpret_memory(None, b"", 5), Ok(vec![]));
    assert_eq!(program.interpret_memory(None, b"", 4), Err(Error::StepLimit));
}

#[test]
fn a_failed_run_keeps_what_it_wrote() {
    let program = parse_program(b"+.+.<.").unwrap();
    let mut output = vec![9];
    let r = program.interpret(Some(2), Input::new(b""), &mut output, 0);
    assert_eq!(r, Err(Error::PointerUnderflow));
    assert_eq!(output, vec![9, 1, 2]);
}

#[test]
fn interpret_state_starts_from_the_given_tape() {
    let program = parse_program(b".>.,.").unwrap();
    let mut state = State::with_capacity(4);
    state.up(7);
    state.right(1).unwrap();
    state.up(8);
    state.left(1).unwrap();
    let mut output = Vec::new();
    let r = program.interpret_state(state, Input::new(b"z"), &mut output, 0);
    assert_eq!(r, Ok(()));
    assert_eq!(output, vec![7, 8, b'z']);
}

#[test]
fn brackets_held_as_commands_do_nothing() {
    let program = vec![Statement::Cmd(Up), Statement::Cmd(Begin), Statement::Cmd(End), Statement::Cmd(Out)];
    assert_eq!(program.interpret_memory(None, b"", 0), Ok(vec![1]));
}
