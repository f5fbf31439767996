use bf::ast::parse_program;
use bf::common::Error;
use bf::traits::{BytecodeCompilable, Interpretable, PeepholeCompilable, RleCompilable};

const HELLO_WORLD_SRC: &[u8] = b"\
    ++++++++++[->+++++++<]>++.<++++++++++[->++<]>+++++++++.+++++++..+++.<++++++++++[->------\
    <]>-------.------------.<++++++++++[->+++++<]>+++++.<++++++++++[->++<]>++++.+++.------.-\
    -------.<++++++++++[->------<]>-------.";

const FACTOR_SRC: &[u8] = b"\
    >>>>>>>>>>,----------[--------------------------------------<<<<<<<<<<[->>>>>++++++++++<\
    <<<<]>>>>>[-<<<<<+>>>>>]>>>>>[-<<<<<<<<<<+>>>>>>>>>>],----------][-]++++++++++>[-]>[-]<<\
    <<<<<<<<<<[->>+>>>>>+<<<<<<<]>>>>>>>[-<<<<<<<+>>>>>>>]<<<<<[->>>>>>>>>>+[-<<<<<<<+>>+>>>\
    >>]<<<<<[->>>>>+<<<<<]>>>[-<<<<+>+>>>]<<<[->>>+<<<]<<[->-<]>>>+<<[[-]>>-<<]>>[->>>>[-]<+\
    <<<]<<<<<<]>>>>>>>>>>>[-]>[-]<<<[-<<<<<<<<<+>>>>>+>>>>]<<<<[->>>>+<<<<]<<<<<[->>>>>>>>>>\
    >>+[-<<<<<<<<<+>>+>>>>>>>]<<<<<<<[->>>>>>>+<<<<<<<]>>>[-<<<<+>+>>>]<<<[->>>+<<<]<<[->-<]\
    >>>+<<[[-]>>-<<]>>[->>>>>>[-]<+<<<<<]<<<<<<]>>>>>>>>[-]>>>[-<<<+<<<+>>>>>>]<<<<<<[->>>>>\
    >+<<<<<<]>>>>>>[++++++++++++++++++++++++++++++++++++++++++++++++.[-]]>[-<<<<+<<<+>>>>>>>\
    ]<<<<<<<[->>>>>>>+<<<<<<<]>>>[[-]>>>>++++++++++++++++++++++++++++++++++++++++++++++++.[-\
    ]<<<<]>>>>[-]<<++++++++++++++++++++++++++++++++++++++++++++++++.[-]<[-]<[-]+++++++++++++\
    +++++++++++++++++++++++++++++++++++++++++++++.[-]<<<<<<<<<++<[->>>>>>>>>+<<+<<<<<<<]>>>>\
    >>>[-<<<<<<<+>>>>>>>]>>-[[-]<<<<<<[-]>[-]<<<<[->>+>>>>>+<<<<<<<]>>>>>>>[-<<<<<<<+>>>>>>>\
    ]<<<<<[->>+[->+>>+<<<]>>>[-<<<+>>>]<<<<<<[->>>>>+>+<<<<<<]>>>>>>[-<<<<<<+>>>>>>]<<[->-<]\
    >>>+<<[[-]>>-<<]>>[-<<<<[-]<+>>>>>]<<<<<<]>>>>>>+<<<<[[-]>>>>-<<<<<<<+>>>]>>>>[->+++++++\
    +++++++++++++++++++++++++.[-]>[-]++++++++++>[-]>[-]<<<<<<<<<<<[->+>>>>>+<<<<<<]>>>>>>[-<\
    <<<<<+>>>>>>]<<<<<[->>>>>>>>>>+[-<<<<<<<+>>+>>>>>]<<<<<[->>>>>+<<<<<]>>>[-<<<<+>+>>>]<<<\
    [->>>+<<<]<<[->-<]>>>+<<[[-]>>-<<]>>[->>>>[-]<+<<<]<<<<<<]>>>>>>>>>>>[-]>[-]<<<[-<<<<<<<\
    <<+>>>>>+>>>>]<<<<[->>>>+<<<<]<<<<<[->>>>>>>>>>>>+[-<<<<<<<<<+>>+>>>>>>>]<<<<<<<[->>>>>>\
    >+<<<<<<<]>>>[-<<<<+>+>>>]<<<[->>>+<<<]<<[->-<]>>>+<<[[-]>>-<<]>>[->>>>>>[-]<+<<<<<]<<<<\
    <<]>>>>>>>>[-]>>>[-<<<+<<<+>>>>>>]<<<<<<[->>>>>>+<<<<<<]>>>>>>[+++++++++++++++++++++++++\
    +++++++++++++++++++++++.[-]]>[-<<<<+<<<+>>>>>>>]<<<<<<<[->>>>>>>+<<<<<<<]>>>[[-]>>>>++++\
    ++++++++++++++++++++++++++++++++++++++++++++.[-]<<<<]>>>>[-]<<++++++++++++++++++++++++++\
    ++++++++++++++++++++++.[-]<[-]<<<<<<<<<<<[-]>>>[-<<<+>>>]>>>>>]<<<<<[-]<<<[->>>>>>>>>+<<\
    +<<<<<<<]>>>>>>>[-<<<<<<<+>>>>>>>]>>-]>[-]++++++++++.[-]";

fn all_tiers(source: &[u8], size: Option<usize>, input: &[u8], fuel: u64) -> Vec<Result<Vec<u8>, Error>> {
    let tree = parse_program(source).unwrap();
    let encoded = tree.rle_compile();
    let optimised = tree.peephole_compile();
    let again = optimised.peephole_compile();
    let code = tree.bytecode_compile().unwrap();
    vec![
        tree.interpret_memory(size, input, fuel),
        encoded.interpret_memory(size, input, fuel),
        optimised.interpret_memory(size, input, fuel),
        again.interpret_memory(size, input, fuel),
        code.interpret_memory(size, input, fuel),
    ]
}

fn assert_all(source: &[u8], size: Option<usize>, input: &[u8], expected: &[u8]) {
    for (tier, r) in all_tiers(source, size, input, u64::MAX).into_iter().enumerate() {
        assert_eq!(r, Ok(expected.to_vec()), "tier {}", tier);
    }
}

#[test]
fn hello_world_in_every_tier() {
    assert_all(HELLO_WORLD_SRC, None, b"", b"Hello, World!");
    assert_all(HELLO_WORLD_SRC, Some(2), b"", b"Hello, World!");
}

#[test]
fn factoring_in_every_tier() {
    assert_all(FACTOR_SRC, None, b"2\n", b"2: 2\n");
    assert_all(FACTOR_SRC, None, b"3\n", b"3: 3\n");
    assert_all(FACTOR_SRC, None, b"6\n", b"6: 2 3\n");
    assert_all(FACTOR_SRC, None, b"100\n", b"100: 2 2 5 5\n");
    assert_all(FACTOR_SRC, Some(32), b"255\n", b"255: 3 5 17\n");
    assert_all(FACTOR_SRC, Some(32), b"97\n", b"97: 97\n");
}

#[test]
fn echo_in_every_tier() {
    assert_all(b",.", None, b"A", b"A");
    assert_all(b",.", Some(1), b"", b"\x00");
    assert_all(b",[.,]", None, b"all of it", b"all of it");
}

#[test]
fn patterns_in_every_tier() {
    assert_all(b"+++>+++++<[->+<]>.<.", None, b"", b"\x08\x00");
    assert_all(b",[-].", None, b"\xc8", b"\x00");
    assert_all(b",[+].", None, b"\xc8", b"\x00");
    assert_all(b"+>>+>>>>+<<<<<<[>>]>.<<<[<]>.", Some(16), b"", b"\x00\x01");
    assert_all(b">>>+++[-<<+>>]<<.", None, b"", b"\x03");
    assert_all(b">>>>+<+<+[<]>>[>]<.", Some(8), b"", b"\x01");
}

#[test]
fn tape_errors_in_every_tier() {
    for (tier, r) in all_tiers(b"+[>+]", Some(7), b"", u64::MAX).into_iter().enumerate() {
        assert_eq!(r, Err(Error::PointerOverflow), "tier {}", tier);
    }
    for (tier, r) in all_tiers(b">>+[<]<<", Some(7), b"", u64::MAX).into_iter().enumerate() {
        assert_eq!(r, Err(Error::PointerUnderflow), "tier {}", tier);
    }
}

#[test]
fn an_endless_loop_in_every_tier() {
    for (tier, r) in all_tiers(b"+[]", None, b"", 10000).into_iter().enumerate() {
        assert_eq!(r, Err(Error::StepLimit), "tier {}", tier);
    }
    for (tier, r) in all_tiers(b"+[>+<]", None, b"", 10000).into_iter().enumerate() {
        assert_eq!(r, Err(Error::StepLimit), "tier {}", tier);
    }
}

#[test]
fn what_the_tree_affords_the_other_tiers_afford() {
    let source = b"++++[->++++<]>[-<+>]<.";
    let tree = parse_program(source).unwrap();
    let mut least = 0;
    while tree.interpret_memory(None, b"", least).is_err() {
        least += 1;
    }
    assert_eq!(least, 20);
    for (tier, r) in all_tiers(source, None, b"", least).into_iter().enumerate() {
        assert_eq!(r, Ok(vec![16]), "tier {}", tier);
    }
    assert_eq!(tree.rle_compile().interpret_memory(None, b"", least - 1), Err(Error::StepLimit));
    assert_eq!(tree.peephole_compile().interpret_memory(None, b"", 4), Ok(vec![16]));
    assert_eq!(tree.peephole_compile().interpret_memory(None, b"", 3), Err(Error::StepLimit));
    assert_eq!(tree.bytecode_compile().unwrap().interpret_memory(None, b"", 4), Ok(vec![16]));
    assert_eq!(
        tree.bytecode_compile().unwrap().interpret_memory(None, b"", 3),
        Err(Error::StepLimit)
    );
}
