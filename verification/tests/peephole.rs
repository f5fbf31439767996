use bf::ast::parse_program;
use bf::common::Error;
use bf::peephole::{compile, fuse_loop, interpret, Compiler, Instruction};
use bf::peephole::Instruction::{
    Change, FindZeroLeft, FindZeroRight, In, Left, Loop, OffsetAddLeft, OffsetAddRight, Out,
    Right, SetZero,
};
use bf::state::{Input, State};
use bf::traits::{Interpretable, PeepholeCompilable};

fn compiled(source: &[u8]) -> Vec<Instruction> {
    compile(&parse_program(source).unwrap())
}

fn tape_of(cells: &[u8]) -> State {
    let mut state = State::with_capacity(cells.len());
    for (i, c) in cells.iter().enumerate() {
        state.up(*c);
        if i + 1 < cells.len() {
            state.right(1).unwrap();
        }
    }
    state.left(cells.len() - 1).unwrap();
    state
}

fn cells_of(state: &mut State) -> Vec<u8> {
    let at = state.pointer();
    state.left(at).unwrap();
    let mut cells = Vec::new();
    for i in 0..state.capacity() {
        cells.push(state.load());
        if i + 1 < state.capacity() {
            state.right(1).unwrap();
        }
    }
    state.left(state.capacity() - 1).unwrap();
    state.right(at).unwrap();
    cells
}

fn run_on(program: &[Instruction], state: &mut State, fuel: u64) -> Result<u64, Error> {
    let mut input = Input::new(b"");
    let mut output = Vec::new();
    interpret(program, state, &mut input, &mut output, fuel)
}

#[test]
fn moves_are_aggregated() {
    assert_eq!(compiled(b">>>"), vec![Right(3)]);
    assert_eq!(compiled(b"<<"), vec![Left(2)]);
    assert_eq!(compiled(b">>><<"), vec![Right(1)]);
    assert_eq!(compiled(b"<<>"), vec![Left(1)]);
    assert_eq!(compiled(b"><<<>"), vec![Left(1)]);
    assert_eq!(compiled(b"><"), vec![]);
    assert_eq!(compiled(b"<>><"), vec![]);
}

#[test]
fn changes_are_aggregated() {
    assert_eq!(compiled(b"+++"), vec![Change(3)]);
    assert_eq!(compiled(b"-"), vec![Change(255)]);
    assert_eq!(compiled(b"+++--"), vec![Change(1)]);
    assert_eq!(compiled(b"+-"), vec![]);
    assert_eq!(compiled(&[b'+'; 256]), vec![]);
    assert_eq!(compiled(&[b'-'; 257]), vec![Change(255)]);
}

#[test]
fn what_cancels_lets_its_neighbours_meet() {
    assert_eq!(compiled(b"+><+"), vec![Change(2)]);
    assert_eq!(compiled(b">+->"), vec![Right(2)]);
}

#[test]
fn moves_and_changes_keep_their_order() {
    assert_eq!(compiled(b"+>+<"), vec![Change(1), Right(1), Change(1), Left(1)]);
}

#[test]
fn reads_and_writes_stay_single() {
    assert_eq!(compiled(b",,.."), vec![In, In, Out, Out]);
    assert_eq!(compiled(b"+.+"), vec![Change(1), Out, Change(1)]);
}

#[test]
fn clearing_loops_become_set_zero() {
    assert_eq!(compiled(b"[-]"), vec![SetZero]);
    assert_eq!(compiled(b"[+]"), vec![SetZero]);
    assert_eq!(compiled(b"[+--]"), vec![SetZero]);
    assert_eq!(compiled(b"[--]"), vec![Loop(vec![Change(254)])]);
    assert_eq!(compiled(b"[+++]"), vec![Loop(vec![Change(3)])]);
}

#[test]
fn carrying_loops_become_offset_adds() {
    assert_eq!(compiled(b"[->+<]"), vec![OffsetAddRight(1)]);
    assert_eq!(compiled(b"[->>>+<<<]"), vec![OffsetAddRight(3)]);
    assert_eq!(compiled(b"[-<+>]"), vec![OffsetAddLeft(1)]);
    assert_eq!(compiled(b"[-<<+>>]"), vec![OffsetAddLeft(2)]);
}

#[test]
fn loops_of_other_shapes_stay_loops() {
    assert_eq!(
        compiled(b"[->+<<]"),
        vec![Loop(vec![Change(255), Right(1), Change(1), Left(2)])]
    );
    assert_eq!(
        compiled(b"[>+<-]"),
        vec![Loop(vec![Right(1), Change(1), Left(1), Change(255)])]
    );
    assert_eq!(
        compiled(b"[->++<]"),
        vec![Loop(vec![Change(255), Right(1), Change(2), Left(1)])]
    );
    assert_eq!(
        compiled(b"[->+>+<<]"),
        vec![Loop(vec![Change(255), Right(1), Change(1), Right(1), Change(1), Left(2)])]
    );
    assert_eq!(compiled(b"[]"), vec![Loop(vec![])]);
    assert_eq!(compiled(b"[+-]"), vec![Loop(vec![])]);
    assert_eq!(compiled(b"[.]"), vec![Loop(vec![Out])]);
}

#[test]
fn moving_loops_become_find_zero() {
    assert_eq!(compiled(b"[>>]"), vec![FindZeroRight(2)]);
    assert_eq!(compiled(b"[>]"), vec![FindZeroRight(1)]);
    assert_eq!(compiled(b"[<]"), vec![FindZeroLeft(1)]);
    assert_eq!(compiled(b"[<<<>]"), vec![FindZeroLeft(2)]);
}

#[test]
fn loop_bodies_are_compiled_before_they_are_matched() {
    assert_eq!(compiled(b"[[-]]"), vec![Loop(vec![SetZero])]);
    assert_eq!(compiled(b",[.,]"), vec![In, Loop(vec![Out, In])]);
    assert_eq!(
        compiled(b"+[>[->+<]<-]"),
        vec![Change(1), Loop(vec![Right(1), OffsetAddRight(1), Left(1), Change(255)])]
    );
}

#[test]
fn nothing_is_merged_across_a_loop() {
    assert_eq!(compiled(b"+[-]+"), vec![Change(1), SetZero, Change(1)]);
    assert_eq!(compiled(b">[]>"), vec![Right(1), Loop(vec![]), Right(1)]);
}

#[test]
fn fuse_loop_matches_the_known_shapes() {
    assert_eq!(fuse_loop(vec![Change(1)]), SetZero);
    assert_eq!(fuse_loop(vec![Change(255)]), SetZero);
    assert_eq!(fuse_loop(vec![Change(2)]), Loop(vec![Change(2)]));
    assert_eq!(fuse_loop(vec![Right(0)]), FindZeroRight(0));
    assert_eq!(fuse_loop(vec![Left(9)]), FindZeroLeft(9));
    assert_eq!(
        fuse_loop(vec![Change(255), Right(4), Change(1), Left(4)]),
        OffsetAddRight(4)
    );
    assert_eq!(
        fuse_loop(vec![Change(255), Left(4), Change(1), Right(4)]),
        OffsetAddLeft(4)
    );
    assert_eq!(
        fuse_loop(vec![Change(255), Right(4), Change(1), Left(3)]),
        Loop(vec![Change(255), Right(4), Change(1), Left(3)])
    );
    assert_eq!(
        fuse_loop(vec![Change(1), Right(4), Change(255), Left(4)]),
        Loop(vec![Change(1), Right(4), Change(255), Left(4)])
    );
    assert_eq!(fuse_loop(vec![]), Loop(vec![]));
    assert_eq!(fuse_loop(vec![SetZero]), Loop(vec![SetZero]));
}

#[test]
fn compiler_merges_what_it_is_given() {
    let mut compiler = Compiler::new();
    compiler.issue_move(true, 5);
    compiler.issue_move(false, 2);
    compiler.issue_change(200);
    compiler.issue_change(100);
    compiler.issue(In);
    compiler.issue_move(false, 3);
    compiler.issue_move(true, 3);
    compiler.issue_move(true, 0);
    compiler.issue_change(0);
    compiler.issue_change(7);
    compiler.issue_change(249);
    assert_eq!(compiler.into_program(), vec![Right(3), Change(44), In]);
}

#[test]
fn a_sum_of_moves_that_does_not_fit_is_not_merged() {
    let mut compiler = Compiler::new();
    compiler.issue_move(true, usize::MAX);
    compiler.issue_move(true, 1);
    compiler.issue_move(false, usize::MAX);
    compiler.issue_move(false, 2);
    assert_eq!(compiler.into_program(), vec![Right(usize::MAX), Left(usize::MAX - 1), Left(2)]);
}

#[test]
fn peephole_compiler_goes_on_where_it_stopped() {
    let mut compiler = Compiler::new();
    compiler.compile(&parse_program(b"++>").unwrap());
    compiler.compile(&parse_program(b">[-]").unwrap());
    assert_eq!(compiler.into_program(), vec![Change(2), Right(2), SetZero]);
}

#[test]
fn set_zero_clears_every_value() {
    let program = compiled(b"[-]");
    let tree = parse_program(b"[-]").unwrap();
    for v in 0..=255u8 {
        let mut state = tape_of(&[7, v, 9]);
        state.right(1).unwrap();
        assert_eq!(run_on(&program, &mut state, 0), Ok(0));
        assert_eq!(cells_of(&mut state), vec![7, 0, 9]);
        assert_eq!(state.pointer(), 1);
        let mut state = tape_of(&[7, v, 9]);
        state.right(1).unwrap();
        let mut input = Input::new(b"");
        let mut output = Vec::new();
        assert_eq!(
            bf::ast::interpret(&tree, &mut state, &mut input, &mut output, 255),
            Ok(255 - v as u64)
        );
        assert_eq!(cells_of(&mut state), vec![7, 0, 9]);
    }
}

#[test]
fn offset_add_carries_the_cell() {
    let program = compiled(b"[->+<]");
    let mut state = tape_of(&[3, 5, 0]);
    assert_eq!(run_on(&program, &mut state, 0), Ok(0));
    assert_eq!(cells_of(&mut state), vec![0, 8, 0]);
    assert_eq!(state.pointer(), 0);
    let mut state = tape_of(&[200, 100, 1]);
    assert_eq!(run_on(&program, &mut state, 0), Ok(0));
    assert_eq!(cells_of(&mut state), vec![0, 44, 1]);
}

#[test]
fn offset_add_left_carries_the_cell() {
    let program = vec![Right(2), OffsetAddLeft(2)];
    let mut state = tape_of(&[250, 1, 10]);
    assert_eq!(run_on(&program, &mut state, 0), Ok(0));
    assert_eq!(cells_of(&mut state), vec![4, 1, 0]);
    assert_eq!(state.pointer(), 2);
}

#[test]
fn offset_add_of_zero_never_fails() {
    let mut state = tape_of(&[0, 1]);
    assert_eq!(run_on(&[OffsetAddRight(5)], &mut state, 0), Ok(0));
    assert_eq!(run_on(&[OffsetAddLeft(5)], &mut state, 0), Ok(0));
    assert_eq!(cells_of(&mut state), vec![0, 1]);
}

#[test]
fn offset_add_is_checked_against_the_tape() {
    let mut state = tape_of(&[2, 1]);
    assert_eq!(run_on(&[OffsetAddRight(2)], &mut state, 0), Err(Error::PointerOverflow));
    assert_eq!(run_on(&[OffsetAddLeft(1)], &mut state, 0), Err(Error::PointerUnderflow));
    assert_eq!(cells_of(&mut state), vec![2, 1]);
    assert_eq!(run_on(&[OffsetAddRight(1)], &mut state, 0), Ok(0));
    assert_eq!(cells_of(&mut state), vec![0, 3]);
}

#[test]
fn find_zero_advances_to_the_nearest_zero_at_the_stride() {
    let program = compiled(b"[>>]");
    let mut state = tape_of(&[1, 0, 1, 0, 0, 0]);
    assert_eq!(run_on(&program, &mut state, 0), Ok(0));
    assert_eq!(state.pointer(), 4);
    assert_eq!(cells_of(&mut state), vec![1, 0, 1, 0, 0, 0]);
}

#[test]
fn find_zero_over_cells_that_are_not_zero_is_pointer_overflow() {
    let mut state = tape_of(&[1, 0, 1, 0, 1, 0, 1]);
    assert_eq!(run_on(&[FindZeroRight(2)], &mut state, 0), Err(Error::PointerOverflow));
    let mut state = tape_of(&[3; 50]);
    assert_eq!(run_on(&[FindZeroRight(1)], &mut state, u64::MAX), Err(Error::PointerOverflow));
    let mut state = tape_of(&[3; 50]);
    assert_eq!(run_on(&[Right(49), FindZeroLeft(7)], &mut state, 0), Err(Error::PointerUnderflow));
}

#[test]
fn a_search_by_no_stride_is_out_of_fuel() {
    let mut state = tape_of(&[1, 0]);
    assert_eq!(run_on(&[FindZeroRight(0)], &mut state, u64::MAX), Err(Error::StepLimit));
    assert_eq!(run_on(&[Loop(vec![Right(0)])], &mut state, 1000), Err(Error::StepLimit));
}

#[test]
fn only_loops_cost_fuel() {
    let program = compiled(b"+++[->+<]>[-]<[>>]++[>+<-]");
    assert_eq!(
        program,
        vec![
            Change(3),
            OffsetAddRight(1),
            Right(1),
            SetZero,
            Left(1),
            FindZeroRight(2),
            Change(2),
            Loop(vec![Right(1), Change(1), Left(1), Change(255)]),
        ]
    );
    let mut state = State::with_capacity(3);
    assert_eq!(run_on(&program, &mut state, 2), Ok(0));
    assert_eq!(cells_of(&mut state), vec![0, 2, 0]);
    let mut state = State::with_capacity(3);
    assert_eq!(run_on(&program, &mut state, 1), Err(Error::StepLimit));
}

#[test]
fn collapsed_moves_do_not_leave_the_tape() {
    let tree = parse_program(b"<>+.").unwrap();
    assert_eq!(tree.interpret_memory(None, b"", 0), Err(Error::PointerUnderflow));
    assert_eq!(compile(&tree).interpret_memory(None, b"", 0), Ok(vec![1]));
}

#[test]
fn optimising_again_keeps_an_optimised_program() {
    for source in [&b"+++[->+<]>[-]<[>>]++[>+<-],[.,]"[..], &b">>+<<<>-[[-]>]"[..]] {
        let once = compiled(source);
        assert_eq!(once.peephole_compile(), once);
    }
}

#[test]
fn optimising_again_merges_what_was_written_apart() {
    let program = vec![
        Right(2),
        Left(2),
        Change(3),
        Change(253),
        Loop(vec![Change(200), Change(55)]),
        Loop(vec![Right(1), Right(1)]),
        Loop(vec![Change(255), Right(1), Right(1), Change(1), Left(2)]),
        Loop(vec![Loop(vec![Left(1), Right(1), Out])]),
        SetZero,
        OffsetAddLeft(3),
        In,
    ];
    assert_eq!(
        program.peephole_compile(),
        vec![
            SetZero,
            FindZeroRight(2),
            OffsetAddRight(2),
            Loop(vec![Loop(vec![Out])]),
            SetZero,
            OffsetAddLeft(3),
            In,
        ]
    );
}

#[test]
fn optimising_again_keeps_what_the_program_does() {
    let program = vec![
        In,
        Change(3),
        Change(253),
        Loop(vec![Out, Change(128), Change(127)]),
        Right(3),
        Left(2),
        Out,
        Left(1),
        Loop(vec![Change(255), Right(1), Right(1), Change(1), Left(2)]),
        Right(2),
        Out,
    ];
    let again = program.peephole_compile();
    assert_eq!(program.interpret_memory(Some(4), b"\x03", 10), Ok(vec![3, 2, 1, 0, 0]));
    assert_eq!(again.interpret_memory(Some(4), b"\x03", 10), Ok(vec![3, 2, 1, 0, 0]));
    assert_eq!(again.interpret_memory(Some(4), b"\x03", 3), Ok(vec![3, 2, 1, 0, 0]));
    assert_eq!(program.interpret_memory(Some(4), b"\x03", 2), Err(Error::StepLimit));
}

#[test]
fn a_copy_is_equal() {
    let program = compiled(b"+[>[->+<]<-]>[>>],[.[-]]");
    let copy = program.clone();
    assert_eq!(copy, program);
    let tree = parse_program(b"+[>[->+<]<-]").unwrap();
    assert_eq!(tree.clone(), tree);
    let encoded = bf::rle::compile(&tree);
    assert_eq!(encoded.clone(), encoded);
}
