use bf::common::Error;
use bf::state::{Input, State};

#[test]
fn a_new_tape_is_blank() {
    let mut state = State::new();
    assert_eq!(state.capacity(), 30000);
    assert_eq!(state.pointer(), 0);
    assert_eq!(state.load(), 0);
    assert_eq!(state.right(29999), Ok(()));
    assert_eq!(state.load(), 0);
}

#[test]
fn with_capacity_sets_the_number_of_cells() {
    let mut state = State::with_capacity(3);
    assert_eq!(state.capacity(), 3);
    assert_eq!(state.right(2), Ok(()));
    assert_eq!(state.right(1), Err(Error::PointerOverflow));
    assert_eq!(state.pointer(), 2);
}

#[test]
fn moves_are_checked() {
    let mut state = State::with_capacity(10);
    assert_eq!(state.left(1), Err(Error::PointerUnderflow));
    assert_eq!(state.right(9), Ok(()));
    assert_eq!(state.right(0), Ok(()));
    assert_eq!(state.right(1), Err(Error::PointerOverflow));
    assert_eq!(state.right(usize::MAX), Err(Error::PointerOverflow));
    assert_eq!(state.left(10), Err(Error::PointerUnderflow));
    assert_eq!(state.left(usize::MAX), Err(Error::PointerUnderflow));
    assert_eq!(state.pointer(), 9);
    assert_eq!(state.left(9), Ok(()));
    assert_eq!(state.pointer(), 0);
}

#[test]
fn cells_wrap_modulo_256() {
    let mut state = State::with_capacity(1);
    state.down(1);
    assert_eq!(state.load(), 255);
    state.up(2);
    assert_eq!(state.load(), 1);
    state.up(255);
    assert_eq!(state.load(), 0);
    state.up(200);
    state.up(100);
    assert_eq!(state.load(), 44);
    state.down(45);
    assert_eq!(state.load(), 255);
    state.down(0);
    assert_eq!(state.load(), 255);
}

#[test]
fn store_replaces_the_cell() {
    let mut state = State::with_capacity(2);
    state.store(17);
    assert_eq!(state.load(), 17);
    state.right(1).unwrap();
    assert_eq!(state.load(), 0);
}

#[test]
fn read_takes_bytes_in_order_and_zero_at_the_end() {
    let mut state = State::with_capacity(1);
    let mut input = Input::new(b"hi");
    state.read(&mut input);
    assert_eq!(state.load(), b'h');
    state.read(&mut input);
    assert_eq!(state.load(), b'i');
    state.read(&mut input);
    assert_eq!(state.load(), 0);
    state.up(3);
    state.read(&mut input);
    assert_eq!(state.load(), 0);
}

#[test]
fn input_hands_out_its_bytes_once() {
    let mut input = Input::new(&[1, 2]);
    assert_eq!(input.next(), Some(1));
    assert_eq!(input.next(), Some(2));
    assert_eq!(input.next(), None);
    assert_eq!(input.next(), None);
}

#[test]
fn write_appends_the_cell() {
    let mut state = State::with_capacity(1);
    let mut output = vec![1];
    state.up(65);
    state.write(&mut output);
    state.up(1);
    state.write(&mut output);
    assert_eq!(output, vec![1, 65, 66]);
}

#[test]
fn offset_adds_are_checked() {
    let mut state = State::with_capacity(4);
    state.right(1).unwrap();
    assert_eq!(state.up_pos_offset(2, 250), Ok(()));
    assert_eq!(state.up_pos_offset(2, 10), Ok(()));
    assert_eq!(state.up_pos_offset(3, 1), Err(Error::PointerOverflow));
    assert_eq!(state.up_pos_offset(usize::MAX, 1), Err(Error::PointerOverflow));
    assert_eq!(state.up_neg_offset(1, 7), Ok(()));
    assert_eq!(state.up_neg_offset(2, 7), Err(Error::PointerUnderflow));
    assert_eq!(state.up_neg_offset(0, 9), Ok(()));
    assert_eq!(state.pointer(), 1);
    assert_eq!(state.load(), 9);
    state.left(1).unwrap();
    assert_eq!(state.load(), 7);
    state.right(3).unwrap();
    assert_eq!(state.load(), 4);
}

fn tape_of(cells: &[u8]) -> State {
    let mut state = State::with_capacity(cells.len());
    for (i, c) in cells.iter().enumerate() {
        state.up(*c);
        if i + 1 < cells.len() {
            state.right(1).unwrap();
        }
    }
    state.left(cells.len() - 1).unwrap();
    state
}

#[test]
fn find_zero_right_stops_on_the_first_zero_at_the_stride() {
    let mut state = tape_of(&[1, 0, 1, 0, 0, 1]);
    assert_eq!(state.find_zero_right(2), Ok(()));
    assert_eq!(state.pointer(), 4);
    let mut state = tape_of(&[1, 0, 1, 0, 0, 1]);
    assert_eq!(state.find_zero_right(1), Ok(()));
    assert_eq!(state.pointer(), 1);
    assert_eq!(state.find_zero_right(1), Ok(()));
    assert_eq!(state.pointer(), 1);
}

#[test]
fn find_zero_right_runs_into_the_end_of_the_tape() {
    let mut state = tape_of(&[1, 0, 1, 0, 1, 0]);
    assert_eq!(state.find_zero_right(2), Err(Error::PointerOverflow));
    assert_eq!(state.pointer(), 4);
    let mut state = tape_of(&[5; 100]);
    assert_eq!(state.find_zero_right(7), Err(Error::PointerOverflow));
    assert_eq!(state.pointer(), 98);
    let mut state = tape_of(&[5; 100]);
    assert_eq!(state.find_zero_right(usize::MAX), Err(Error::PointerOverflow));
    assert_eq!(state.pointer(), 0);
}

#[test]
fn find_zero_left_mirrors_it() {
    let mut state = tape_of(&[0, 1, 0, 1, 1, 1]);
    state.right(5).unwrap();
    assert_eq!(state.find_zero_left(3), Ok(()));
    assert_eq!(state.pointer(), 2);
    state.right(3).unwrap();
    assert_eq!(state.find_zero_left(2), Err(Error::PointerUnderflow));
    assert_eq!(state.pointer(), 1);
}

#[test]
fn a_search_that_cannot_move_is_out_of_fuel() {
    let mut state = tape_of(&[1, 0]);
    assert_eq!(state.find_zero_right(0), Err(Error::StepLimit));
    assert_eq!(state.find_zero_left(0), Err(Error::StepLimit));
    state.right(1).unwrap();
    assert_eq!(state.find_zero_right(0), Ok(()));
    assert_eq!(state.find_zero_left(0), Ok(()));
}
