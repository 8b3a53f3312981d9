use turing::decoder::decode;
use turing::decoder::parse_tape;
use turing::machine::TuringM;
use turing::table::TransTable;

#[test]
fn halts_immediately_without_matching_transition() {
    // The table only knows (2, 1); the machine starts in state 1 over
    // symbol 1, so no transition applies at all.
    let table = decode("001010100100").unwrap();
    let mut m = TuringM::new(parse_tape("0").unwrap(), table);
    assert!(m.halted());
    assert!(!m.step());
    assert_eq!(m.current_state(), 1);
    assert_eq!(m.step_count(), 0);
    assert!(!m.is_accepting());
}

#[test]
fn step_after_halt_changes_nothing() {
    let table = decode("001010100100").unwrap();
    let mut m = TuringM::new(parse_tape("03").unwrap(), table);
    assert!(!m.step());
    let state = m.current_state();
    let ptr = m.pointer();
    let steps = m.step_count();
    let tape = m.tape_contents();
    assert!(!m.step());
    assert_eq!(m.current_state(), state);
    assert_eq!(m.pointer(), ptr);
    assert_eq!(m.step_count(), steps);
    assert_eq!(m.tape_contents(), tape);
}

#[test]
fn step_applies_and_counts_one() {
    // (1, 1) -> (2, 1, right)
    let table = decode("01010010100").unwrap();
    let mut m = TuringM::new(parse_tape("00").unwrap(), table);
    assert!(!m.halted());
    assert!(m.step());
    assert_eq!(m.current_state(), 2);
    assert_eq!(m.pointer(), 1);
    assert_eq!(m.step_count(), 1);
    assert_eq!(m.tape_len(), 2);
}

#[test]
fn left_move_from_cell_zero_grows_tape() {
    // (1, 1) -> (2, 2, left) from pointer 0.
    let table = decode("01010010010").unwrap();
    let mut m = TuringM::new(parse_tape("0").unwrap(), table);
    assert!(m.step());
    assert_eq!(m.tape_len(), 2);
    assert_eq!(m.pointer(), 0);
    // The new cell 0 is blank; the written old cell sits at index 1.
    assert_eq!(m.tape_contents(), vec![3, 2]);
}

#[test]
fn right_move_from_last_cell_grows_tape() {
    // (1, 1) -> (2, 2, right) from the last index.
    let table = decode("010100100100").unwrap();
    let mut m = TuringM::new(parse_tape("0").unwrap(), table);
    let old_len = m.tape_len();
    assert!(m.step());
    assert_eq!(m.tape_len(), old_len + 1);
    assert_eq!(m.pointer(), old_len);
    assert_eq!(m.tape_contents(), vec![2, 3]);
    assert_eq!(m.tape_at(m.pointer()), 3);
}

#[test]
fn in_bounds_move_keeps_tape_length() {
    // (1, 1) -> (1, 1, right) over two cells.
    let table = decode("0101010100").unwrap();
    let mut m = TuringM::new(parse_tape("00").unwrap(), table);
    assert!(m.step());
    assert_eq!(m.tape_len(), 2);
    assert_eq!(m.pointer(), 1);
}

#[test]
fn step_counter_increases_by_one_per_applied_step() {
    // (1, 1) -> (1, 1, right) sweeps to the right end, then halts on the
    // blank it grew.
    let table = decode("0101010100").unwrap();
    let mut m = TuringM::new(parse_tape("000").unwrap(), table);
    let mut expected: usize = 0;
    while m.step() {
        expected += 1;
        assert_eq!(m.step_count(), expected);
    }
    assert_eq!(m.step_count(), 3);
    assert_eq!(m.step_count(), expected);
    assert_eq!(m.tape_contents(), vec![1, 1, 1, 3]);
}

#[test]
fn run_to_halt_reports_outcome() {
    // (1, 1) -> (2, 1, right): one step into the accepting state.
    let table = decode("01010010100").unwrap();
    let mut m = TuringM::new(parse_tape("0").unwrap(), table);
    m.run_to_halt();
    assert!(m.halted());
    let out = m.outcome();
    assert_eq!(out.state, 2);
    assert_eq!(out.steps, 1);
    assert!(out.accepting);
    assert_eq!(out.tape, vec![1, 3]);
}

#[test]
fn run_with_both_directions() {
    // (1, 1) -> (2, 2, left) grows a blank on the left; (2, 3) -> (3, 3,
    // right) steps back onto the written cell, where nothing applies.
    let table = decode("010100100101100100010001000100").unwrap();
    let mut m = TuringM::new(parse_tape("0").unwrap(), table);
    m.run_to_halt();
    assert_eq!(m.current_state(), 3);
    assert_eq!(m.pointer(), 1);
    assert_eq!(m.step_count(), 2);
    assert_eq!(m.tape_contents(), vec![3, 2]);
    assert!(!m.is_accepting());
}

#[test]
fn empty_tape_is_materialized_as_one_blank() {
    let table = TransTable::new();
    let m = TuringM::new(Vec::new(), table);
    assert_eq!(m.tape_len(), 1);
    assert_eq!(m.tape_at(0), 3);
    assert_eq!(m.pointer(), 0);
    assert_eq!(m.current_state(), 1);
}

#[test]
fn pointer_stays_on_tape_through_a_run() {
    let table = decode("0101010100").unwrap();
    let mut m = TuringM::new(parse_tape("0000").unwrap(), table);
    loop {
        assert!(m.pointer() < m.tape_len());
        let before = m.tape_len();
        if !m.step() {
            break;
        }
        let after = m.tape_len();
        assert!(after == before || after == before + 1);
    }
    assert!(m.pointer() < m.tape_len());
}
