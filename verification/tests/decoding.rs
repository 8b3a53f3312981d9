use turing::decoder::decode;
use turing::decoder::parse_tape;
use turing::decoder::parse_transition;
use turing::table::MoveDir;

#[test]
fn decode_single_record() {
    let t = decode("010101010").unwrap();
    assert_eq!(t.lookup(1, 1), Some((1, 1, MoveDir::Left)));
    assert_eq!(t.lookup(1, 2), None);
    assert_eq!(t.lookup(2, 1), None);
}

#[test]
fn decode_two_records() {
    let t = decode("01010101011001010100100").unwrap();
    assert_eq!(t.lookup(1, 1), Some((1, 1, MoveDir::Left)));
    assert_eq!(t.lookup(2, 1), Some((1, 2, MoveDir::Right)));
}

#[test]
fn decode_is_deterministic() {
    let text = "0101010101100101010010011000100100001010";
    let t1 = decode(text).unwrap();
    let t2 = decode(text).unwrap();
    assert!(t1.table_eq(&t2));
}

#[test]
fn decode_last_record_wins_on_duplicate_key() {
    // Both records carry the key (1, 1); the later one governs.
    let t = decode("01010101011010100100100").unwrap();
    assert_eq!(t.lookup(1, 1), Some((2, 2, MoveDir::Right)));
}

#[test]
fn decode_right_direction_two_zeros() {
    let t = decode("0101010100").unwrap();
    assert_eq!(t.lookup(1, 1), Some((1, 1, MoveDir::Right)));
}

#[test]
fn decode_unary_lengths_are_field_values() {
    // (3, 2) -> (4, 1, left)
    let t = decode("000100100001010").unwrap();
    assert_eq!(t.lookup(3, 2), Some((4, 1, MoveDir::Left)));
}

#[test]
fn decode_rejects_trailing_separator() {
    // The empty record after the trailing separator is the second record.
    let e = decode("01010101011").unwrap_err();
    assert_eq!(e.record_index, 1);
}

#[test]
fn decode_accepts_no_trailing_separator() {
    assert!(decode("010101010").is_ok());
}

#[test]
fn decode_rejects_empty_text() {
    let e = decode("").unwrap_err();
    assert_eq!(e.record_index, 0);
}

#[test]
fn decode_rejects_too_few_fields() {
    let e = decode("0101010").unwrap_err();
    assert_eq!(e.record_index, 0);
}

#[test]
fn decode_rejects_three_zero_direction() {
    assert!(decode("01010101000").is_err());
}

#[test]
fn decode_rejects_leading_one() {
    assert!(decode("101010100").is_err());
}

#[test]
fn decode_rejects_foreign_character() {
    assert!(decode("01a101010").is_err());
}

#[test]
fn decode_tolerates_no_whitespace() {
    assert!(decode(" 010101010").is_err());
    assert!(decode("010101010 ").is_err());
    assert!(decode("010101010\n").is_err());
}

#[test]
fn decode_names_first_bad_record() {
    // Second of three records is malformed.
    let e = decode("010101010110101101010100").unwrap_err();
    assert_eq!(e.record_index, 1);
}

#[test]
fn parse_transition_reads_all_five_fields() {
    let (key, step) = parse_transition("001000101000010").unwrap();
    assert_eq!(key, (2, 3));
    assert_eq!(step, (1, 4, MoveDir::Left));
}

#[test]
fn parse_transition_rejects_surplus_tail() {
    assert!(parse_transition("0101010101").is_none());
    assert!(parse_transition("010101010001").is_none());
}

#[test]
fn parse_tape_maps_digit_to_successor() {
    assert_eq!(parse_tape("0001000").unwrap(), vec![1, 1, 1, 2, 1, 1, 1]);
}

#[test]
fn parse_tape_all_digits() {
    assert_eq!(
        parse_tape("0123456789").unwrap(),
        vec![1, 2, 3, 4, 5, 6, 7, 8, 9, 10]
    );
}

#[test]
fn parse_tape_empty_is_ok() {
    assert_eq!(parse_tape("").unwrap(), Vec::<usize>::new());
}

#[test]
fn parse_tape_rejects_non_digit() {
    let e = parse_tape("12x4").unwrap_err();
    assert_eq!(e.index, 2);
}

#[test]
fn move_dir_from_zero_run() {
    assert_eq!(MoveDir::from_zero_run(1), Some(MoveDir::Left));
    assert_eq!(MoveDir::from_zero_run(2), Some(MoveDir::Right));
    assert_eq!(MoveDir::from_zero_run(0), None);
    assert_eq!(MoveDir::from_zero_run(3), None);
}

#[test]
fn move_dir_deltas_and_labels() {
    assert_eq!(MoveDir::Left.tape_ptr_move(), -1);
    assert_eq!(MoveDir::Right.tape_ptr_move(), 1);
    assert_eq!(MoveDir::Left.label(), "L");
    assert_eq!(MoveDir::Right.label(), "R");
}
