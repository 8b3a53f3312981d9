use turing::decoder::decode;
use turing::encoder::encode;
use turing::table::MoveDir;
use turing::table::TransTable;

#[test]
fn encode_writes_the_unary_text() {
    let mut t = TransTable::new();
    t.insert((1, 1), (1, 1, MoveDir::Left));
    assert_eq!(encode(&t).unwrap(), "010101010");
}

#[test]
fn encode_joins_records_with_separator() {
    let mut t = TransTable::new();
    t.insert((1, 1), (1, 1, MoveDir::Left));
    t.insert((2, 1), (1, 2, MoveDir::Right));
    assert_eq!(encode(&t).unwrap(), "01010101011001010100100");
}

#[test]
fn hand_built_table_round_trips() {
    let mut t = TransTable::new();
    t.insert((1, 1), (2, 3, MoveDir::Right));
    t.insert((2, 3), (2, 1, MoveDir::Left));
    t.insert((1, 2), (4, 4, MoveDir::Right));
    let text = encode(&t).unwrap();
    let back = decode(&text).unwrap();
    assert!(t.table_eq(&back));
    assert_eq!(back.lookup(1, 1), Some((2, 3, MoveDir::Right)));
    assert_eq!(back.lookup(2, 3), Some((2, 1, MoveDir::Left)));
    assert_eq!(back.lookup(1, 2), Some((4, 4, MoveDir::Right)));
}

#[test]
fn decoded_table_round_trips_through_text() {
    let text = "0101010101100101010010011000100100001010";
    let t = decode(text).unwrap();
    let again = decode(&encode(&t).unwrap()).unwrap();
    assert!(t.table_eq(&again));
}

#[test]
fn duplicate_key_round_trips_to_last_entry() {
    let mut t = TransTable::new();
    t.insert((1, 1), (1, 1, MoveDir::Left));
    t.insert((1, 1), (2, 2, MoveDir::Right));
    let back = decode(&encode(&t).unwrap()).unwrap();
    assert!(t.table_eq(&back));
    assert_eq!(back.lookup(1, 1), Some((2, 2, MoveDir::Right)));
}

#[test]
fn empty_table_has_no_encoding() {
    assert!(encode(&TransTable::new()).is_none());
}

#[test]
fn zero_field_has_no_encoding() {
    let mut t = TransTable::new();
    t.insert((0, 1), (1, 1, MoveDir::Left));
    assert!(encode(&t).is_none());
}

#[test]
fn tables_with_different_actions_compare_unequal() {
    let a = decode("010101010").unwrap();
    let b = decode("0101010100").unwrap();
    let c = decode("010101010").unwrap();
    assert!(!a.table_eq(&b));
    assert!(a.table_eq(&c));
    assert!(!b.table_eq(&c));
}
