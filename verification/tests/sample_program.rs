use turing::decoder::decode;
use turing::decoder::parse_tape;
use turing::machine::TuringM;

const SAMPLE_PROGRAM: &str = "01010100001001101000001010000100110100100010010011000100100010010011000101000010010110000100100001001011000001000010000010000101100001000010000010000010110000010100000101011000001000100000010100110000001000010000001000010011000000100000100001000001011000000101000000101001100001010000101001100000001001000000010001011000000010000100000001000101100000001010010100110001000100000001000101100001000001010000100";

#[test]
fn sample_program_runs_to_accepting_halt() {
    let table = decode(SAMPLE_PROGRAM).unwrap();
    let mut m = TuringM::new(parse_tape("00010000").unwrap(), table);
    m.run_to_halt();
    let out = m.outcome();
    assert_eq!(out.state, 2);
    assert_eq!(out.steps, 250);
    assert!(out.accepting);
    assert_eq!(
        out.tape,
        vec![1, 1, 1, 1, 1, 1, 1, 1, 1, 1, 1, 1, 3, 3, 3, 3, 3, 3, 3, 3, 3]
    );
}
