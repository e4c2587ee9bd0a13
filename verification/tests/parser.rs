// Tests for the program text parser and the structural validator.

use minsky::m3_parser::{parse_m3, validate_raw_program};
use minsky::magnificent::{interpret, Machine, Program, Rule};

#[test]
pub fn test_parse_m3() {
    let input = r"
            tapes: 2
            0 [1, -1] 0";
    let program = parse_m3(input).expect("m3 parser failed");
    validate_raw_program(&program).expect("Invalid program");
    assert_eq!(program.num_tapes(), 2);
    let mut rules_iter = program.iter();
    assert_eq!(rules_iter.next().unwrap(), &Rule::new(0, 0, vec![1, -1]));

    let input = r"
            tapes: 3
            0 [1, -1, 2] 1
            1 [0, 1, 0] 2";
    let program = parse_m3(input).expect("m3 parser failed");
    validate_raw_program(&program).expect("Invalid program");
    assert_eq!(program.num_tapes(), 3);

    let mut rules_iter = program.iter();
    assert_eq!(rules_iter.next().unwrap(), &Rule::new(0, 1, vec![1, -1, 2]));
    assert_eq!(rules_iter.next().unwrap(), &Rule::new(1, 2, vec![0, 1, 0]));

    let input = r"
            tapes: 5
            0 [1, 2, 3, 4, 5] 1
            1 [-1, 2, 3, 4, 5] 2
            2 [-1, -2, 3, 4, 5] 0
            0 [0, 0, 0, 4, 5] 4
            4 [1, 2, 3, -4, -5] 5
            5 [1, 2, 3, 0, 0] 0
            ";
    let program = parse_m3(input).expect("m3 parser failed");
    validate_raw_program(&program).expect("Invalid program");
}

// A malformed tapes declaration is rejected.
#[test]
#[should_panic(expected = "m3 parser failed")]
pub fn test_bad_parse1() {
    let input = r"
            tape 3
            0 [1, -1, 2] 1";
    let program = parse_m3(input).expect("m3 parser failed");
    validate_raw_program(&program).expect("Invalid program");
}

// A rule with a missing next state is rejected.
#[test]
#[should_panic(expected = "m3 parser failed")]
pub fn test_bad_parse2() {
    let input = r"
            tapes: 3
            0 [1, -1, 2]";
    let program = parse_m3(input).expect("m3 parser failed");
    validate_raw_program(&program).expect("Invalid program");
}

// A rule whose width disagrees with the declared tape count parses but does
// not validate.
#[test]
#[should_panic(expected = "Invalid program")]
pub fn test_bad_parse3() {
    let input = r"
            tapes: 1
            0 [1, -1, 2, 0] 0";
    let program = parse_m3(input).unwrap();
    validate_raw_program(&program).expect("Invalid program");
}

// The validator accepts exactly the programs whose rules all have the
// declared width; rejection names the first offending rule and both widths.
#[test]
fn test_validate() {
    let good = Program::new(2, vec![Rule::new(0, 0, vec![1, -1]), Rule::new(0, 1, vec![0, 0])]);
    assert!(validate_raw_program(&good).is_ok());
    let bad = Program::new(2, vec![Rule::new(0, 0, vec![1, -1]), Rule::new(0, 1, vec![0])]);
    assert_eq!(validate_raw_program(&bad).unwrap_err(), "rule 1 has width 1, expected width 2");
    let bad2 = Program::new(1, vec![Rule::new(0, 0, vec![1, -1, 2, 0])]);
    assert_eq!(
        validate_raw_program(&bad2).unwrap_err(),
        "rule 0 has width 4, expected width 1",
    );
    let empty = Program::new(3, vec![]);
    assert!(validate_raw_program(&empty).is_ok());
}

// The raw parse shape carries the text's numbers as written, states signed.
#[test]
fn test_raw_shapes() {
    let raw = minsky::m3_ast::RawProgram {
        num_tapes: 2,
        rules: vec![minsky::m3_ast::RawRule { cur_state: 0, next_state: 1, rule: vec![1, -1] }],
    };
    assert_eq!(raw.num_tapes, 2);
    assert_eq!(raw.rules[0].cur_state, 0);
    assert_eq!(raw.rules[0].next_state, 1);
    assert_eq!(raw.rules[0].rule, vec![1, -1]);
}

// An adjustment outside the signed 32-bit range is rejected; states up to
// the machine word are accepted.
#[test]
fn test_parse_limits() {
    assert!(parse_m3("tapes: 1\n0 [2147483647] 0").is_ok());
    assert!(parse_m3("tapes: 1\n0 [-2147483648] 0").is_ok());
    assert!(parse_m3("tapes: 1\n0 [2147483648] 0").is_err());
    assert!(parse_m3("tapes: 1\n0 [-2147483649] 0").is_err());
    assert!(parse_m3("tapes: 1\n0 [99999999999999999999999999] 0").is_err());
    assert!(parse_m3("tapes: 1\n99999999999999999999999999 [0] 0").is_err());
}

// A parsed program behaves as written: the parsed adder adds.
#[test]
fn test_parse_and_run() {
    let program = parse_m3("tapes: 2\n0 [1, -1] 0").expect("m3 parser failed");
    validate_raw_program(&program).expect("Invalid program");
    let machine = Machine::new(0, vec![1, 3]);
    let end = interpret(machine, &program, 100);
    assert!(end.is_ok());
    let (_, end) = end.unwrap();
    assert_eq!(end.tape_pos(0), 4);
}
