// Tests for the magnificent Minsky machine interpreter.

use minsky::magnificent::{interpret, ErrorCode, Machine, Program, Rule, TapeState};

#[test]
fn it_works() {
    assert_eq!(2 + 2, 4);
}

#[test]
fn test_basic() {
    let rule = Rule::new(0, 0, vec![-1, -2, 3, 4]);
    assert_eq!(rule.cur_state, 0);
    assert_eq!(rule.next_state, 0);
    assert_eq!(rule.rule, vec![-1, -2, 3, 4]);
}

#[test]
fn test_test_rule() {
    let tape_state: TapeState = TapeState(vec![2, 2]);
    let rule0 = Rule::new(0, 0, vec![0, -1]);
    let rule1 = Rule::new(0, 0, vec![0, 5]);
    let rule2 = Rule::new(0, 0, vec![2, 0]);
    let rule3 = Rule::new(0, 0, vec![3, 3]);
    let false_rule = Rule::new(0, 0, vec![-7, 0]);
    assert!(tape_state.test_rule(&rule0));
    assert!(tape_state.test_rule(&rule1));
    assert!(tape_state.test_rule(&rule2));
    assert!(tape_state.test_rule(&rule3));
    assert!(!tape_state.test_rule(&false_rule));
}

// A guard is satisfied exactly when the tape holds at least its magnitude,
// including the boundary case where the position equals the magnitude.
#[test]
fn test_guard_boundary() {
    let tape_state: TapeState = TapeState(vec![3]);
    assert!(tape_state.test_rule(&Rule::new(0, 0, vec![-3])));
    assert!(!tape_state.test_rule(&Rule::new(0, 0, vec![-4])));
    assert!(tape_state.test_rule(&Rule::new(0, 0, vec![-2])));
    let empty_tape: TapeState = TapeState(vec![0]);
    assert!(empty_tape.test_rule(&Rule::new(0, 0, vec![0])));
    assert!(!empty_tape.test_rule(&Rule::new(0, 0, vec![-1])));
    assert!(empty_tape.is_valid());
    assert!(!TapeState(vec![1, -1]).is_valid());
}

#[test]
fn test_move_tapes() {
    // Test moving backwards
    let mut tape_state: TapeState = TapeState(vec![2, 2]);
    let rule = Rule::new(0, 0, vec![-1, -1]);
    tape_state.apply_rule(&rule);
    assert_eq!(tape_state.0[0], 1);
    assert_eq!(tape_state.0[1], 1);

    // Test moving forwards
    let rule = Rule::new(0, 0, vec![1, 9]);
    tape_state.apply_rule(&rule);
    assert_eq!(tape_state.0[0], 2);
    assert_eq!(tape_state.0[1], 10);
}

#[test]
fn test_apply_rule() {
    let tape_state: TapeState = TapeState(vec![0, 0]);
    // Rule 0: no guard, no machine state transition
    let rule0 = Rule::new(0, 0, vec![1, 1]);
    // Rule 1: move tape 0 back 1, tape 1 forward 2, transition to new machine state
    let rule1 = Rule::new(0, 1, vec![-1, 2]);
    // Rule 2: move backwards only, preserve machine state
    let rule2 = Rule::new(1, 1, vec![-2, -2]);

    // Initial machine state
    let mut machine = Machine { machine_state: 0, tape_state };
    // tape_state: (0, 0), (1, 0), machine_state: 0
    assert_eq!(machine.machine_state, 0);
    assert_eq!(machine.tape_state.0, vec![0, 0]);

    // Rule 1 doesn't apply b/c of the guard
    assert!(!machine.apply_rule(&rule1));
    // Rule 2 doesn't apply b/c the machine state is wrong
    assert!(!machine.apply_rule(&rule2));
    // tape_state: [0, 0], machine_state: 0
    assert_eq!(machine.machine_state, 0);
    assert_eq!(machine.tape_state.0, vec![0, 0]);

    // Rule 0 always applies
    assert!(machine.apply_rule(&rule0));
    // tape_state: [1, 1], machine_state: 0
    assert_eq!(machine.machine_state, 0);
    assert_eq!(machine.tape_state.0, vec![1, 1]);

    assert!(machine.apply_rule(&rule0));
    assert_eq!(machine.machine_state, 0);
    assert_eq!(machine.tape_state.0, vec![2, 2]);

    assert!(machine.apply_rule(&rule0));
    assert!(machine.apply_rule(&rule0));

    // Try rule1:
    assert!(machine.apply_rule(&rule1));
    assert_eq!(machine.machine_state, 1);
    assert_eq!(machine.tape_state.0, vec![3, 6]);

    // Rule 1 doesn't apply anymore b/c we're in state 1
    assert!(!machine.apply_rule(&rule1));

    // Rule 2 applies:
    assert!(machine.apply_rule(&rule2));
    assert_eq!(machine.machine_state, 1);
    assert_eq!(machine.tape_state.0, vec![1, 4]);

    // Rule 2 doesn't apply anymore b/c tape 0 can't move back 2
    assert!(!machine.apply_rule(&rule2));
}

#[test]
fn test_interpret() {
    let rule0 = Rule::new(0, 0, vec![1, 1, -1]);
    let rule1 = Rule::new(0, 1, vec![0, -5, 0]);
    let rule2 = Rule::new(1, 1, vec![-1, 1, 2]);
    let program = Program::new(3, vec![rule0, rule1, rule2]);

    let machine = Machine { machine_state: 0, tape_state: TapeState(vec![0, 0, 5]) };

    // machine transitions:
    //   - rule 0 will fire 5 times, moving tape 0 and 1 ahead to 5 and tape 2 back to 0
    //   - rule 1 will then fire once, moving tape 1 to 5 and changing machine state to 1
    //   - rule 2 will then fire 5 times, moving tape 0 to 0, tape 1 to 5, and tape 2 to 10
    let end_machine = interpret(machine, &program, 1000);
    assert!(end_machine.is_ok());
    let (_, end_machine) = end_machine.unwrap();
    println!("end machine: {:?}", end_machine);
    assert_eq!(end_machine.machine_state, 1);
    assert_eq!(end_machine.tape_state.0, vec![0, 5, 10]);
}

// A program that always has an applicable rule never halts: with finite fuel
// the interpreter must stop with an out-of-fuel error, never hang.
#[test]
fn test_cycling_program_runs_out_of_fuel() {
    // the single rule has no guard, so its net effect on guard tapes is
    // trivially zero and it fires forever
    let rule = Rule::new(0, 0, vec![0, 0]);
    let program = Program::new(2, vec![rule]);
    let machine = Machine::new(0, vec![5, 5]);
    let outcome = interpret(machine, &program, 1000);
    assert!(matches!(outcome, Err(ErrorCode::OutOfFuel)));
}

// The same with a two-rule shuffle whose firings cancel out.
#[test]
fn test_shuffling_program_runs_out_of_fuel() {
    let rule0 = Rule::new(0, 1, vec![-1, 1]);
    let rule1 = Rule::new(1, 0, vec![1, -1]);
    let program = Program::new(2, vec![rule0, rule1]);
    let machine = Machine::new(0, vec![1, 0]);
    let outcome = interpret(machine, &program, 12345);
    assert!(matches!(outcome, Err(ErrorCode::OutOfFuel)));
}
