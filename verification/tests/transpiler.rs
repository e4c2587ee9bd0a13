// Tests for the marvellous transpiler.

use minsky::magnificent::{interpret, Machine, Program, Rule};
use minsky::marvellous::transpile;

// A transpiled program has the expected number of tapes and rules.
#[test]
fn simple_transpile() {
    let rule0 = Rule::new(0, 0, vec![1, 1, -1]);
    let rule1 = Rule::new(0, 1, vec![0, -5, 0]);
    let rule2 = Rule::new(1, 1, vec![-1, 1, 2]);
    let program = Program::new(3, vec![rule0, rule1, rule2]);
    let marv_program = transpile(&program);
    let new_num_tapes = 3 + 2 * 2; // 3 orig tapes + 2*2 orig states
    let new_num_rules = 2 + 1 + 2; // 2 for first orig rule, 1 for 2nd, 2 for 3rd
    assert_eq!(marv_program.num_tapes(), new_num_tapes);
    assert_eq!(marv_program.num_rules(), new_num_rules);
    for rule in marv_program.iter() {
        assert_eq!(rule.len(), new_num_tapes);
    }
}

// The transpiled adder program computes the same sum.
#[test]
fn transpile_equivalent_adder() {
    let rule = Rule::new(0, 0, vec![1, -1]);
    let program = Program::new(2, vec![rule]);
    let x = 4;
    let y = 5;

    let marv_program = transpile(&program);
    let marv_machine = Machine::new(0, vec![x, y, 1, 0]);

    let end_machine = interpret(marv_machine, &marv_program, 100);
    assert!(end_machine.is_ok());
    let (_, end_machine) = end_machine.unwrap();
    assert_eq!(end_machine.tape_pos(0), x + y);
}

// The transpiled multiplier program computes the same product.
#[test]
fn transpile_equivalent_mult() {
    let x = 3;
    let y = 11;
    let rule0 = Rule::new(0, 0, vec![1, -1, 1, 0]);
    let rule1 = Rule::new(0, 1, vec![0, 0, 0, 0]);
    let rule2 = Rule::new(1, 1, vec![0, 1, -1, 0]);
    let rule3 = Rule::new(1, 0, vec![0, 0, 0, -1]);
    let magnificent_program = Program::new(4, vec![rule0, rule1, rule2, rule3]);
    let marvellous_program = transpile(&magnificent_program);
    let machine = Machine::new(0, vec![0, x, 0, y - 1, 1, 0, 0, 0]);

    let end_machine = interpret(machine, &marvellous_program, 1000);
    assert!(end_machine.is_ok());
    assert_eq!(end_machine.unwrap().1.tape_pos(0), x * y);
}

// The translated rules carry exactly the documented adjustments: a
// self-loop rule of a two-state program becomes the copied adjustments with
// a guard on its active flag and an action on its relay, followed by the
// bookkeeping rule that moves the relay back; a transition rule becomes one
// rule moving the active flag.
#[test]
fn transpile_exact_rules() {
    let rule0 = Rule::new(0, 0, vec![-1, 2]);
    let rule1 = Rule::new(0, 1, vec![1, 1]);
    let program = Program::new(2, vec![rule0, rule1]);
    let marv = transpile(&program);
    assert_eq!(marv.num_tapes(), 6);
    assert_eq!(marv.num_rules(), 3);
    let mut rules = marv.iter();
    assert_eq!(rules.next().unwrap(), &Rule::new(0, 0, vec![-1, 2, -1, 1, 0, 0]));
    assert_eq!(rules.next().unwrap(), &Rule::new(0, 0, vec![0, 0, 1, -1, 0, 0]));
    assert_eq!(rules.next().unwrap(), &Rule::new(0, 0, vec![1, 1, -1, 0, 1, 0]));
    assert!(rules.next().is_none());
}

// A transpiled self-loop rule becomes two rules, a transition rule one; the
// translated adder halts on exactly the original tape values plus the
// bookkeeping tapes.
#[test]
fn transpile_structure() {
    // two states, one self-loop and two transitions
    let rule0 = Rule::new(0, 0, vec![1, -1]);
    let rule1 = Rule::new(0, 7, vec![0, 0]);
    let rule2 = Rule::new(7, 0, vec![0, -1]);
    let program = Program::new(2, vec![rule0, rule1, rule2]);
    let marv = transpile(&program);
    assert_eq!(marv.num_tapes(), 2 + 2 * 2);
    assert_eq!(marv.num_rules(), 2 + 1 + 1);
    for rule in marv.iter() {
        assert_eq!(rule.cur_state(), 0);
        assert_eq!(rule.next_state(), 0);
        assert_eq!(rule.len(), 6);
    }
}
