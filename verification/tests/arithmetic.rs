// Tests for the adder and multiplier machines.

use minsky::arith::{adder, mult};
use minsky::magnificent::{interpret, Machine, Program, Rule};

#[test]
fn add_x_y() {
    for x in 1..10 {
        for y in 1..10 {
            assert_eq!(adder(x, y), x + y);
        }
    }
}

#[test]
fn mult_x_y() {
    for x in 1..10 {
        for y in 1..10 {
            assert_eq!(mult(x, y), x * y);
        }
    }
}

#[test]
fn big_mult() {
    assert_eq!(mult(100, 100), 10_000); // 20200 steps
}

// The adder on [1, 1] reaches 2 on tape 0; the single rule fires once per
// unit on tape 1, so exactly one firing happens.
#[test]
fn adder_one_one() {
    let rule = Rule::new(0, 0, vec![1, -1]);
    let program = Program::new(2, vec![rule]);
    let machine = Machine::new(0, vec![1, 1]);
    let end = interpret(machine, &program, 100);
    assert!(end.is_ok());
    let (steps, end) = end.unwrap();
    assert_eq!(steps, 1);
    assert_eq!(end.tape_pos(0), 2);
}

#[test]
fn adder_hundred_eleven() {
    assert_eq!(adder(100, 11), 111);
}

// The big multiplication stays within the documented step bound.
#[test]
fn big_mult_step_count() {
    let rule0 = Rule::new(0, 0, vec![1, -1, 1, 0]);
    let rule1 = Rule::new(0, 1, vec![0, 0, 0, 0]);
    let rule2 = Rule::new(1, 1, vec![0, 1, -1, 0]);
    let rule3 = Rule::new(1, 0, vec![0, 0, 0, -1]);
    let program = Program::new(4, vec![rule0, rule1, rule2, rule3]);
    let machine = Machine::new(0, vec![0, 100, 0, 99]);
    let end = interpret(machine, &program, 20202);
    assert!(end.is_ok());
    let (steps, end) = end.unwrap();
    assert!(steps <= 20201);
    assert_eq!(end.tape_pos(0), 10_000);
}

// An alternate six-rule, four-tape multiplier, started from [0, x, y, 0],
// agrees with the four-rule construction.
#[test]
fn six_rule_mult_agrees() {
    let x = 7;
    let y = 11;
    let rule0 = Rule::new(0, 1, vec![0, 0, -1, 0]);
    let rule1 = Rule::new(0, 3, vec![0, 0, 0, 0]);
    let rule2 = Rule::new(1, 1, vec![1, -1, 0, 1]);
    let rule3 = Rule::new(1, 2, vec![0, 0, 0, 0]);
    let rule4 = Rule::new(2, 2, vec![0, 1, 0, -1]);
    let rule5 = Rule::new(2, 0, vec![0, 0, 0, 0]);
    let program = Program::new(4, vec![rule0, rule1, rule2, rule3, rule4, rule5]);
    let machine = Machine::new(0, vec![0, x, y, 0]);
    let end = interpret(machine, &program, 1000);
    assert!(end.is_ok());
    let (_, end) = end.unwrap();
    assert_eq!(end.tape_pos(0), x * y);
    assert_eq!(end.tape_pos(0), mult(x, y));
}
