//! Basic magnificent Minsky machines performing arithmetic: an adder and two
//! multiplier constructions, each proved to compute its result for every
//! allowed input.

use crate::magnificent::{
    add_steps, apply_adj, apply_to, can_apply, fires, interpret, lemma_run_unfold, run,
    run_bounded, scan, tapes_bounded, Config, Machine, ProgModel, Program, Rule, RuleModel,
    RunOutcome,
};
use vstd::prelude::*;

verus! {

//////////////////////////////////////////////////////////////////////////////
// The adder

/// The two-tape adder program: a single self-loop rule in state 0 that moves
/// one unit from tape 1 to tape 0.
pub open spec fn adder_prog() -> ProgModel {
    ProgModel { tapes: 2, rules: seq![RuleModel { cur: 0, next: 0, adj: seq![1int, -1int] }] }
}

/// An adder configuration: state 0, tape positions `a` and `b`.
pub open spec fn adder_cfg(a: int, b: int) -> Config {
    Config { state: 0, tapes: seq![a, b] }
}

/// The adder run from tapes `[a, b]` halts after exactly `b` firings with
/// tapes `[a + b, 0]`: each firing moves one unit from tape 1 to tape 0 and
/// the guard stops the rule when tape 1 is exhausted.
pub proof fn lemma_adder_run(a: int, b: int, budget: nat)
    requires
        a >= 0,
        b >= 0,
        b == 0 || budget > b,
    ensures
        run(adder_prog(), adder_cfg(a, b), budget) == (RunOutcome::Halted {
            steps: b as nat,
            end: adder_cfg(a + b, 0),
        }),
        a + b <= i32::MAX ==> run_bounded(adder_prog(), adder_cfg(a, b), budget),
    decreases b,
{
    let p = adder_prog();
    let c = adder_cfg(a, b);
    let r = p.rules[0];
    assert(p.rules.drop_first().len() == 0);
    if b == 0 {
        assert(!(r.adj[1] >= 0 || c.tapes[1] >= -r.adj[1]));
        assert(!can_apply(c.tapes, r.adj));
        assert(scan(p.rules.drop_first(), c) is None);
        assert(scan(p.rules, c) is None);
        assert(run(p, c, budget) == (RunOutcome::Halted { steps: 0nat, end: c }));
        assert(c =~= adder_cfg(a + b, 0));
    } else {
        assert forall|i: int| 0 <= i < r.adj.len() implies #[trigger] r.adj[i] >= 0 || c.tapes[i]
            >= -r.adj[i] by {}
        assert(fires(c, r));
        assert(scan(p.rules, c) == Some(r));
        let c2 = apply_to(c, r);
        assert(c2 =~= adder_cfg(a + 1, b - 1));
        lemma_adder_run(a + 1, b - 1, (budget - 1) as nat);
        assert(run(p, c, budget) == add_steps(run(p, c2, (budget - 1) as nat), 1));
        if a + b <= i32::MAX {
            assert(tapes_bounded(c2.tapes));
        }
    }
}

/// Runs a two-tape adder machine on `x` and `y`: tape 1 is drained into
/// tape 0, so the machine halts with tape 0 holding `x + y`.
pub fn adder(x: i32, y: i32) -> (sum: i32)
    requires
        x >= 0,
        y >= 0,
        x + y <= i32::MAX,
    ensures
        sum == x + y,
{
    let rule = Rule::new(0, 0, vec![1, -1]);
    let program = Program::new(2, vec![rule]);
    let machine = Machine::new(0, vec![x, y]);
    let fuel: u64 = 2 * (y as u64);
    proof {
        assert(program@.rules[0].adj =~= seq![1int, -1int]);
        assert(program@.rules =~= adder_prog().rules);
        assert(program@ =~= adder_prog());
        assert(machine@.tapes =~= adder_cfg(x as int, y as int).tapes);
        assert(machine@ =~= adder_cfg(x as int, y as int));
        lemma_adder_run(x as int, y as int, fuel as nat);
    }

    // the rule fires y times, moving tape 0 to x+y and tape 1 to 0
    let end_machine = interpret(machine, &program, fuel);
    assert(end_machine.is_ok());
    let end_machine = end_machine.unwrap().1;
    proof {
        assert(end_machine@ == adder_cfg(x + y, 0));
    }
    end_machine.tape_pos(0)
}

//////////////////////////////////////////////////////////////////////////////
// The multiplier

/// The four-rule, four-tape multiplier program. From state 0 the first rule
/// drains tape 1 into tapes 0 and 2; the second rule then switches to
/// state 1, where the third rule drains tape 2 back into tape 1; the fourth
/// rule consumes one unit of tape 3 and returns to state 0 for another
/// round, until tape 3 is exhausted.
pub open spec fn mult_prog() -> ProgModel {
    ProgModel {
        tapes: 4,
        rules: seq![
            RuleModel { cur: 0, next: 0, adj: seq![1int, -1int, 1int, 0int] },
            RuleModel { cur: 0, next: 1, adj: seq![0int, 0int, 0int, 0int] },
            RuleModel { cur: 1, next: 1, adj: seq![0int, 1int, -1int, 0int] },
            RuleModel { cur: 1, next: 0, adj: seq![0int, 0int, 0int, -1int] },
        ],
    }
}

/// A multiplier configuration.
pub open spec fn mult_cfg(st: nat, a: int, b: int, c: int, d: int) -> Config {
    Config { state: st, tapes: seq![a, b, c, d] }
}

/// The number of firings of a multiplier run from state 0 and tapes
/// `[_, b, c, d]`: `b` firings of the first rule, one of the second,
/// `b + c` of the third, and, when tape 3 is not exhausted, one of the
/// fourth before the next round.
pub open spec fn mult_steps(b: int, c: int, d: int) -> int
    decreases d,
{
    b + 1 + (b + c) + if d >= 1 {
        1 + mult_steps(b + c, 0, d - 1)
    } else {
        0
    }
}

/// A multiplier round always fires at least its first three phases.
proof fn lemma_mult_steps_low(b: int, c: int, d: int)
    requires
        b >= 0,
        c >= 0,
        d >= 0,
    ensures
        mult_steps(b, c, d) >= b + 1 + (b + c) + if d >= 1 { 1int } else { 0int },
    decreases d,
{
    if d >= 1 {
        lemma_mult_steps_low(b + c, 0, d - 1);
    }
}

/// The step the multiplier takes from state 0: the first rule fires while
/// tape 1 is not exhausted, then the second rule switches to state 1.
proof fn lemma_mult_step0(a: int, b: int, c: int, d: int)
    ensures
        b >= 1 ==> scan(mult_prog().rules, mult_cfg(0, a, b, c, d)) == Some(mult_prog().rules[0])
            && apply_to(mult_cfg(0, a, b, c, d), mult_prog().rules[0]) == mult_cfg(
            0,
            a + 1,
            b - 1,
            c + 1,
            d,
        ),
        b < 1 ==> scan(mult_prog().rules, mult_cfg(0, a, b, c, d)) == Some(mult_prog().rules[1])
            && apply_to(mult_cfg(0, a, b, c, d), mult_prog().rules[1]) == mult_cfg(1, a, b, c, d),
{
    let rules = mult_prog().rules;
    let c0 = mult_cfg(0, a, b, c, d);
    let rest1 = rules.drop_first();
    assert(rest1[0] == rules[1]);
    if b >= 1 {
        assert forall|i: int| 0 <= i < rules[0].adj.len() implies #[trigger] rules[0].adj[i] >= 0
            || c0.tapes[i] >= -rules[0].adj[i] by {}
        assert(fires(c0, rules[0]));
        assert(scan(rules, c0) == Some(rules[0]));
        assert(apply_to(c0, rules[0]).tapes =~= mult_cfg(0, a + 1, b - 1, c + 1, d).tapes);
        assert(apply_to(c0, rules[0]) =~= mult_cfg(0, a + 1, b - 1, c + 1, d));
    } else {
        assert(!(rules[0].adj[1] >= 0 || c0.tapes[1] >= -rules[0].adj[1]));
        assert(!can_apply(c0.tapes, rules[0].adj));
        assert(!fires(c0, rules[0]));
        assert forall|i: int| 0 <= i < rules[1].adj.len() implies #[trigger] rules[1].adj[i] >= 0
            || c0.tapes[i] >= -rules[1].adj[i] by {}
        assert(fires(c0, rules[1]));
        assert(fires(c0, rest1[0]));
        assert(scan(rest1, c0) == Some(rules[1]));
        assert(scan(rules, c0) == scan(rest1, c0));
        assert(apply_to(c0, rules[1]).tapes =~= mult_cfg(1, a, b, c, d).tapes);
        assert(apply_to(c0, rules[1]) =~= mult_cfg(1, a, b, c, d));
    }
}

/// The step the multiplier takes from state 1: the third rule fires while
/// tape 2 is not exhausted, then the fourth rule fires if tape 3 is not
/// exhausted; with both exhausted the machine halts.
proof fn lemma_mult_step1(a: int, b: int, c: int, d: int)
    ensures
        c >= 1 ==> scan(mult_prog().rules, mult_cfg(1, a, b, c, d)) == Some(mult_prog().rules[2])
            && apply_to(mult_cfg(1, a, b, c, d), mult_prog().rules[2]) == mult_cfg(
            1,
            a,
            b + 1,
            c - 1,
            d,
        ),
        c < 1 && d >= 1 ==> scan(mult_prog().rules, mult_cfg(1, a, b, c, d)) == Some(
            mult_prog().rules[3],
        ) && apply_to(mult_cfg(1, a, b, c, d), mult_prog().rules[3]) == mult_cfg(
            0,
            a,
            b,
            c,
            d - 1,
        ),
        c < 1 && d < 1 ==> scan(mult_prog().rules, mult_cfg(1, a, b, c, d)) is None,
{
    let rules = mult_prog().rules;
    let c1 = mult_cfg(1, a, b, c, d);
    let rest1 = rules.drop_first();
    let rest2 = rest1.drop_first();
    let rest3 = rest2.drop_first();
    assert(rest1[0] == rules[1]);
    assert(rest2[0] == rules[2]);
    assert(rest3[0] == rules[3]);
    assert(rest3.drop_first().len() == 0);
    assert(!fires(c1, rules[0]));
    assert(!fires(c1, rules[1]));
    if c >= 1 {
        assert forall|i: int| 0 <= i < rules[2].adj.len() implies #[trigger] rules[2].adj[i] >= 0
            || c1.tapes[i] >= -rules[2].adj[i] by {}
        assert(fires(c1, rules[2]));
        assert(fires(c1, rest2[0]));
        assert(scan(rest2, c1) == Some(rules[2]));
        assert(scan(rest1, c1) == scan(rest2, c1));
        assert(scan(rules, c1) == scan(rest1, c1));
        assert(apply_to(c1, rules[2]).tapes =~= mult_cfg(1, a, b + 1, c - 1, d).tapes);
        assert(apply_to(c1, rules[2]) =~= mult_cfg(1, a, b + 1, c - 1, d));
    } else {
        assert(!(rules[2].adj[2] >= 0 || c1.tapes[2] >= -rules[2].adj[2]));
        assert(!can_apply(c1.tapes, rules[2].adj));
        assert(!fires(c1, rules[2]));
        if d >= 1 {
            assert forall|i: int| 0 <= i < rules[3].adj.len() implies #[trigger] rules[3].adj[i]
                >= 0 || c1.tapes[i] >= -rules[3].adj[i] by {}
            assert(fires(c1, rules[3]));
            assert(fires(c1, rest3[0]));
            assert(scan(rest3, c1) == Some(rules[3]));
            assert(scan(rest2, c1) == scan(rest3, c1));
            assert(scan(rest1, c1) == scan(rest2, c1));
            assert(scan(rules, c1) == scan(rest1, c1));
            assert(apply_to(c1, rules[3]).tapes =~= mult_cfg(0, a, b, c, d - 1).tapes);
            assert(apply_to(c1, rules[3]) =~= mult_cfg(0, a, b, c, d - 1));
        } else {
            assert(!(rules[3].adj[3] >= 0 || c1.tapes[3] >= -rules[3].adj[3]));
            assert(!can_apply(c1.tapes, rules[3].adj));
            assert(!fires(c1, rules[3]));
            assert(scan(rest3.drop_first(), c1) is None);
            assert(scan(rest3, c1) is None);
            assert(scan(rest2, c1) == scan(rest3, c1));
            assert(scan(rest1, c1) == scan(rest2, c1));
            assert(scan(rules, c1) == scan(rest1, c1));
        }
    }
}

/// The first multiplier phase: from state 0 the first rule drains tape 1
/// into tapes 0 and 2, one firing per unit.
proof fn lemma_mult_r0(a: int, b: int, c: int, d: int, budget: nat)
    requires
        a >= 0,
        b >= 0,
        c >= 0,
        d >= 0,
        budget > b,
        a + b <= i32::MAX,
        c + b <= i32::MAX,
        d <= i32::MAX,
    ensures
        run(mult_prog(), mult_cfg(0, a, b, c, d), budget) == add_steps(
            run(mult_prog(), mult_cfg(0, a + b, 0, c + b, d), (budget - b) as nat),
            b as nat,
        ),
        run_bounded(mult_prog(), mult_cfg(0, a + b, 0, c + b, d), (budget - b) as nat)
            ==> run_bounded(mult_prog(), mult_cfg(0, a, b, c, d), budget),
    decreases b,
{
    let p = mult_prog();
    if b == 0 {
        crate::magnificent::lemma_add_steps_zero(
            run(p, mult_cfg(0, a, b, c, d), budget),
        );
    } else {
        lemma_mult_step0(a, b, c, d);
        let c2 = mult_cfg(0, a + 1, b - 1, c + 1, d);
        lemma_run_unfold(p, mult_cfg(0, a, b, c, d), c2, budget);
        lemma_mult_r0(a + 1, b - 1, c + 1, d, (budget - 1) as nat);
        crate::magnificent::lemma_add_steps_compose(
            run(p, mult_cfg(0, a + b, 0, c + b, d), (budget - b) as nat),
            (b - 1) as nat,
            1,
        );
        assert(tapes_bounded(c2.tapes));
    }
}

/// The second multiplier phase: with tape 1 exhausted, the second rule
/// switches the machine to state 1 in one firing.
proof fn lemma_mult_r1(a: int, c: int, d: int, budget: nat)
    requires
        a >= 0,
        c >= 0,
        d >= 0,
        budget > 1,
        a <= i32::MAX,
        c <= i32::MAX,
        d <= i32::MAX,
    ensures
        run(mult_prog(), mult_cfg(0, a, 0, c, d), budget) == add_steps(
            run(mult_prog(), mult_cfg(1, a, 0, c, d), (budget - 1) as nat),
            1,
        ),
        run_bounded(mult_prog(), mult_cfg(1, a, 0, c, d), (budget - 1) as nat) ==> run_bounded(
            mult_prog(),
            mult_cfg(0, a, 0, c, d),
            budget,
        ),
{
    lemma_mult_step0(a, 0, c, d);
    let c2 = mult_cfg(1, a, 0, c, d);
    lemma_run_unfold(mult_prog(), mult_cfg(0, a, 0, c, d), c2, budget);
    assert(tapes_bounded(c2.tapes));
}

/// The third multiplier phase: in state 1 the third rule drains tape 2 back
/// into tape 1, one firing per unit.
proof fn lemma_mult_r2(a: int, b: int, c: int, d: int, budget: nat)
    requires
        a >= 0,
        b >= 0,
        c >= 0,
        d >= 0,
        budget > c,
        a <= i32::MAX,
        b + c <= i32::MAX,
        d <= i32::MAX,
    ensures
        run(mult_prog(), mult_cfg(1, a, b, c, d), budget) == add_steps(
            run(mult_prog(), mult_cfg(1, a, b + c, 0, d), (budget - c) as nat),
            c as nat,
        ),
        run_bounded(mult_prog(), mult_cfg(1, a, b + c, 0, d), (budget - c) as nat)
            ==> run_bounded(mult_prog(), mult_cfg(1, a, b, c, d), budget),
    decreases c,
{
    let p = mult_prog();
    if c == 0 {
        crate::magnificent::lemma_add_steps_zero(
            run(p, mult_cfg(1, a, b, c, d), budget),
        );
    } else {
        lemma_mult_step1(a, b, c, d);
        let c2 = mult_cfg(1, a, b + 1, c - 1, d);
        lemma_run_unfold(p, mult_cfg(1, a, b, c, d), c2, budget);
        lemma_mult_r2(a, b + 1, c - 1, d, (budget - 1) as nat);
        crate::magnificent::lemma_add_steps_compose(
            run(p, mult_cfg(1, a, b + c, 0, d), (budget - c) as nat),
            (c - 1) as nat,
            1,
        );
        assert(tapes_bounded(c2.tapes));
    }
}

/// The multiplier run from state 0 and tapes `[a, b, c, d]` halts in state 1
/// with tapes `[a + b + (b + c) * d, b + c, 0, 0]` after exactly
/// `mult_steps(b, c, d)` firings, and every tape position along the way fits
/// in `i32`.
pub proof fn lemma_mult_run(a: int, b: int, c: int, d: int, budget: nat)
    requires
        a >= 0,
        b >= 0,
        c >= 0,
        d >= 0,
        budget > mult_steps(b, c, d),
        a + b + (b + c) * d <= i32::MAX,
        b + c <= i32::MAX,
        d <= i32::MAX,
    ensures
        run(mult_prog(), mult_cfg(0, a, b, c, d), budget) == (RunOutcome::Halted {
            steps: mult_steps(b, c, d) as nat,
            end: mult_cfg(1, a + b + (b + c) * d, b + c, 0, 0),
        }),
        run_bounded(mult_prog(), mult_cfg(0, a, b, c, d), budget),
    decreases d,
{
    let p = mult_prog();
    lemma_mult_steps_low(b, c, d);
    assert((b + c) * d >= 0) by (nonlinear_arith)
        requires
            b + c >= 0,
            d >= 0,
    ;
    lemma_mult_r0(a, b, c, d, budget);
    let bud1 = (budget - b) as nat;
    lemma_mult_r1(a + b, c + b, d, bud1);
    let bud2 = (bud1 - 1) as nat;
    lemma_mult_r2(a + b, 0, c + b, d, bud2);
    let bud3 = (bud2 - (c + b)) as nat;
    let c_end = mult_cfg(1, a + b, b + c, 0, d);
    assert(mult_cfg(1, a + b, 0 + (c + b), 0, d) =~= c_end);
    if d == 0 {
        lemma_mult_step1(a + b, b + c, 0, 0);
        assert(scan(p.rules, c_end) is None);
        assert(run(p, c_end, bud3) == (RunOutcome::Halted { steps: 0nat, end: c_end }));
        assert(run_bounded(p, c_end, bud3));
        assert(a + b + (b + c) * 0 == a + b) by (nonlinear_arith);
        assert(c_end =~= mult_cfg(1, a + b + (b + c) * d, b + c, 0, 0));
        crate::magnificent::lemma_add_steps_compose(
            run(p, c_end, bud3),
            0,
            (c + b) as nat,
        );
        crate::magnificent::lemma_add_steps_compose(
            run(p, mult_cfg(1, a + b, 0, c + b, d), bud2),
            ((c + b) + 0) as nat,
            1,
        );
        crate::magnificent::lemma_add_steps_compose(
            run(p, mult_cfg(0, a + b, 0, c + b, d), bud1),
            ((c + b) + 1) as nat,
            b as nat,
        );
        assert(mult_steps(b, c, d) == b + 1 + (b + c));
    } else {
        lemma_mult_step1(a + b, b + c, 0, d);
        let c_next = mult_cfg(0, a + b, b + c, 0, d - 1);
        lemma_mult_steps_low(b + c, 0, d - 1);
        assert(bud3 > 1 + mult_steps(b + c, 0, d - 1));
        lemma_run_unfold(p, c_end, c_next, bud3);
        let bud4 = (bud3 - 1) as nat;
        assert((a + b) + (b + c) + ((b + c) + 0) * (d - 1) == a + b + (b + c) * d) by (
        nonlinear_arith);
        lemma_mult_run(a + b, b + c, 0, d - 1, bud4);
        assert(tapes_bounded(c_next.tapes));
        // recombine the step counts of the four phases
        let steps_rec = mult_steps(b + c, 0, d - 1) as nat;
        crate::magnificent::lemma_add_steps_compose(
            run(p, c_next, bud4),
            steps_rec,
            1,
        );
        crate::magnificent::lemma_add_steps_compose(
            run(p, c_end, bud3),
            (steps_rec + 1) as nat,
            (c + b) as nat,
        );
        crate::magnificent::lemma_add_steps_compose(
            run(p, mult_cfg(1, a + b, 0, c + b, d), bud2),
            (steps_rec + 1 + (c + b)) as nat,
            1,
        );
        crate::magnificent::lemma_add_steps_compose(
            run(p, mult_cfg(0, a + b, 0, c + b, d), bud1),
            (steps_rec + 1 + (c + b) + 1) as nat,
            b as nat,
        );
        assert(mult_steps(b, c, d) == b + 1 + (b + c) + 1 + mult_steps(b + c, 0, d - 1));
        assert(mult_cfg(1, (a + b) + (b + c) + ((b + c) + 0) * (d - 1), (b + c) + 0, 0, 0) =~=
            mult_cfg(1, a + b + (b + c) * d, b + c, 0, 0));
    }
}

/// Closed form for the firing count of a multiplier round sequence starting
/// with tape 2 empty.
pub proof fn lemma_mult_steps_closed(b: int, d: int)
    requires
        b >= 0,
        d >= 0,
    ensures
        mult_steps(b, 0, d) == (2 * b + 2) * d + 2 * b + 1,
    decreases d,
{
    if d == 0 {
        assert((2 * b + 2) * 0 == 0) by (nonlinear_arith);
    } else {
        lemma_mult_steps_closed(b, d - 1);
        assert((2 * b + 2) * d == (2 * b + 2) * (d - 1) + (2 * b + 2)) by (nonlinear_arith);
    }
}

/// Runs the four-rule multiplier machine on `x` and `y`: the machine halts
/// with tape 0 holding `x * y`.
///
/// The machine starts from tapes `[0, x, 0, y - 1]`, so `y` must be at least
/// one: with `y == 0` no valid initial configuration exists.
pub fn mult(x: i32, y: i32) -> (prod: i32)
    requires
        x >= 0,
        y >= 1,
        x * y <= i32::MAX,
    ensures
        prod == x * y,
{
    let rule0 = Rule::new(0, 0, vec![1, -1, 1, 0]);
    let rule1 = Rule::new(0, 1, vec![0, 0, 0, 0]);
    let rule2 = Rule::new(1, 1, vec![0, 1, -1, 0]);
    let rule3 = Rule::new(1, 0, vec![0, 0, 0, -1]);
    let program = Program::new(4, vec![rule0, rule1, rule2, rule3]);
    let machine = Machine::new(0, vec![0, x, 0, y - 1]);
    let xb: u64 = (x as u64) + 1;
    let yb: u64 = y as u64;
    proof {
        assert((2 * xb as int) * (yb as int) <= u64::MAX) by (nonlinear_arith)
            requires
                0 < xb as int <= 0x8000_0000,
                0 < yb as int <= 0x8000_0000,
        ;
    }
    let fuel: u64 = 2 * xb * yb;
    proof {
        assert(program@.rules[0].adj =~= mult_prog().rules[0].adj);
        assert(program@.rules[1].adj =~= mult_prog().rules[1].adj);
        assert(program@.rules[2].adj =~= mult_prog().rules[2].adj);
        assert(program@.rules[3].adj =~= mult_prog().rules[3].adj);
        assert(program@.rules[0] =~= mult_prog().rules[0]);
        assert(program@.rules[1] =~= mult_prog().rules[1]);
        assert(program@.rules[2] =~= mult_prog().rules[2]);
        assert(program@.rules[3] =~= mult_prog().rules[3]);
        assert(program@.rules =~= mult_prog().rules);
        assert(program@ =~= mult_prog());
        assert(machine@.tapes =~= mult_cfg(0, 0, x as int, 0, y - 1).tapes);
        assert(machine@ =~= mult_cfg(0, 0, x as int, 0, y - 1));
        lemma_mult_steps_closed(x as int, y - 1);
        assert(fuel as int == (2 * x + 2) * (y as int)) by (nonlinear_arith)
            requires
                fuel as int == 2 * (xb as int) * (yb as int),
                xb as int == x as int + 1,
                yb as int == y as int,
        ;
        assert((2 * x + 2) * (y as int) == (2 * x + 2) * (y - 1) + 2 * x + 2) by (nonlinear_arith);
        assert(fuel as int > mult_steps(x as int, 0, y - 1));
        assert(0 + x + (x + 0) * (y - 1) == x * y) by (nonlinear_arith);
        assert(x <= x * y) by (nonlinear_arith)
            requires
                x >= 0,
                y >= 1,
        ;
        lemma_mult_run(0, x as int, 0, y - 1, fuel as nat);
    }

    let end_machine = interpret(machine, &program, fuel);
    assert(end_machine.is_ok());
    let end_machine = end_machine.unwrap().1;
    proof {
        assert(end_machine@ == mult_cfg(1, x * y, x as int, 0, 0));
    }
    end_machine.tape_pos(0)
}

//////////////////////////////////////////////////////////////////////////////
// The alternate six-rule multiplier

/// An alternate six-rule, four-tape multiplier. From state 0 the first rule
/// consumes one unit of tape 2 and starts an addition round; in state 1 the
/// third rule moves tape 1 to tape 0 while stashing a copy in tape 3; in
/// state 2 the fifth rule restores tape 1 from the stash before the next
/// round. When tape 2 is exhausted the second rule moves the machine to
/// state 3, where no rule fires.
pub open spec fn six_rule_mult_prog() -> ProgModel {
    ProgModel {
        tapes: 4,
        rules: seq![
            RuleModel { cur: 0, next: 1, adj: seq![0int, 0int, -1int, 0int] },
            RuleModel { cur: 0, next: 3, adj: seq![0int, 0int, 0int, 0int] },
            RuleModel { cur: 1, next: 1, adj: seq![1int, -1int, 0int, 1int] },
            RuleModel { cur: 1, next: 2, adj: seq![0int, 0int, 0int, 0int] },
            RuleModel { cur: 2, next: 2, adj: seq![0int, 1int, 0int, -1int] },
            RuleModel { cur: 2, next: 0, adj: seq![0int, 0int, 0int, 0int] },
        ],
    }
}

/// The step the six-rule multiplier takes from state 0: the first rule
/// consumes a unit of tape 2, or the second rule halts the machine in
/// state 3.
proof fn lemma_six_step0(a: int, b: int, c: int, d: int)
    ensures
        c >= 1 ==> scan(six_rule_mult_prog().rules, mult_cfg(0, a, b, c, d)) == Some(
            six_rule_mult_prog().rules[0],
        ) && apply_to(mult_cfg(0, a, b, c, d), six_rule_mult_prog().rules[0]) == mult_cfg(
            1,
            a,
            b,
            c - 1,
            d,
        ),
        c < 1 ==> scan(six_rule_mult_prog().rules, mult_cfg(0, a, b, c, d)) == Some(
            six_rule_mult_prog().rules[1],
        ) && apply_to(mult_cfg(0, a, b, c, d), six_rule_mult_prog().rules[1]) == mult_cfg(
            3,
            a,
            b,
            c,
            d,
        ),
{
    let rules = six_rule_mult_prog().rules;
    let c0 = mult_cfg(0, a, b, c, d);
    let rest1 = rules.drop_first();
    assert(rest1[0] == rules[1]);
    if c >= 1 {
        assert forall|i: int| 0 <= i < rules[0].adj.len() implies #[trigger] rules[0].adj[i] >= 0
            || c0.tapes[i] >= -rules[0].adj[i] by {}
        assert(fires(c0, rules[0]));
        assert(scan(rules, c0) == Some(rules[0]));
        assert(apply_to(c0, rules[0]).tapes =~= mult_cfg(1, a, b, c - 1, d).tapes);
        assert(apply_to(c0, rules[0]) =~= mult_cfg(1, a, b, c - 1, d));
    } else {
        assert(!(rules[0].adj[2] >= 0 || c0.tapes[2] >= -rules[0].adj[2]));
        assert(!can_apply(c0.tapes, rules[0].adj));
        assert(!fires(c0, rules[0]));
        assert forall|i: int| 0 <= i < rules[1].adj.len() implies #[trigger] rules[1].adj[i] >= 0
            || c0.tapes[i] >= -rules[1].adj[i] by {}
        assert(fires(c0, rules[1]));
        assert(fires(c0, rest1[0]));
        assert(scan(rest1, c0) == Some(rules[1]));
        assert(scan(rules, c0) == scan(rest1, c0));
        assert(apply_to(c0, rules[1]).tapes =~= mult_cfg(3, a, b, c, d).tapes);
        assert(apply_to(c0, rules[1]) =~= mult_cfg(3, a, b, c, d));
    }
}

/// The step the six-rule multiplier takes from state 1: the third rule
/// moves a unit from tape 1 to tapes 0 and 3, or the fourth rule switches
/// to state 2.
proof fn lemma_six_step1(a: int, b: int, c: int, d: int)
    ensures
        b >= 1 ==> scan(six_rule_mult_prog().rules, mult_cfg(1, a, b, c, d)) == Some(
            six_rule_mult_prog().rules[2],
        ) && apply_to(mult_cfg(1, a, b, c, d), six_rule_mult_prog().rules[2]) == mult_cfg(
            1,
            a + 1,
            b - 1,
            c,
            d + 1,
        ),
        b < 1 ==> scan(six_rule_mult_prog().rules, mult_cfg(1, a, b, c, d)) == Some(
            six_rule_mult_prog().rules[3],
        ) && apply_to(mult_cfg(1, a, b, c, d), six_rule_mult_prog().rules[3]) == mult_cfg(
            2,
            a,
            b,
            c,
            d,
        ),
{
    let rules = six_rule_mult_prog().rules;
    let c1 = mult_cfg(1, a, b, c, d);
    let rest1 = rules.drop_first();
    let rest2 = rest1.drop_first();
    let rest3 = rest2.drop_first();
    assert(rest1[0] == rules[1]);
    assert(rest2[0] == rules[2]);
    assert(rest3[0] == rules[3]);
    assert(!fires(c1, rules[0]));
    assert(!fires(c1, rules[1]));
    if b >= 1 {
        assert forall|i: int| 0 <= i < rules[2].adj.len() implies #[trigger] rules[2].adj[i] >= 0
            || c1.tapes[i] >= -rules[2].adj[i] by {}
        assert(fires(c1, rules[2]));
        assert(fires(c1, rest2[0]));
        assert(scan(rest2, c1) == Some(rules[2]));
        assert(scan(rest1, c1) == scan(rest2, c1));
        assert(scan(rules, c1) == scan(rest1, c1));
        assert(apply_to(c1, rules[2]).tapes =~= mult_cfg(1, a + 1, b - 1, c, d + 1).tapes);
        assert(apply_to(c1, rules[2]) =~= mult_cfg(1, a + 1, b - 1, c, d + 1));
    } else {
        assert(!(rules[2].adj[1] >= 0 || c1.tapes[1] >= -rules[2].adj[1]));
        assert(!can_apply(c1.tapes, rules[2].adj));
        assert(!fires(c1, rules[2]));
        assert forall|i: int| 0 <= i < rules[3].adj.len() implies #[trigger] rules[3].adj[i] >= 0
            || c1.tapes[i] >= -rules[3].adj[i] by {}
        assert(fires(c1, rules[3]));
        assert(fires(c1, rest3[0]));
        assert(scan(rest3, c1) == Some(rules[3]));
        assert(scan(rest2, c1) == scan(rest3, c1));
        assert(scan(rest1, c1) == scan(rest2, c1));
        assert(scan(rules, c1) == scan(rest1, c1));
        assert(apply_to(c1, rules[3]).tapes =~= mult_cfg(2, a, b, c, d).tapes);
        assert(apply_to(c1, rules[3]) =~= mult_cfg(2, a, b, c, d));
    }
}

/// The step the six-rule multiplier takes from state 2: the fifth rule
/// restores a unit from tape 3 to tape 1, or the sixth rule returns to
/// state 0.
proof fn lemma_six_step2(a: int, b: int, c: int, d: int)
    ensures
        d >= 1 ==> scan(six_rule_mult_prog().rules, mult_cfg(2, a, b, c, d)) == Some(
            six_rule_mult_prog().rules[4],
        ) && apply_to(mult_cfg(2, a, b, c, d), six_rule_mult_prog().rules[4]) == mult_cfg(
            2,
            a,
            b + 1,
            c,
            d - 1,
        ),
        d < 1 ==> scan(six_rule_mult_prog().rules, mult_cfg(2, a, b, c, d)) == Some(
            six_rule_mult_prog().rules[5],
        ) && apply_to(mult_cfg(2, a, b, c, d), six_rule_mult_prog().rules[5]) == mult_cfg(
            0,
            a,
            b,
            c,
            d,
        ),
{
    let rules = six_rule_mult_prog().rules;
    let c2 = mult_cfg(2, a, b, c, d);
    let rest1 = rules.drop_first();
    let rest2 = rest1.drop_first();
    let rest3 = rest2.drop_first();
    let rest4 = rest3.drop_first();
    let rest5 = rest4.drop_first();
    assert(rest1[0] == rules[1]);
    assert(rest2[0] == rules[2]);
    assert(rest3[0] == rules[3]);
    assert(rest4[0] == rules[4]);
    assert(rest5[0] == rules[5]);
    assert(!fires(c2, rules[0]));
    assert(!fires(c2, rules[1]));
    assert(!fires(c2, rules[2]));
    assert(!fires(c2, rules[3]));
    if d >= 1 {
        assert forall|i: int| 0 <= i < rules[4].adj.len() implies #[trigger] rules[4].adj[i] >= 0
            || c2.tapes[i] >= -rules[4].adj[i] by {}
        assert(fires(c2, rules[4]));
        assert(fires(c2, rest4[0]));
        assert(scan(rest4, c2) == Some(rules[4]));
        assert(scan(rest3, c2) == scan(rest4, c2));
        assert(scan(rest2, c2) == scan(rest3, c2));
        assert(scan(rest1, c2) == scan(rest2, c2));
        assert(scan(rules, c2) == scan(rest1, c2));
        assert(apply_to(c2, rules[4]).tapes =~= mult_cfg(2, a, b + 1, c, d - 1).tapes);
        assert(apply_to(c2, rules[4]) =~= mult_cfg(2, a, b + 1, c, d - 1));
    } else {
        assert(!(rules[4].adj[3] >= 0 || c2.tapes[3] >= -rules[4].adj[3]));
        assert(!can_apply(c2.tapes, rules[4].adj));
        assert(!fires(c2, rules[4]));
        assert forall|i: int| 0 <= i < rules[5].adj.len() implies #[trigger] rules[5].adj[i] >= 0
            || c2.tapes[i] >= -rules[5].adj[i] by {}
        assert(fires(c2, rules[5]));
        assert(fires(c2, rest5[0]));
        assert(scan(rest5, c2) == Some(rules[5]));
        assert(scan(rest4, c2) == scan(rest5, c2));
        assert(scan(rest3, c2) == scan(rest4, c2));
        assert(scan(rest2, c2) == scan(rest3, c2));
        assert(scan(rest1, c2) == scan(rest2, c2));
        assert(scan(rules, c2) == scan(rest1, c2));
        assert(apply_to(c2, rules[5]).tapes =~= mult_cfg(0, a, b, c, d).tapes);
        assert(apply_to(c2, rules[5]) =~= mult_cfg(0, a, b, c, d));
    }
}

/// No rule of the six-rule multiplier fires in state 3: the machine halts.
proof fn lemma_six_step3(a: int, b: int, c: int, d: int)
    ensures
        scan(six_rule_mult_prog().rules, mult_cfg(3, a, b, c, d)) is None,
{
    let rules = six_rule_mult_prog().rules;
    let c3 = mult_cfg(3, a, b, c, d);
    let rest1 = rules.drop_first();
    let rest2 = rest1.drop_first();
    let rest3 = rest2.drop_first();
    let rest4 = rest3.drop_first();
    let rest5 = rest4.drop_first();
    assert(rest1[0] == rules[1]);
    assert(rest2[0] == rules[2]);
    assert(rest3[0] == rules[3]);
    assert(rest4[0] == rules[4]);
    assert(rest5[0] == rules[5]);
    assert(rest5.drop_first().len() == 0);
    assert(!fires(c3, rules[0]));
    assert(!fires(c3, rules[1]));
    assert(!fires(c3, rules[2]));
    assert(!fires(c3, rules[3]));
    assert(!fires(c3, rules[4]));
    assert(!fires(c3, rules[5]));
    assert(scan(rest5.drop_first(), c3) is None);
    assert(scan(rest5, c3) is None);
    assert(scan(rest4, c3) == scan(rest5, c3));
    assert(scan(rest3, c3) == scan(rest4, c3));
    assert(scan(rest2, c3) == scan(rest3, c3));
    assert(scan(rest1, c3) == scan(rest2, c3));
    assert(scan(rules, c3) == scan(rest1, c3));
}

/// The addition round of the six-rule multiplier: in state 1 the third rule
/// drains tape 1 into tapes 0 and 3, one firing per unit.
proof fn lemma_six_r2(a: int, b: int, c: int, d: int, budget: nat)
    requires
        a >= 0,
        b >= 0,
        c >= 0,
        d >= 0,
        budget > b,
        a + b <= i32::MAX,
        d + b <= i32::MAX,
        c <= i32::MAX,
    ensures
        run(six_rule_mult_prog(), mult_cfg(1, a, b, c, d), budget) == add_steps(
            run(six_rule_mult_prog(), mult_cfg(1, a + b, 0, c, d + b), (budget - b) as nat),
            b as nat,
        ),
        run_bounded(six_rule_mult_prog(), mult_cfg(1, a + b, 0, c, d + b), (budget - b) as nat)
            ==> run_bounded(six_rule_mult_prog(), mult_cfg(1, a, b, c, d), budget),
    decreases b,
{
    let p = six_rule_mult_prog();
    if b == 0 {
        crate::magnificent::lemma_add_steps_zero(run(p, mult_cfg(1, a, b, c, d), budget));
    } else {
        lemma_six_step1(a, b, c, d);
        let c2 = mult_cfg(1, a + 1, b - 1, c, d + 1);
        lemma_run_unfold(p, mult_cfg(1, a, b, c, d), c2, budget);
        lemma_six_r2(a + 1, b - 1, c, d + 1, (budget - 1) as nat);
        crate::magnificent::lemma_add_steps_compose(
            run(p, mult_cfg(1, a + b, 0, c, d + b), (budget - b) as nat),
            (b - 1) as nat,
            1,
        );
        assert(tapes_bounded(apply_adj(mult_cfg(1, a, b, c, d).tapes, p.rules[2].adj)));
    }
}

/// The restore round of the six-rule multiplier: in state 2 the fifth rule
/// drains the stash on tape 3 back into tape 1, one firing per unit.
proof fn lemma_six_r4(a: int, b: int, c: int, d: int, budget: nat)
    requires
        a >= 0,
        b >= 0,
        c >= 0,
        d >= 0,
        budget > d,
        b + d <= i32::MAX,
        a <= i32::MAX,
        c <= i32::MAX,
    ensures
        run(six_rule_mult_prog(), mult_cfg(2, a, b, c, d), budget) == add_steps(
            run(six_rule_mult_prog(), mult_cfg(2, a, b + d, c, 0), (budget - d) as nat),
            d as nat,
        ),
        run_bounded(six_rule_mult_prog(), mult_cfg(2, a, b + d, c, 0), (budget - d) as nat)
            ==> run_bounded(six_rule_mult_prog(), mult_cfg(2, a, b, c, d), budget),
    decreases d,
{
    let p = six_rule_mult_prog();
    if d == 0 {
        crate::magnificent::lemma_add_steps_zero(run(p, mult_cfg(2, a, b, c, d), budget));
    } else {
        lemma_six_step2(a, b, c, d);
        let c2 = mult_cfg(2, a, b + 1, c, d - 1);
        lemma_run_unfold(p, mult_cfg(2, a, b, c, d), c2, budget);
        lemma_six_r4(a, b + 1, c, d - 1, (budget - 1) as nat);
        crate::magnificent::lemma_add_steps_compose(
            run(p, mult_cfg(2, a, b + d, c, 0), (budget - d) as nat),
            (d - 1) as nat,
            1,
        );
        assert(tapes_bounded(apply_adj(mult_cfg(2, a, b, c, d).tapes, p.rules[4].adj)));
    }
}

/// The six-rule multiplier run from state 0 and tapes `[a, b, c, 0]` halts
/// in state 3 with tapes `[a + b * c, b, 0, 0]` after exactly
/// `c * (2 * b + 3) + 1` firings. In particular, started from
/// `[0, x, y, 0]` it halts with `x * y` on tape 0, in agreement with the
/// four-rule multiplier of [`mult_prog`].
pub proof fn lemma_six_rule_mult_run(a: int, b: int, c: int, budget: nat)
    requires
        a >= 0,
        b >= 0,
        c >= 0,
        budget > c * (2 * b + 3) + 1,
        a + b * c <= i32::MAX,
        b <= i32::MAX,
        c <= i32::MAX,
    ensures
        run(six_rule_mult_prog(), mult_cfg(0, a, b, c, 0), budget) == (RunOutcome::Halted {
            steps: (c * (2 * b + 3) + 1) as nat,
            end: mult_cfg(3, a + b * c, b, 0, 0),
        }),
        run_bounded(six_rule_mult_prog(), mult_cfg(0, a, b, c, 0), budget),
    decreases c,
{
    let p = six_rule_mult_prog();
    assert(c * (2 * b + 3) >= 0) by (nonlinear_arith)
        requires
            b >= 0,
            c >= 0,
    ;
    assert(b * c >= 0) by (nonlinear_arith)
        requires
            b >= 0,
            c >= 0,
    ;
    if c == 0 {
        assert(b * 0 == 0) by (nonlinear_arith);
        assert(0 * (2 * b + 3) == 0) by (nonlinear_arith);
        lemma_six_step0(a, b, 0, 0);
        let c3 = mult_cfg(3, a, b, 0, 0);
        lemma_run_unfold(p, mult_cfg(0, a, b, c, 0), c3, budget);
        lemma_six_step3(a, b, 0, 0);
        assert(run(p, c3, (budget - 1) as nat) == (RunOutcome::Halted { steps: 0nat, end: c3 }));
        assert(c3 =~= mult_cfg(3, a + b * c, b, 0, 0));
        assert(tapes_bounded(apply_adj(mult_cfg(0, a, b, c, 0).tapes, p.rules[1].adj)));
        assert(run_bounded(p, c3, (budget - 1) as nat));
    } else {
        assert(c * (2 * b + 3) == (c - 1) * (2 * b + 3) + (2 * b + 3)) by (nonlinear_arith);
        assert((c - 1) * (2 * b + 3) >= 0) by (nonlinear_arith)
            requires
                b >= 0,
                c >= 1,
        ;
        assert(b * c == b * (c - 1) + b) by (nonlinear_arith);
        assert(b * (c - 1) >= 0) by (nonlinear_arith)
            requires
                b >= 0,
                c >= 1,
        ;
        // one unit of tape 2 is consumed
        lemma_six_step0(a, b, c, 0);
        let c1a = mult_cfg(1, a, b, c - 1, 0);
        lemma_run_unfold(p, mult_cfg(0, a, b, c, 0), c1a, budget);
        let bud1 = (budget - 1) as nat;
        // the addition round
        lemma_six_r2(a, b, c - 1, 0, bud1);
        let c1b = mult_cfg(1, a + b, 0, c - 1, b);
        let bud2 = (bud1 - b) as nat;
        assert(mult_cfg(1, a + b, 0, c - 1, 0 + b) =~= c1b);
        // switch to the restore state
        lemma_six_step1(a + b, 0, c - 1, b);
        let c2a = mult_cfg(2, a + b, 0, c - 1, b);
        lemma_run_unfold(p, c1b, c2a, bud2);
        let bud3 = (bud2 - 1) as nat;
        // the restore round
        lemma_six_r4(a + b, 0, c - 1, b, bud3);
        let c2b = mult_cfg(2, a + b, b, c - 1, 0);
        let bud4 = (bud3 - b) as nat;
        assert(mult_cfg(2, a + b, 0 + b, c - 1, 0) =~= c2b);
        // back to state 0 for the next round
        lemma_six_step2(a + b, b, c - 1, 0);
        let c0n = mult_cfg(0, a + b, b, c - 1, 0);
        lemma_run_unfold(p, c2b, c0n, bud4);
        let bud5 = (bud4 - 1) as nat;
        lemma_six_rule_mult_run(a + b, b, c - 1, bud5);
        assert(mult_cfg(3, (a + b) + b * (c - 1), b, 0, 0) =~= mult_cfg(3, a + b * c, b, 0, 0));
        // recombine the firing counts of the round's five phases
        let rec = ((c - 1) * (2 * b + 3) + 1) as nat;
        assert(run(p, c2b, bud4) == (RunOutcome::Halted {
            steps: (rec + 1) as nat,
            end: mult_cfg(3, a + b * c, b, 0, 0),
        }));
        assert(run(p, c2a, bud3) == (RunOutcome::Halted {
            steps: (rec + 1 + b) as nat,
            end: mult_cfg(3, a + b * c, b, 0, 0),
        }));
        assert(run(p, c1b, bud2) == (RunOutcome::Halted {
            steps: (rec + 2 + b) as nat,
            end: mult_cfg(3, a + b * c, b, 0, 0),
        }));
        assert(run(p, c1a, bud1) == (RunOutcome::Halted {
            steps: (rec + 2 + 2 * b) as nat,
            end: mult_cfg(3, a + b * c, b, 0, 0),
        }));
        assert(run(p, mult_cfg(0, a, b, c, 0), budget) == (RunOutcome::Halted {
            steps: (rec + 3 + 2 * b) as nat,
            end: mult_cfg(3, a + b * c, b, 0, 0),
        }));
        assert(rec + 3 + 2 * b == c * (2 * b + 3) + 1);
        // the round's configurations stay within the tape bounds
        assert(tapes_bounded(apply_adj(mult_cfg(0, a, b, c, 0).tapes, p.rules[0].adj)));
        assert(tapes_bounded(apply_adj(c1b.tapes, p.rules[3].adj)));
        assert(tapes_bounded(apply_adj(c2b.tapes, p.rules[5].adj)));
    }
}

} // verus!
