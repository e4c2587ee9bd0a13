//! Magnificent Minsky machine interpreter.
//!
//! A magnificent Minsky machine has a fixed number of tapes; each tape has a
//! head whose position is a non-negative integer. The machine is always in
//! one of a set of control states, denoted by non-negative integers.
//!
//! A program is an ordered sequence of rules. A rule carries the state in
//! which it may fire, the state the machine transitions to when it fires, and
//! one adjustment per tape. A negative adjustment is a guard: the rule may
//! fire only if that tape holds at least the adjustment's magnitude, which is
//! then subtracted. A non-negative adjustment is an action: it is added when
//! the rule fires.
//!
//! The interpreter scans the rules in order, applies the first rule that
//! fires, and restarts the scan from the top. It halts when no rule fires, or
//! reports [`ErrorCode::OutOfFuel`] when the step budget is exhausted.
//!
//! The mathematical model of this semantics lives in [`RuleModel`],
//! [`ProgModel`], [`Config`] and the spec functions [`scan`], [`step`] and
//! [`run`]; every executable item is specified against that model.

use vstd::prelude::*;

verus! {

//////////////////////////////////////////////////////////////////////////////
// Mathematical model

/// Model of a rule: the state it fires in, the state it transitions to, and
/// one signed adjustment per tape.
#[verifier::ext_equal]
pub struct RuleModel {
    pub cur: nat,
    pub next: nat,
    pub adj: Seq<int>,
}

/// Model of a program: the number of tapes and the ordered rules.
#[verifier::ext_equal]
pub struct ProgModel {
    pub tapes: nat,
    pub rules: Seq<RuleModel>,
}

/// Model of a machine configuration: the control state and the tape heads.
#[verifier::ext_equal]
pub struct Config {
    pub state: nat,
    pub tapes: Seq<int>,
}

/// The tape positions of a well-formed machine are never negative.
pub open spec fn valid_tapes(tapes: Seq<int>) -> bool {
    forall|i: int| 0 <= i < tapes.len() ==> tapes[i] >= 0
}

/// Every tape position fits in the fixed-width representation.
pub open spec fn tapes_bounded(tapes: Seq<int>) -> bool {
    forall|i: int| 0 <= i < tapes.len() ==> tapes[i] <= i32::MAX
}

/// A program is well formed when every rule adjusts exactly as many tapes as
/// the program declares.
pub open spec fn prog_wf(p: ProgModel) -> bool {
    forall|i: int| 0 <= i < p.rules.len() ==> #[trigger] p.rules[i].adj.len() == p.tapes
}

/// A rule's guards are satisfied: at every tape, the adjustment is an action
/// (non-negative), or the tape holds at least the guard's magnitude.
pub open spec fn can_apply(tapes: Seq<int>, adj: Seq<int>) -> bool {
    forall|i: int| 0 <= i < adj.len() ==> #[trigger] adj[i] >= 0 || tapes[i] >= -adj[i]
}

/// The tape positions after a rule's adjustments are applied.
pub open spec fn apply_adj(tapes: Seq<int>, adj: Seq<int>) -> Seq<int> {
    Seq::new(tapes.len(), |i: int| tapes[i] + adj[i])
}

/// A rule fires in a configuration when the state matches and its guards are
/// satisfied.
pub open spec fn fires(c: Config, r: RuleModel) -> bool {
    c.state == r.cur && can_apply(c.tapes, r.adj)
}

/// The configuration after a rule fires.
pub open spec fn apply_to(c: Config, r: RuleModel) -> Config {
    Config { state: r.next, tapes: apply_adj(c.tapes, r.adj) }
}

/// The first rule of the sequence that fires in `c`, scanning in order.
pub open spec fn scan(rules: Seq<RuleModel>, c: Config) -> Option<RuleModel>
    decreases rules.len(),
{
    if rules.len() == 0 {
        None
    } else if fires(c, rules[0]) {
        Some(rules[0])
    } else {
        scan(rules.drop_first(), c)
    }
}

/// One interpreter step: apply the first rule that fires, if any.
pub open spec fn step(p: ProgModel, c: Config) -> Option<Config> {
    match scan(p.rules, c) {
        None => None,
        Some(r) => Some(apply_to(c, r)),
    }
}

/// The outcome of running a program: a halt with the number of rule firings
/// and the final configuration, or an exhausted step budget.
pub enum RunOutcome {
    Halted { steps: nat, end: Config },
    OutOfFuel,
}

/// Adds already-taken steps to an outcome.
pub open spec fn add_steps(o: RunOutcome, k: nat) -> RunOutcome {
    match o {
        RunOutcome::Halted { steps, end } => RunOutcome::Halted { steps: steps + k, end },
        RunOutcome::OutOfFuel => RunOutcome::OutOfFuel,
    }
}

/// Runs a program from a configuration under a step budget: the first firing
/// rule is applied and the scan restarts from the top, until no rule fires
/// (a halt) or the budget runs out. Applying a rule consumes one unit of
/// budget; the run is cut off as soon as a rule fires with at most one unit
/// left, so a halt in `steps` firings is reported only when `steps == 0` or
/// `steps < budget`.
pub open spec fn run(p: ProgModel, c: Config, budget: nat) -> RunOutcome
    decreases budget,
{
    match scan(p.rules, c) {
        None => RunOutcome::Halted { steps: 0, end: c },
        Some(r) => {
            if budget <= 1 {
                RunOutcome::OutOfFuel
            } else {
                add_steps(run(p, apply_to(c, r), (budget - 1) as nat), 1)
            }
        },
    }
}

/// Within the given budget, every tape position the run computes fits in the
/// fixed-width representation. The interpreter requires this: it performs the
/// adjustments in `i32` arithmetic.
pub open spec fn run_bounded(p: ProgModel, c: Config, budget: nat) -> bool
    decreases budget,
{
    match scan(p.rules, c) {
        None => true,
        Some(r) => tapes_bounded(apply_adj(c.tapes, r.adj)) && (budget <= 1 || run_bounded(
            p,
            apply_to(c, r),
            (budget - 1) as nat,
        )),
    }
}

/// The view of a vector of `i32` tape positions as a sequence of integers.
pub open spec fn int_tapes(v: Seq<i32>) -> Seq<int> {
    v.map_values(|x: i32| x as int)
}

//////////////////////////////////////////////////////////////////////////////
// Executable data types

/// Error conditions the interpreter may return.
#[derive(Debug)]
pub enum ErrorCode {
    /// A tape id listed in a rule is invalid.
    BadClause,
    /// The interpreter ran out of fuel.
    OutOfFuel,
}

/// Machine states are non-negative integers.
pub type State = usize;

/// Tapes are identified by non-negative integers.
pub type TapeId = usize;

/// Tape state: one head position (non-negative integer) per tape.
#[derive(Debug)]
pub struct TapeState(pub Vec<i32>);

impl View for TapeState {
    type V = Seq<int>;

    open spec fn view(&self) -> Seq<int> {
        int_tapes(self.0@)
    }
}

/// A rule, part of a Minsky machine program.
#[derive(Debug, PartialEq, Eq)]
pub struct Rule {
    // state the rule fires in
    pub cur_state: State,
    // state after the rule fires
    pub next_state: State,
    // signed adjustment per tape: negative entries are guards, non-negative
    // entries are actions
    pub rule: Vec<i32>,
}

impl View for Rule {
    type V = RuleModel;

    open spec fn view(&self) -> RuleModel {
        RuleModel {
            cur: self.cur_state as nat,
            next: self.next_state as nat,
            adj: int_tapes(self.rule@),
        }
    }
}

/// A program: the number of tapes it operates on and its ordered rules.
#[derive(Debug)]
pub struct Program {
    // number of tapes; must match the machine's tape state width
    pub num_tapes: usize,
    // ordered rules making up the program
    pub rules: Vec<Rule>,
}

impl View for Program {
    type V = ProgModel;

    open spec fn view(&self) -> ProgModel {
        ProgModel { tapes: self.num_tapes as nat, rules: self.rules@.map_values(|r: Rule| r@) }
    }
}

/// A magnificent Minsky machine: the execution cursor the interpreter
/// threads through a run.
#[derive(Debug)]
pub struct Machine {
    pub machine_state: State,
    pub tape_state: TapeState,
}

impl View for Machine {
    type V = Config;

    open spec fn view(&self) -> Config {
        Config { state: self.machine_state as nat, tapes: self.tape_state@ }
    }
}

//////////////////////////////////////////////////////////////////////////////
// Implementations

impl Rule {
    /// Create a rule from the state it fires in, the state the machine
    /// transitions to, and the tape head adjustments.
    pub fn new(cur_state: State, next_state: State, rule: Vec<i32>) -> (r: Self)
        ensures
            r@ == (RuleModel {
                cur: cur_state as nat,
                next: next_state as nat,
                adj: int_tapes(rule@),
            }),
    {
        Rule { cur_state, next_state, rule }
    }

    /// The state this rule fires in.
    pub fn cur_state(&self) -> (s: State)
        ensures
            s as nat == self@.cur,
    {
        self.cur_state
    }

    /// The state this rule transitions the machine to.
    pub fn next_state(&self) -> (s: State)
        ensures
            s as nat == self@.next,
    {
        self.next_state
    }

    /// The number of tapes the rule operates over (the number of tape head
    /// adjustments).
    pub fn len(&self) -> (n: usize)
        ensures
            n as nat == self@.adj.len(),
    {
        self.rule.len()
    }

    /// Whether the rule adjusts no tapes at all.
    pub fn is_empty(&self) -> (e: bool)
        ensures
            e == (self@.adj.len() == 0),
    {
        self.rule.is_empty()
    }

    /// Iterate over the tape head adjustments the rule specifies.
    pub fn iter(&self) -> (it: std::slice::Iter<'_, i32>)
        ensures
            vstd::std_specs::iter::IteratorSpec::remaining(&it) == self.rule@.as_ref(),
    {
        broadcast use vstd::std_specs::slice::axiom_spec_slice_iter;

        self.rule.as_slice().iter()
    }
}

impl TapeState {
    /// Whether a rule's guards are satisfied: can every tape be moved
    /// backwards by the amount its guard demands?
    ///
    /// The tape state and the rule must range over the same number of tapes.
    pub fn test_rule(&self, rule: &Rule) -> (ok: bool)
        requires
            self@.len() == rule@.adj.len(),
        ensures
            ok == can_apply(self@, rule@.adj),
    {
        let n = self.0.len();
        let mut i: usize = 0;
        while i < n
            invariant
                n == self.0.len(),
                self@.len() == rule@.adj.len(),
                i <= n,
                forall|j: int| 0 <= j < i ==> #[trigger] rule@.adj[j] >= 0 || self@[j] >= -rule@.adj[j],
            decreases n - i,
        {
            let amt = self.0[i];
            let adj = rule.rule[i];
            if adj < 0 && (amt as i64) < -(adj as i64) {
                proof {
                    assert(self@[i as int] == amt as int);
                    assert(rule@.adj[i as int] == adj as int);
                    assert(!(rule@.adj[i as int] >= 0 || self@[i as int] >= -rule@.adj[i as int]));
                }
                return false;
            }
            i += 1;
        }
        true
    }

    /// Apply the adjustments given in `rule` to the tape positions.
    ///
    /// The caller must have established, via [`TapeState::test_rule`], that
    /// the guards are satisfied; this method adds blindly. Every adjusted
    /// position must fit in `i32`.
    pub fn apply_rule(&mut self, rule: &Rule)
        requires
            old(self)@.len() == rule@.adj.len(),
            forall|i: int|
                0 <= i < old(self)@.len() ==> i32::MIN <= #[trigger] (old(self)@[i] + rule@.adj[i])
                    <= i32::MAX,
        ensures
            final(self)@ == apply_adj(old(self)@, rule@.adj),
    {
        let n = self.0.len();
        let mut i: usize = 0;
        while i < n
            invariant
                n == self.0.len(),
                self@.len() == old(self)@.len(),
                old(self)@.len() == rule@.adj.len(),
                i <= n,
                forall|j: int|
                    0 <= j < old(self)@.len() ==> i32::MIN <= #[trigger] (old(self)@[j]
                        + rule@.adj[j]) <= i32::MAX,
                forall|j: int| 0 <= j < i ==> self@[j] == #[trigger] (old(self)@[j] + rule@.adj[j]),
                forall|j: int| i <= j < n ==> self@[j] == old(self)@[j],
            decreases n - i,
        {
            let amt = rule.rule[i];
            proof {
                assert(self@[i as int] == old(self)@[i as int]);
                assert(self.0@[i as int] as int == self@[i as int]);
                assert(rule@.adj[i as int] == amt as int);
                assert(i32::MIN <= old(self)@[i as int] + rule@.adj[i as int] <= i32::MAX);
            }
            self.0[i] = self.0[i] + amt;
            i += 1;
        }
        proof {
            assert(self@ =~= apply_adj(old(self)@, rule@.adj));
        }
    }

    /// Whether every tape position is non-negative.
    pub fn is_valid(&self) -> (ok: bool)
        ensures
            ok == valid_tapes(self@),
    {
        let n = self.0.len();
        let mut i: usize = 0;
        while i < n
            invariant
                n == self.0.len(),
                i <= n,
                forall|j: int| 0 <= j < i ==> self@[j] >= 0,
            decreases n - i,
        {
            if self.0[i] < 0 {
                proof {
                    assert(self@[i as int] < 0);
                }
                return false;
            }
            i += 1;
        }
        true
    }
}

impl Program {
    /// Create a program from the number of tapes it operates on and the
    /// ordered rules to apply.
    pub fn new(num_tapes: usize, rules: Vec<Rule>) -> (p: Self)
        ensures
            p@ == (ProgModel {
                tapes: num_tapes as nat,
                rules: rules@.map_values(|r: Rule| r@),
            }),
    {
        Program { num_tapes, rules }
    }

    /// The number of tapes the program operates on.
    pub fn num_tapes(&self) -> (n: usize)
        ensures
            n as nat == self@.tapes,
    {
        self.num_tapes
    }

    /// The number of rules.
    pub fn num_rules(&self) -> (n: usize)
        ensures
            n as nat == self@.rules.len(),
    {
        self.rules.len()
    }

    /// Iterate over the rules in order.
    pub fn iter(&self) -> (it: std::slice::Iter<'_, Rule>)
        ensures
            vstd::std_specs::iter::IteratorSpec::remaining(&it) == self.rules@.as_ref(),
    {
        broadcast use vstd::std_specs::slice::axiom_spec_slice_iter;

        self.rules.as_slice().iter()
    }
}

impl Machine {
    /// Create a machine from an initial state and initial tape positions.
    pub fn new(machine_state: usize, tape_state: Vec<i32>) -> (m: Self)
        ensures
            m@ == (Config { state: machine_state as nat, tapes: int_tapes(tape_state@) }),
    {
        Machine { machine_state, tape_state: TapeState(tape_state) }
    }

    /// Try to apply the given rule to the machine.
    ///
    /// If the machine is in the rule's state and the rule's guards are
    /// satisfied, the adjustments are applied and the machine transitions to
    /// the rule's next state, all together; otherwise nothing changes.
    pub fn apply_rule(&mut self, rule: &Rule) -> (fired: bool)
        requires
            old(self)@.tapes.len() == rule@.adj.len(),
            valid_tapes(old(self)@.tapes),
            fires(old(self)@, rule@) ==> tapes_bounded(apply_adj(old(self)@.tapes, rule@.adj)),
        ensures
            fired == fires(old(self)@, rule@),
            final(self)@ == if fires(old(self)@, rule@) {
                apply_to(old(self)@, rule@)
            } else {
                old(self)@
            },
            valid_tapes(final(self)@.tapes),
    {
        if self.machine_state == rule.cur_state && self.tape_state.test_rule(rule) {
            proof {
                assert forall|i: int| 0 <= i < old(self)@.tapes.len() implies i32::MIN <= #[trigger] (
                old(self)@.tapes[i] + rule@.adj[i]) <= i32::MAX by {
                    assert(apply_adj(old(self)@.tapes, rule@.adj)[i] == old(self)@.tapes[i]
                        + rule@.adj[i]);
                    if rule@.adj[i] >= 0 {
                        assert(old(self)@.tapes[i] + rule@.adj[i] >= 0);
                    } else {
                        assert(old(self)@.tapes[i] >= -rule@.adj[i]);
                    }
                }
            }
            self.tape_state.apply_rule(rule);
            self.machine_state = rule.next_state;
            proof {
                assert(self@ =~= apply_to(old(self)@, rule@));
            }
            true
        } else {
            false
        }
    }

    /// The current head position of the indicated tape.
    pub fn tape_pos(&self, id: usize) -> (p: i32)
        requires
            id < self@.tapes.len(),
        ensures
            p as int == self@.tapes[id as int],
    {
        self.tape_state.0[id]
    }
}

//////////////////////////////////////////////////////////////////////////////
// Properties of the model

/// A rule found by `scan` is one of the scanned rules, and it fires.
pub proof fn lemma_scan_some(rules: Seq<RuleModel>, c: Config)
    requires
        scan(rules, c) is Some,
    ensures
        rules.contains(scan(rules, c)->Some_0),
        fires(c, scan(rules, c)->Some_0),
    decreases rules.len(),
{
    if fires(c, rules[0]) {
        assert(rules[0] == scan(rules, c)->Some_0);
    } else {
        lemma_scan_some(rules.drop_first(), c);
        let r = scan(rules, c)->Some_0;
        let i = choose|i: int|
            0 <= i < rules.drop_first().len() && rules.drop_first()[i] == r;
        assert(rules[i + 1] == r);
    }
}

/// Every rule of a well-formed program adjusts `p.tapes` tapes.
pub proof fn lemma_wf_rule(p: ProgModel, r: RuleModel)
    requires
        prog_wf(p),
        p.rules.contains(r),
    ensures
        r.adj.len() == p.tapes,
{
    let i = choose|i: int| 0 <= i < p.rules.len() && p.rules[i] == r;
    assert(p.rules[i].adj.len() == p.tapes);
}

/// Firing a rule keeps the tapes non-negative and their number unchanged.
pub proof fn lemma_apply_valid(c: Config, r: RuleModel)
    requires
        c.tapes.len() == r.adj.len(),
        valid_tapes(c.tapes),
        can_apply(c.tapes, r.adj),
    ensures
        apply_to(c, r).tapes.len() == c.tapes.len(),
        valid_tapes(apply_to(c, r).tapes),
{
    assert forall|i: int| 0 <= i < apply_to(c, r).tapes.len() implies apply_to(c, r).tapes[i]
        >= 0 by {
        assert(r.adj[i] >= 0 || c.tapes[i] >= -r.adj[i]);
    }
}

/// A run from a valid configuration of the right width halts, if it halts, in
/// a valid configuration of the same width in which no rule fires.
pub proof fn lemma_run_preserves(p: ProgModel, c: Config, budget: nat)
    requires
        prog_wf(p),
        c.tapes.len() == p.tapes,
        valid_tapes(c.tapes),
    ensures
        match run(p, c, budget) {
            RunOutcome::Halted { end, .. } => end.tapes.len() == p.tapes && valid_tapes(end.tapes)
                && scan(p.rules, end) is None,
            RunOutcome::OutOfFuel => true,
        },
    decreases budget,
{
    match scan(p.rules, c) {
        None => {},
        Some(r) => {
            if budget > 1 {
                lemma_scan_some(p.rules, c);
                lemma_wf_rule(p, r);
                lemma_apply_valid(c, r);
                lemma_run_preserves(p, apply_to(c, r), (budget - 1) as nat);
            }
        },
    }
}

/// Adding steps to an outcome twice is adding their sum once.
pub proof fn lemma_add_steps_compose(o: RunOutcome, j: nat, k: nat)
    ensures
        add_steps(add_steps(o, j), k) == add_steps(o, j + k),
{
}

/// Adding no steps changes nothing.
pub proof fn lemma_add_steps_zero(o: RunOutcome)
    ensures
        add_steps(o, 0) == o,
{
}

/// Unfolds one firing of the run and one level of its boundedness.
pub proof fn lemma_run_unfold(p: ProgModel, c: Config, c2: Config, budget: nat)
    requires
        budget >= 2,
        scan(p.rules, c) is Some,
        apply_to(c, scan(p.rules, c)->Some_0) == c2,
    ensures
        run(p, c, budget) == add_steps(run(p, c2, (budget - 1) as nat), 1),
        run_bounded(p, c, budget) <==> tapes_bounded(apply_adj(
            c.tapes,
            scan(p.rules, c)->Some_0.adj,
        )) && run_bounded(p, c2, (budget - 1) as nat),
{
}

/// A run that halts within some budget halts identically under any larger
/// budget.
pub proof fn lemma_run_budget(p: ProgModel, c: Config, b1: nat, b2: nat)
    requires
        run(p, c, b1) is Halted,
        b2 >= b1,
    ensures
        run(p, c, b2) == run(p, c, b1),
    decreases b1,
{
    match scan(p.rules, c) {
        None => {},
        Some(r) => {
            lemma_run_budget(p, apply_to(c, r), (b1 - 1) as nat, (b2 - 1) as nat);
        },
    }
}

/// A program that can always fire some rule never halts: whatever invariant
/// guarantees a rule fires and is preserved by firing, the run from any
/// configuration satisfying it ends with the budget exhausted, for every
/// finite budget.
pub proof fn lemma_no_halt_out_of_fuel(
    p: ProgModel,
    c: Config,
    budget: nat,
    inv: spec_fn(Config) -> bool,
)
    requires
        inv(c),
        forall|d: Config| #[trigger] inv(d) ==> scan(p.rules, d) is Some,
        forall|d: Config| #[trigger] inv(d) ==> inv(apply_to(d, scan(p.rules, d)->Some_0)),
    ensures
        run(p, c, budget) is OutOfFuel,
    decreases budget,
{
    let r = scan(p.rules, c)->Some_0;
    if budget > 1 {
        lemma_no_halt_out_of_fuel(p, apply_to(c, r), (budget - 1) as nat, inv);
    }
}

/// A program whose first rule is a self-loop without guards cycles forever
/// once the machine is in that rule's state: the rule always fires, changes
/// no guard tape, and leaves the state as it is, so any finite fuel runs
/// out.
pub proof fn lemma_guardless_selfloop_out_of_fuel(p: ProgModel, c: Config, budget: nat)
    requires
        p.rules.len() > 0,
        p.rules[0].cur == p.rules[0].next,
        c.state == p.rules[0].cur,
        forall|j: int| 0 <= j < p.rules[0].adj.len() ==> #[trigger] p.rules[0].adj[j] >= 0,
    ensures
        run(p, c, budget) is OutOfFuel,
{
    let inv = |d: Config| d.state == p.rules[0].cur;
    assert forall|d: Config| #[trigger] inv(d) implies scan(p.rules, d) is Some && inv(
        apply_to(d, scan(p.rules, d)->Some_0),
    ) by {
        assert(can_apply(d.tapes, p.rules[0].adj));
        assert(fires(d, p.rules[0]));
        assert(scan(p.rules, d) == Some(p.rules[0]));
    }
    lemma_no_halt_out_of_fuel(p, c, budget, inv);
}

//////////////////////////////////////////////////////////////////////////////
// The interpreter

/// The index of the first rule of the program that fires in the machine's
/// configuration, if any rule does.
fn first_applicable(machine: &Machine, program: &Program) -> (r: Option<usize>)
    requires
        prog_wf(program@),
        machine@.tapes.len() == program@.tapes,
    ensures
        match r {
            Some(i) => i < program@.rules.len() && scan(program@.rules, machine@) == Some(
                program@.rules[i as int],
            ) && fires(machine@, program@.rules[i as int]),
            None => scan(program@.rules, machine@) is None,
        },
{
    let n = program.rules.len();
    let mut idx: usize = 0;
    proof {
        assert(program@.rules.skip(0) =~= program@.rules);
    }
    while idx < n
        invariant
            prog_wf(program@),
            machine@.tapes.len() == program@.tapes,
            n == program@.rules.len(),
            idx <= n,
            scan(program@.rules, machine@) == scan(program@.rules.skip(idx as int), machine@),
        decreases n - idx,
    {
        let rule = &program.rules[idx];
        proof {
            assert(program@.rules[idx as int] == rule@);
            assert(program@.rules[idx as int].adj.len() == program@.tapes);
        }
        if machine.machine_state == rule.cur_state && machine.tape_state.test_rule(rule) {
            proof {
                let rest = program@.rules.skip(idx as int);
                assert(rest[0] == program@.rules[idx as int]);
                assert(fires(machine@, rest[0]));
                assert(scan(rest, machine@) == Some(rest[0]));
            }
            return Some(idx);
        }
        proof {
            let rest = program@.rules.skip(idx as int);
            assert(rest[0] == program@.rules[idx as int]);
            assert(!fires(machine@, rest[0]));
            assert(rest.drop_first() =~= program@.rules.skip(idx as int + 1));
        }
        idx += 1;
    }
    proof {
        assert(program@.rules.skip(n as int).len() == 0);
    }
    None
}

/// Interpret the program starting from the initial machine, under a fuel
/// budget.
///
/// Rules are tried in program order; when one fires it is applied and the
/// scan restarts from the first rule; when none fires the machine halts and
/// is returned together with the number of firings. Each firing consumes one
/// unit of fuel; when a rule fires with at most one unit left the run is
/// abandoned with [`ErrorCode::OutOfFuel`]. The result is exactly what the
/// model's [`run`] function computes.
pub fn interpret(initial_machine: Machine, program: &Program, fuel: u64) -> (r: Result<
    (u64, Machine),
    ErrorCode,
>)
    requires
        prog_wf(program@),
        initial_machine@.tapes.len() == program@.tapes,
        valid_tapes(initial_machine@.tapes),
        run_bounded(program@, initial_machine@, fuel as nat),
    ensures
        match r {
            Ok(res) => run(program@, initial_machine@, fuel as nat) == (RunOutcome::Halted {
                steps: res.0 as nat,
                end: res.1@,
            }),
            Err(e) => e is OutOfFuel && run(program@, initial_machine@, fuel as nat)
                is OutOfFuel,
        },
{
    let ghost init = initial_machine@;
    let mut machine = initial_machine;
    let mut counter: u64 = 0;
    proof {
        lemma_add_steps_zero(run(program@, init, fuel as nat));
    }
    loop
        invariant
            init == initial_machine@,
            prog_wf(program@),
            machine@.tapes.len() == program@.tapes,
            valid_tapes(machine@.tapes),
            counter == 0 || counter < fuel,
            run_bounded(program@, machine@, (fuel - counter) as nat),
            run(program@, init, fuel as nat) == add_steps(
                run(program@, machine@, (fuel - counter) as nat),
                counter as nat,
            ),
        decreases fuel - counter,
    {
        let ghost b = (fuel - counter) as nat;
        match first_applicable(&machine, program) {
            None => {
                proof {
                    assert(run(program@, machine@, b) == (RunOutcome::Halted {
                        steps: 0,
                        end: machine@,
                    }));
                }
                return Ok((counter, machine));
            },
            Some(i) => {
                let ghost prev = machine@;
                let ghost r = program@.rules[i as int];
                proof {
                    // one unfolding of run_bounded supplies the overflow bound
                    assert(run_bounded(program@, prev, b));
                    assert(tapes_bounded(apply_adj(prev.tapes, r.adj)));
                }
                machine.apply_rule(&program.rules[i]);
                counter = counter + 1;
                if counter >= fuel {
                    proof {
                        assert(b <= 1);
                        assert(run(program@, prev, b) is OutOfFuel);
                    }
                    return Err(ErrorCode::OutOfFuel);
                }
                proof {
                    assert(b >= 2);
                    assert(machine@ == apply_to(prev, r));
                    assert(run(program@, prev, b) == add_steps(
                        run(program@, machine@, (b - 1) as nat),
                        1,
                    ));
                    lemma_add_steps_compose(
                        run(program@, machine@, (b - 1) as nat),
                        1,
                        (counter - 1) as nat,
                    );
                    assert((fuel - counter) as nat == (b - 1) as nat);
                }
            },
        }
    }
}

} // verus!
