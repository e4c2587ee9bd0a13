//! Marvellous transpiler: state elimination for magnificent Minsky machines.
//!
//! A marvellous Minsky machine is a Minsky machine whose program uses only
//! one control state. Any program can be rewritten into this form by encoding
//! the control state in extra tapes.
//!
//! Suppose program A has `n` tapes and its rules mention `m` distinct states.
//! The distinct states are collected, sorted ascending and relabelled
//! `0 .. m-1` (a deterministic, order-independent relabelling). The output
//! program B has the single state 0 and `n + 2*m` tapes: the first `n` mirror
//! A's tapes, and for each relabelled state `s` there are two auxiliary
//! tapes, an active flag at `n + 2*s` and a relay at `n + 2*s + 1`, which
//! encode that B is currently emulating state `s`.
//!
//! A rule of A firing in (relabelled) state `s` with next state `t` is
//! translated as follows; its first `n` adjustments are copied verbatim.
//!
//! - Self-loop (`s == t`): two rules are emitted. The first carries the
//!   copied adjustments plus a guard `-1` on the active flag of `s` and an
//!   action `+1` on the relay of `s`; the second is zero on the first `n`
//!   tapes and moves the relay back to the active flag. Two micro-steps of B
//!   emulate one firing of A.
//! - Transition (`s != t`): one rule is emitted, carrying the copied
//!   adjustments plus a guard `-1` on the active flag of `s` and an action
//!   `+1` on the active flag of `t`.
//!
//! Each rule's translation block is emitted at the position of its source
//! rule, so B's first-applicable scan replays exactly the firing order of A.
//! An initial machine for B copies A's tape positions, sets the active flag
//! of A's (relabelled) initial state to 1 and every other auxiliary tape
//! to 0. The equivalence between A and B is proved in [`crate::equiv`].

use crate::magnificent::{int_tapes, prog_wf, Program, ProgModel, Rule, RuleModel};
use vstd::prelude::*;

verus! {

//////////////////////////////////////////////////////////////////////////////
// The state table: distinct states, sorted ascending

/// Strictly ascending, hence duplicate-free.
pub open spec fn sorted_nodup(s: Seq<nat>) -> bool {
    forall|i: int, j: int| 0 <= i < j < s.len() ==> s[i] < s[j]
}

/// The view of a vector of `usize` states as a sequence of naturals.
pub open spec fn nat_table(v: Seq<usize>) -> Seq<nat> {
    v.map_values(|x: usize| x as nat)
}

/// Inserts a state into an ascending table, before the first entry that is
/// not below it; an already-present state leaves the table unchanged.
pub open spec fn insert_sorted(s: Seq<nat>, x: nat) -> Seq<nat>
    decreases s.len(),
{
    if s.len() == 0 {
        seq![x]
    } else if x < s[0] {
        seq![x] + s
    } else if x == s[0] {
        s
    } else {
        seq![s[0]] + insert_sorted(s.drop_first(), x)
    }
}

/// The table of every state a rule sequence mentions, collected in rule
/// order (current state before next state) and kept sorted ascending.
pub open spec fn table_of_rules(rules: Seq<RuleModel>) -> Seq<nat>
    decreases rules.len(),
{
    if rules.len() == 0 {
        Seq::empty()
    } else {
        insert_sorted(
            insert_sorted(table_of_rules(rules.drop_last()), rules.last().cur),
            rules.last().next,
        )
    }
}

/// The sorted table of the distinct states a program mentions. Its length is
/// the number of distinct states, and the position of a state in it is the
/// state's relabelled value.
pub open spec fn state_table(p: ProgModel) -> Seq<nat> {
    table_of_rules(p.rules)
}

/// The rule mentions this state, as its current or its next state.
pub open spec fn rule_mentions(r: RuleModel, y: nat) -> bool {
    r.cur == y || r.next == y
}

/// Some rule of the sequence mentions this state.
pub open spec fn mentions(rules: Seq<RuleModel>, y: nat) -> bool {
    exists|i: int| 0 <= i < rules.len() && #[trigger] rule_mentions(rules[i], y)
}

/// The position of a contained state is a valid table index holding it.
pub proof fn lemma_index_of(table: Seq<nat>, y: nat)
    requires
        table.contains(y),
    ensures
        0 <= table.index_of(y) < table.len(),
        table[table.index_of(y)] == y,
{
    assert(exists|i: int| 0 <= i < table.len() && table[i] == y);
}

/// Inserting keeps the table ascending and adds exactly the new state.
pub proof fn lemma_insert_sorted(s: Seq<nat>, x: nat)
    requires
        sorted_nodup(s),
    ensures
        sorted_nodup(insert_sorted(s, x)),
        forall|y: nat| #[trigger] insert_sorted(s, x).contains(y) <==> (s.contains(y) || y == x),
        s.len() <= insert_sorted(s, x).len() <= s.len() + 1,
    decreases s.len(),
{
    let out = insert_sorted(s, x);
    if s.len() == 0 {
        assert(out[0] == x);
        assert forall|y: nat| #[trigger] out.contains(y) <==> (s.contains(y) || y == x) by {
            if y == x {
                assert(out[0] == y);
            }
            if out.contains(y) {
                let i = choose|i: int| 0 <= i < out.len() && out[i] == y;
                assert(i == 0);
            }
        }
    } else if x < s[0] {
        assert(out == seq![x] + s);
        assert forall|i: int, j: int| 0 <= i < j < out.len() implies out[i] < out[j] by {
            if i == 0 {
                assert(out[0] == x);
                assert(out[j] == s[j - 1]);
                if j > 1 {
                    assert(s[0] < s[j - 1]);
                }
            } else {
                assert(out[i] == s[i - 1] && out[j] == s[j - 1]);
            }
        }
        assert forall|y: nat| #[trigger] out.contains(y) <==> (s.contains(y) || y == x) by {
            if out.contains(y) {
                let i = choose|i: int| 0 <= i < out.len() && out[i] == y;
                if i > 0 {
                    assert(s[i - 1] == y);
                }
            }
            if y == x {
                assert(out[0] == y);
            }
            if s.contains(y) {
                let i = choose|i: int| 0 <= i < s.len() && s[i] == y;
                assert(out[i + 1] == y);
            }
        }
    } else if x == s[0] {
        assert(s[0] == x);
        assert forall|y: nat| #[trigger] out.contains(y) <==> (s.contains(y) || y == x) by {
            if y == x {
                assert(s.contains(y));
            }
        }
    } else {
        let rest = s.drop_first();
        assert(sorted_nodup(rest)) by {
            assert forall|i: int, j: int| 0 <= i < j < rest.len() implies rest[i] < rest[j] by {
                assert(rest[i] == s[i + 1] && rest[j] == s[j + 1]);
            }
        }
        lemma_insert_sorted(rest, x);
        let ins = insert_sorted(rest, x);
        assert(out == seq![s[0]] + ins);
        assert forall|i: int, j: int| 0 <= i < j < out.len() implies out[i] < out[j] by {
            if i == 0 {
                assert(out[j] == ins[j - 1]);
                assert(ins.contains(ins[j - 1]));
                if ins[j - 1] != x {
                    assert(rest.contains(ins[j - 1]));
                    let k = choose|k: int| 0 <= k < rest.len() && rest[k] == ins[j - 1];
                    assert(s[k + 1] == ins[j - 1]);
                    assert(s[0] < s[k + 1]);
                }
            } else {
                assert(out[i] == ins[i - 1] && out[j] == ins[j - 1]);
            }
        }
        assert forall|y: nat| #[trigger] out.contains(y) <==> (s.contains(y) || y == x) by {
            if out.contains(y) {
                let i = choose|i: int| 0 <= i < out.len() && out[i] == y;
                if i == 0 {
                    assert(s[0] == y);
                } else {
                    assert(ins[i - 1] == y);
                    assert(ins.contains(y));
                    if y != x {
                        let k = choose|k: int| 0 <= k < rest.len() && rest[k] == y;
                        assert(s[k + 1] == y);
                    }
                }
            }
            if y == x {
                assert(ins.contains(y));
                let k = choose|k: int| 0 <= k < ins.len() && ins[k] == y;
                assert(out[k + 1] == y);
            }
            if s.contains(y) {
                let i = choose|i: int| 0 <= i < s.len() && s[i] == y;
                if i == 0 {
                    assert(out[0] == y);
                } else {
                    assert(rest[i - 1] == y);
                    assert(rest.contains(y));
                    assert(ins.contains(y));
                    let k = choose|k: int| 0 <= k < ins.len() && ins[k] == y;
                    assert(out[k + 1] == y);
                }
            }
        }
    }
}

/// The state table is ascending and holds exactly the states the rules
/// mention.
pub proof fn lemma_table_of_rules(rules: Seq<RuleModel>)
    ensures
        sorted_nodup(table_of_rules(rules)),
        forall|y: nat| #[trigger] table_of_rules(rules).contains(y) <==> mentions(rules, y),
        table_of_rules(rules).len() <= 2 * rules.len(),
    decreases rules.len(),
{
    if rules.len() == 0 {
        assert forall|y: nat| #[trigger] table_of_rules(rules).contains(y) <==> mentions(
            rules,
            y,
        ) by {
            if table_of_rules(rules).contains(y) {
                let i = choose|i: int|
                    0 <= i < table_of_rules(rules).len() && table_of_rules(rules)[i] == y;
            }
        }
    } else {
        let prev = rules.drop_last();
        lemma_table_of_rules(prev);
        let t0 = table_of_rules(prev);
        let last = rules.last();
        lemma_insert_sorted(t0, last.cur);
        let t1 = insert_sorted(t0, last.cur);
        lemma_insert_sorted(t1, last.next);
        assert forall|y: nat| #[trigger] table_of_rules(rules).contains(y) implies mentions(
            rules,
            y,
        ) by {
            if y == last.cur || y == last.next {
                assert(rule_mentions(rules[rules.len() - 1], y));
            } else {
                assert(t0.contains(y));
                assert(mentions(prev, y));
                let i = choose|i: int| 0 <= i < prev.len() && #[trigger] rule_mentions(prev[i], y);
                assert(prev[i] =~= rules[i]);
                assert(rule_mentions(rules[i], y));
            }
        }
        assert forall|y: nat| mentions(rules, y) implies #[trigger] table_of_rules(rules).contains(
            y,
        ) by {
            let i = choose|i: int| 0 <= i < rules.len() && #[trigger] rule_mentions(rules[i], y);
            if i == rules.len() - 1 {
                assert(rules[i] == last);
                assert(y == last.cur || y == last.next);
                assert(t1.contains(last.cur));
                assert(table_of_rules(rules).contains(last.cur));
                assert(table_of_rules(rules).contains(last.next));
            } else {
                assert(prev[i] =~= rules[i]);
                assert(rule_mentions(prev[i], y));
                assert(mentions(prev, y));
                assert(t0.contains(y));
                assert(t1.contains(y));
            }
        }
    }
}

//////////////////////////////////////////////////////////////////////////////
// Rule translation, at the model level

/// The tape index of the active flag of relabelled state `j`.
pub open spec fn flag_idx(n: nat, j: int) -> int {
    n + 2 * j
}

/// The tape index of the relay of relabelled state `j`.
pub open spec fn relay_idx(n: nat, j: int) -> int {
    n + 2 * j + 1
}

/// The adjustments extended with zeroes to the new tape count.
pub open spec fn widen(adj: Seq<int>, width: nat) -> Seq<int> {
    Seq::new(width, |i: int| if i < adj.len() { adj[i] } else { 0 })
}

/// The main rule translating `r`: the copied adjustments, a guard on the
/// active flag of `r.cur`, and an action on the relay of `r.cur` (self-loop)
/// or on the active flag of `r.next` (transition).
pub open spec fn alpha_rule(r: RuleModel, table: Seq<nat>, n: nat) -> RuleModel {
    let width = (n + 2 * table.len()) as nat;
    let s = table.index_of(r.cur);
    if r.cur == r.next {
        RuleModel {
            cur: 0,
            next: 0,
            adj: widen(r.adj, width).update(flag_idx(n, s), -1).update(relay_idx(n, s), 1),
        }
    } else {
        let t = table.index_of(r.next);
        RuleModel {
            cur: 0,
            next: 0,
            adj: widen(r.adj, width).update(flag_idx(n, s), -1).update(flag_idx(n, t), 1),
        }
    }
}

/// The bookkeeping rule emitted after a self-loop's translation: it moves the
/// relay of relabelled state `s` back to the active flag and touches nothing
/// else.
pub open spec fn beta_rule(s: int, n: nat, m: nat) -> RuleModel {
    let width = (n + 2 * m) as nat;
    RuleModel {
        cur: 0,
        next: 0,
        adj: widen(Seq::<int>::empty(), width).update(flag_idx(n, s), 1).update(
            relay_idx(n, s),
            -1,
        ),
    }
}

/// The translation block of one rule: two rules for a self-loop, one for a
/// transition.
pub open spec fn translate(r: RuleModel, table: Seq<nat>, n: nat) -> Seq<RuleModel> {
    if r.cur == r.next {
        seq![
            alpha_rule(r, table, n),
            beta_rule(table.index_of(r.cur), n, table.len()),
        ]
    } else {
        seq![alpha_rule(r, table, n)]
    }
}

/// The translation blocks of all rules, in rule order.
pub open spec fn transpile_rules(rules: Seq<RuleModel>, table: Seq<nat>, n: nat) -> Seq<RuleModel>
    decreases rules.len(),
{
    if rules.len() == 0 {
        Seq::empty()
    } else {
        translate(rules[0], table, n) + transpile_rules(rules.drop_first(), table, n)
    }
}

/// The number of rules the translation of a rule sequence emits: two per
/// self-loop rule, one per transition rule.
pub open spec fn translated_count(rules: Seq<RuleModel>) -> nat
    decreases rules.len(),
{
    if rules.len() == 0 {
        0
    } else {
        (if rules[0].cur == rules[0].next {
            2nat
        } else {
            1nat
        }) + translated_count(rules.drop_first())
    }
}

/// The transpiled program: single state 0, `n + 2*m` tapes, and the
/// translation blocks of the original rules in order.
pub open spec fn spec_transpile(p: ProgModel) -> ProgModel {
    let table = state_table(p);
    ProgModel {
        tapes: (p.tapes + 2 * table.len()) as nat,
        rules: transpile_rules(p.rules, table, p.tapes),
    }
}

/// Peeling the last rule off a translation.
pub proof fn lemma_transpile_rules_snoc(rules: Seq<RuleModel>, table: Seq<nat>, n: nat)
    requires
        rules.len() > 0,
    ensures
        transpile_rules(rules, table, n) == transpile_rules(rules.drop_last(), table, n)
            + translate(rules.last(), table, n),
    decreases rules.len(),
{
    if rules.len() == 1 {
        assert(rules.drop_first().len() == 0);
        assert(rules.drop_last().len() == 0);
        assert(rules[0] == rules.last());
        assert(transpile_rules(rules.drop_first(), table, n) =~= Seq::<RuleModel>::empty());
        assert(transpile_rules(rules.drop_last(), table, n) =~= Seq::<RuleModel>::empty());
        assert(transpile_rules(rules, table, n) =~= transpile_rules(rules.drop_last(), table, n)
            + translate(rules.last(), table, n));
    } else {
        let rest = rules.drop_first();
        lemma_transpile_rules_snoc(rest, table, n);
        assert(rest.drop_last() =~= rules.drop_last().drop_first());
        assert(rest.last() == rules.last());
        assert(rules.drop_last()[0] == rules[0]);
        // unfold both sides one level and use the induction hypothesis
        assert(transpile_rules(rules, table, n) == translate(rules[0], table, n)
            + transpile_rules(rest, table, n));
        assert(transpile_rules(rules.drop_last(), table, n) == translate(rules[0], table, n)
            + transpile_rules(rest.drop_last(), table, n));
        assert(transpile_rules(rules, table, n) =~= transpile_rules(rules.drop_last(), table, n)
            + translate(rules.last(), table, n));
    }
}

/// The translation emits `translated_count` rules, between one and two per
/// original rule.
pub proof fn lemma_transpile_rules_len(rules: Seq<RuleModel>, table: Seq<nat>, n: nat)
    ensures
        transpile_rules(rules, table, n).len() == translated_count(rules),
        rules.len() <= translated_count(rules) <= 2 * rules.len(),
    decreases rules.len(),
{
    if rules.len() > 0 {
        lemma_transpile_rules_len(rules.drop_first(), table, n);
    }
}

/// Every rule in a translation block fires in state 0, returns to state 0,
/// and adjusts exactly the new number of tapes.
pub proof fn lemma_translate_wf(r: RuleModel, table: Seq<nat>, n: nat)
    requires
        table.contains(r.cur),
        table.contains(r.next),
    ensures
        forall|i: int|
            0 <= i < translate(r, table, n).len() ==> {
                let tr = #[trigger] translate(r, table, n)[i];
                tr.cur == 0 && tr.next == 0 && tr.adj.len() == n + 2 * table.len()
            },
{
    let block = translate(r, table, n);
    let width = (n + 2 * table.len()) as nat;
    let s = table.index_of(r.cur);
    let t = table.index_of(r.next);
    lemma_index_of(table, r.cur);
    lemma_index_of(table, r.next);
    assert(width == n + 2 * table.len());
    assert(widen(r.adj, width).len() == width);
    assert(0 <= flag_idx(n, s) < width && 0 <= relay_idx(n, s) < width);
    assert(0 <= flag_idx(n, t) < width);
    assert(block[0] == alpha_rule(r, table, n));
    assert(alpha_rule(r, table, n).adj.len() == width);
    if r.cur == r.next {
        assert(widen(Seq::<int>::empty(), width).len() == width);
        assert(block[1] == beta_rule(s, n, table.len()));
        assert(beta_rule(s, n, table.len()).adj.len() == width);
    }
}

/// Every translated rule fires in state 0, returns to state 0, and adjusts
/// exactly the new number of tapes; the transpiled program is well formed.
pub proof fn lemma_transpile_rules_wf(rules: Seq<RuleModel>, table: Seq<nat>, n: nat)
    requires
        forall|i: int|
            0 <= i < rules.len() ==> table.contains(#[trigger] rules[i].cur) && table.contains(
                rules[i].next,
            ),
    ensures
        forall|i: int|
            0 <= i < transpile_rules(rules, table, n).len() ==> {
                let r = #[trigger] transpile_rules(rules, table, n)[i];
                r.cur == 0 && r.next == 0 && r.adj.len() == n + 2 * table.len()
            },
    decreases rules.len(),
{
    if rules.len() > 0 {
        assert forall|i: int|
            0 <= i < rules.drop_first().len() implies table.contains(
            #[trigger] rules.drop_first()[i].cur,
        ) && table.contains(rules.drop_first()[i].next) by {
            assert(rules.drop_first()[i] =~= rules[i + 1]);
        }
        lemma_transpile_rules_wf(rules.drop_first(), table, n);
        lemma_translate_wf(rules[0], table, n);
        let block = translate(rules[0], table, n);
        assert forall|i: int|
            0 <= i < transpile_rules(rules, table, n).len() implies {
            let r = #[trigger] transpile_rules(rules, table, n)[i];
            r.cur == 0 && r.next == 0 && r.adj.len() == n + 2 * table.len()
        } by {
            if i < block.len() {
                assert(transpile_rules(rules, table, n)[i] == block[i]);
            } else {
                assert(transpile_rules(rules, table, n)[i] == transpile_rules(
                    rules.drop_first(),
                    table,
                    n,
                )[i - block.len()]);
            }
        }
    }
}

//////////////////////////////////////////////////////////////////////////////
// Executable transpiler

/// Positional description of `insert_sorted`: it inserts before the first
/// entry not below `x`, or leaves the table unchanged when that entry is `x`
/// itself.
proof fn lemma_insert_sorted_at(s: Seq<nat>, x: nat, idx: int)
    requires
        0 <= idx <= s.len(),
        forall|j: int| 0 <= j < idx ==> s[j] < x,
        idx < s.len() ==> s[idx] >= x,
    ensures
        insert_sorted(s, x) == if idx < s.len() && s[idx] == x {
            s
        } else {
            s.insert(idx, x)
        },
    decreases s.len(),
{
    if idx == 0 {
        if s.len() == 0 {
            assert(insert_sorted(s, x) =~= s.insert(0, x));
        } else if x < s[0] {
            assert(insert_sorted(s, x) =~= s.insert(0, x));
        } else {
            assert(s[0] == x);
        }
    } else {
        assert(s[0] < x);
        let rest = s.drop_first();
        lemma_insert_sorted_at(rest, x, idx - 1);
        if idx < s.len() && s[idx] == x {
            assert(rest[idx - 1] == x);
            assert(insert_sorted(s, x) =~= s);
        } else {
            assert(insert_sorted(s, x) =~= s.insert(idx, x));
        }
    }
}

/// Inserts a state into the ascending table, keeping it ascending and
/// duplicate-free.
fn insert_state(table: &mut Vec<usize>, x: usize)
    ensures
        nat_table(final(table)@) == insert_sorted(nat_table(old(table)@), x as nat),
{
    let n = table.len();
    let mut idx: usize = 0;
    while idx < n && table[idx] < x
        invariant
            n == table.len(),
            table@ == old(table)@,
            idx <= n,
            forall|j: int| 0 <= j < idx ==> nat_table(table@)[j] < x as nat,
        decreases n - idx,
    {
        idx += 1;
    }
    proof {
        assert(idx < n ==> nat_table(table@)[idx as int] >= x as nat);
        lemma_insert_sorted_at(nat_table(table@), x as nat, idx as int);
    }
    if idx < n && table[idx] == x {
    } else {
        table.insert(idx, x);
        proof {
            assert(nat_table(table@) =~= insert_sorted(nat_table(old(table)@), x as nat));
        }
    }
}

/// Collects the distinct states the program's rules mention into an
/// ascending table; a state's position in the table is its relabelled value.
fn compute_state_map(program: &Program) -> (table: Vec<usize>)
    ensures
        nat_table(table@) == state_table(program@),
{
    let mut table: Vec<usize> = Vec::new();
    let n = program.rules.len();
    let mut i: usize = 0;
    proof {
        assert(program@.rules.take(0) =~= Seq::<RuleModel>::empty());
        assert(nat_table(table@) =~= table_of_rules(program@.rules.take(0)));
    }
    while i < n
        invariant
            n == program@.rules.len(),
            i <= n,
            nat_table(table@) == table_of_rules(program@.rules.take(i as int)),
        decreases n - i,
    {
        let rule = &program.rules[i];
        proof {
            assert(program@.rules[i as int] == rule@);
        }
        insert_state(&mut table, rule.cur_state);
        insert_state(&mut table, rule.next_state);
        proof {
            let rules = program@.rules;
            assert(rules.take(i as int + 1).drop_last() =~= rules.take(i as int));
            assert(rules.take(i as int + 1).last() == rules[i as int]);
        }
        i += 1;
    }
    proof {
        assert(program@.rules.take(n as int) =~= program@.rules);
    }
    table
}

/// The position of a state in the table.
fn state_index(table: &Vec<usize>, x: usize) -> (i: usize)
    requires
        sorted_nodup(nat_table(table@)),
        nat_table(table@).contains(x as nat),
    ensures
        i < table@.len(),
        i as int == nat_table(table@).index_of(x as nat),
        nat_table(table@)[i as int] == x as nat,
{
    let n = table.len();
    let mut i: usize = 0;
    while i < n
        invariant
            n == table.len(),
            i <= n,
            sorted_nodup(nat_table(table@)),
            nat_table(table@).contains(x as nat),
            forall|j: int| 0 <= j < i ==> nat_table(table@)[j] != x as nat,
        decreases n - i,
    {
        if table[i] == x {
            proof {
                let t = nat_table(table@);
                assert(t.contains(x as nat));
                let k = t.index_of(x as nat);
                assert(0 <= k < t.len() && t[k] == x as nat);
                if k != i as int {
                    assert(t[k] != t[i as int]);
                }
            }
            return i;
        }
        i += 1;
    }
    proof {
        let t = nat_table(table@);
        let k = choose|k: int| 0 <= k < t.len() && t[k] == x as nat;
        assert(false);
    }
    0
}

/// Produces the translation block of one rule: two rules for a self-loop,
/// one for a transition (see the module documentation).
fn translate_rule(rule: &Rule, table: &Vec<usize>, num_tapes: usize) -> (out: Vec<Rule>)
    requires
        sorted_nodup(nat_table(table@)),
        nat_table(table@).contains(rule@.cur),
        nat_table(table@).contains(rule@.next),
        rule@.adj.len() + 2 * table@.len() == num_tapes as nat,
    ensures
        out@.map_values(|r: Rule| r@) == translate(rule@, nat_table(table@), rule@.adj.len()),
{
    let ghost t = nat_table(table@);
    let ghost n = rule@.adj.len();
    let orig_tapes = rule.len();
    let m = table.len();

    // duplicate the original tape adjustments
    let mut new_rule: Vec<i32> = vec![0; num_tapes];
    let mut i: usize = 0;
    while i < orig_tapes
        invariant
            orig_tapes == rule@.adj.len(),
            new_rule@.len() == num_tapes,
            orig_tapes <= num_tapes,
            i <= orig_tapes,
            forall|j: int| 0 <= j < i ==> new_rule@[j] as int == rule@.adj[j],
            forall|j: int| i <= j < num_tapes ==> new_rule@[j] == 0i32,
        decreases orig_tapes - i,
    {
        new_rule[i] = rule.rule[i];
        i += 1;
    }

    let s = state_index(table, rule.cur_state);
    proof {
        assert(s < table@.len());
        assert(orig_tapes + 2 * s + 1 < num_tapes);
    }
    let mut ret_rules: Vec<Rule> = Vec::new();
    if rule.cur_state == rule.next_state {
        // two new rules: the translated rule raises the relay of `s`, and
        // the bookkeeping rule lowers it back onto the active flag
        new_rule[orig_tapes + 2 * s] = -1;
        new_rule[orig_tapes + 2 * s + 1] = 1;

        let mut aux_rule: Vec<i32> = vec![0; num_tapes];
        aux_rule[orig_tapes + 2 * s] = 1;
        aux_rule[orig_tapes + 2 * s + 1] = -1;

        proof {
            let alpha = alpha_rule(rule@, t, n);
            assert(int_tapes(new_rule@) =~= alpha.adj);
            let beta = beta_rule(t.index_of(rule@.cur), n, t.len());
            assert(int_tapes(aux_rule@) =~= beta.adj);
        }
        ret_rules.push(Rule::new(0, 0, new_rule));
        ret_rules.push(Rule::new(0, 0, aux_rule));
        proof {
            assert(ret_rules@.map_values(|r: Rule| r@) =~= translate(rule@, t, n));
        }
    } else {
        // one new rule, moving the active flag from `s` to `t2`
        let t2 = state_index(table, rule.next_state);
        proof {
            assert(t2 < table@.len());
            assert(orig_tapes + 2 * t2 < num_tapes);
            assert(t.index_of(rule@.cur) != t.index_of(rule@.next));
        }
        new_rule[orig_tapes + 2 * s] = -1;
        new_rule[orig_tapes + 2 * t2] = 1;
        proof {
            let alpha = alpha_rule(rule@, t, n);
            assert(int_tapes(new_rule@) =~= alpha.adj);
        }
        ret_rules.push(Rule::new(0, 0, new_rule));
        proof {
            assert(ret_rules@.map_values(|r: Rule| r@) =~= translate(rule@, t, n));
        }
    }
    ret_rules
}

/// Rewrites a well-formed program into an equivalent program with the single
/// state 0 (see the module documentation). The result is exactly the model's
/// [`spec_transpile`]; it is well formed, has `n + 2*m` tapes for `m` the
/// number of distinct states mentioned, and has between one and two rules
/// per original rule: two per self-loop rule, one per transition rule.
pub fn transpile(program: &Program) -> (out: Program)
    requires
        prog_wf(program@),
        program@.tapes + 2 * state_table(program@).len() <= usize::MAX,
    ensures
        out@ == spec_transpile(program@),
        prog_wf(out@),
        out@.tapes == program@.tapes + 2 * state_table(program@).len(),
        out@.rules.len() == translated_count(program@.rules),
        program@.rules.len() <= out@.rules.len() <= 2 * program@.rules.len(),
{
    let ghost t = state_table(program@);
    proof {
        lemma_table_of_rules(program@.rules);
        lemma_transpile_rules_len(program@.rules, t, program@.tapes);
        assert forall|i: int|
            0 <= i < program@.rules.len() implies t.contains(
            #[trigger] program@.rules[i].cur,
        ) && t.contains(program@.rules[i].next) by {
            assert(rule_mentions(program@.rules[i], program@.rules[i].cur));
            assert(rule_mentions(program@.rules[i], program@.rules[i].next));
            assert(mentions(program@.rules, program@.rules[i].cur));
            assert(mentions(program@.rules, program@.rules[i].next));
        }
        lemma_transpile_rules_wf(program@.rules, t, program@.tapes);
    }
    let table = compute_state_map(program);
    let num_orig_states = table.len();
    let new_num_tapes = program.num_tapes + 2 * num_orig_states;

    let mut new_rules: Vec<Rule> = Vec::new();
    let n_rules = program.rules.len();
    let mut i: usize = 0;
    proof {
        assert(program@.rules.take(0) =~= Seq::<RuleModel>::empty());
        assert(new_rules@.map_values(|r: Rule| r@) =~= transpile_rules(
            program@.rules.take(0),
            t,
            program@.tapes,
        ));
    }
    while i < n_rules
        invariant
            n_rules == program@.rules.len(),
            i <= n_rules,
            prog_wf(program@),
            nat_table(table@) == t,
            t == state_table(program@),
            sorted_nodup(t),
            forall|y: nat| #[trigger] t.contains(y) <==> mentions(program@.rules, y),
            new_num_tapes as nat == program@.tapes + 2 * t.len(),
            new_rules@.map_values(|r: Rule| r@) == transpile_rules(
                program@.rules.take(i as int),
                t,
                program@.tapes,
            ),
        decreases n_rules - i,
    {
        let rule = &program.rules[i];
        proof {
            assert(program@.rules[i as int] == rule@);
            assert(program@.rules[i as int].adj.len() == program@.tapes);
            assert(rule_mentions(program@.rules[i as int], rule@.cur));
            assert(rule_mentions(program@.rules[i as int], rule@.next));
            assert(mentions(program@.rules, rule@.cur));
            assert(mentions(program@.rules, rule@.next));
        }
        let mut translated = translate_rule(rule, &table, new_num_tapes);
        let ghost before = new_rules@;
        new_rules.append(&mut translated);
        proof {
            let rules = program@.rules;
            lemma_transpile_rules_snoc(rules.take(i as int + 1), t, program@.tapes);
            assert(rules.take(i as int + 1).drop_last() =~= rules.take(i as int));
            assert(rules.take(i as int + 1).last() == rules[i as int]);
            assert(new_rules@.map_values(|r: Rule| r@) =~= transpile_rules(
                rules.take(i as int + 1),
                t,
                program@.tapes,
            ));
        }
        i += 1;
    }
    proof {
        assert(program@.rules.take(n_rules as int) =~= program@.rules);
    }
    let out = Program::new(new_num_tapes, new_rules);
    proof {
        assert(out@ =~= spec_transpile(program@));
    }
    out
}

} // verus!
