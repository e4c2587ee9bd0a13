//! Equivalence of a program and its transpilation.
//!
//! The transpiler of [`crate::marvellous`] encodes the control state of a
//! program A in auxiliary tapes of a single-state program B. This module
//! proves that the encoding is faithful: running B from the configuration
//! corresponding to a configuration of A replays exactly A's firing
//! sequence — one B-firing per transition rule, two per self-loop rule — and
//! halts exactly when A halts, with the same positions on the original
//! tapes. [`lemma_transpile_preserves_halting`] and
//! [`lemma_transpile_reflects_halting`] state the two directions.

use crate::magnificent::{
    add_steps, apply_to, can_apply, fires, prog_wf, run, scan, Config, ProgModel, RuleModel,
    RunOutcome,
};
use crate::marvellous::{
    alpha_rule, beta_rule, flag_idx, lemma_index_of, lemma_table_of_rules, mentions, relay_idx,
    rule_mentions, sorted_nodup, spec_transpile, state_table, translate, transpile_rules, widen,
};
use vstd::prelude::*;

verus! {

//////////////////////////////////////////////////////////////////////////////
// The correspondence between configurations of A and of B

/// Every state a rule of the sequence mentions is in the table.
pub open spec fn states_in(rules: Seq<RuleModel>, table: Seq<nat>) -> bool {
    forall|i: int|
        0 <= i < rules.len() ==> table.contains(#[trigger] rules[i].cur) && table.contains(
            rules[i].next,
        )
}

/// Every rule of the sequence adjusts exactly `n` tapes.
pub open spec fn rules_wf(rules: Seq<RuleModel>, n: nat) -> bool {
    forall|i: int| 0 <= i < rules.len() ==> #[trigger] rules[i].adj.len() == n
}

/// Configuration `d` of the transpiled program corresponds to configuration
/// `c` of the original: `d` is in the single state 0, its first `n` tapes
/// mirror `c`'s tapes, the active flag of `c`'s (relabelled) state holds one,
/// and every other auxiliary tape holds zero.
pub open spec fn corresponds(c: Config, d: Config, table: Seq<nat>, n: nat) -> bool {
    let m = table.len();
    &&& c.tapes.len() == n
    &&& d.state == 0
    &&& d.tapes.len() == n + 2 * m
    &&& table.contains(c.state)
    &&& forall|i: int| 0 <= i < n ==> d.tapes[i] == c.tapes[i]
    &&& forall|j: int|
        0 <= j < m ==> d.tapes[#[trigger] flag_idx(n, j)] == if table[j] == c.state {
            1int
        } else {
            0int
        }
    &&& forall|j: int| 0 <= j < m ==> d.tapes[#[trigger] relay_idx(n, j)] == 0
}

/// The intermediate configuration of the transpiled program after the first
/// of a self-loop's two rules fired: the first `n` tapes already mirror `c`,
/// every active flag is down, and only the relay of `c`'s (relabelled) state
/// holds one.
pub open spec fn relay_corresponds(c: Config, d: Config, table: Seq<nat>, n: nat) -> bool {
    let m = table.len();
    &&& c.tapes.len() == n
    &&& d.state == 0
    &&& d.tapes.len() == n + 2 * m
    &&& table.contains(c.state)
    &&& forall|i: int| 0 <= i < n ==> d.tapes[i] == c.tapes[i]
    &&& forall|j: int| 0 <= j < m ==> d.tapes[#[trigger] flag_idx(n, j)] == 0
    &&& forall|j: int|
        0 <= j < m ==> d.tapes[#[trigger] relay_idx(n, j)] == if table[j] == c.state {
            1int
        } else {
            0int
        }
}

//////////////////////////////////////////////////////////////////////////////
// One rule of B against a corresponding configuration

/// In a corresponding configuration, the main translated rule of `r` fires
/// exactly when `r` fires in the original configuration, and firing it
/// mirrors `r`'s effect on the first `n` tapes while moving the flag or
/// raising the relay.
proof fn lemma_alpha_fires(c: Config, d: Config, table: Seq<nat>, n: nat, r: RuleModel)
    requires
        sorted_nodup(table),
        corresponds(c, d, table, n),
        r.adj.len() == n,
        table.contains(r.cur),
        table.contains(r.next),
    ensures
        fires(d, alpha_rule(r, table, n)) == fires(c, r),
        fires(c, r) && r.cur == r.next ==> relay_corresponds(
            apply_to(c, r),
            apply_to(d, alpha_rule(r, table, n)),
            table,
            n,
        ),
        fires(c, r) && r.cur != r.next ==> corresponds(
            apply_to(c, r),
            apply_to(d, alpha_rule(r, table, n)),
            table,
            n,
        ),
{
    let m = table.len();
    let width = n + 2 * m;
    let alpha = alpha_rule(r, table, n);
    let s = table.index_of(r.cur);
    let t = table.index_of(r.next);
    lemma_index_of(table, r.cur);
    lemma_index_of(table, r.next);
    assert(widen(r.adj, width as nat).len() == width);
    assert(alpha.adj.len() == width);

    // the adjustments of the translated rule, pointwise
    assert(forall|i: int| 0 <= i < n ==> alpha.adj[i] == r.adj[i]);
    if r.cur == r.next {
        assert(s == t);
        assert(alpha.adj[flag_idx(n, s)] == -1);
        assert(alpha.adj[relay_idx(n, s)] == 1);
        assert(forall|j: int|
            0 <= j < m && j != s ==> alpha.adj[#[trigger] flag_idx(n, j)] == 0);
        assert(forall|j: int|
            0 <= j < m && j != s ==> alpha.adj[#[trigger] relay_idx(n, j)] == 0);
    } else {
        assert(s != t);
        assert(alpha.adj[flag_idx(n, s)] == -1);
        assert(alpha.adj[flag_idx(n, t)] == 1);
        assert(forall|j: int|
            0 <= j < m && j != s && j != t ==> alpha.adj[#[trigger] flag_idx(n, j)] == 0);
        assert(forall|j: int| 0 <= j < m ==> alpha.adj[#[trigger] relay_idx(n, j)] == 0);
    }

    // the translated rule fires in d exactly when r fires in c
    if c.state == r.cur && can_apply(c.tapes, r.adj) {
        assert(table[s] == c.state);
        assert(d.tapes[flag_idx(n, s)] == 1);
        assert forall|i: int| 0 <= i < alpha.adj.len() implies #[trigger] alpha.adj[i] >= 0
            || d.tapes[i] >= -alpha.adj[i] by {
            if i < n {
                assert(alpha.adj[i] == r.adj[i] && d.tapes[i] == c.tapes[i]);
            } else if i == flag_idx(n, s) {
                assert(d.tapes[i] == 1);
            } else {
                let j = (i - n) / 2;
                if i == flag_idx(n, j) {
                    assert(alpha.adj[i] >= 0);
                } else {
                    assert(i == relay_idx(n, j));
                    assert(alpha.adj[i] >= 0);
                }
            }
        }
        assert(fires(d, alpha));
    } else {
        if c.state != r.cur {
            assert(table[s] != c.state);
            assert(d.tapes[flag_idx(n, s)] == 0);
            assert(!(alpha.adj[flag_idx(n, s)] >= 0 || d.tapes[flag_idx(n, s)] >= -alpha.adj[
                flag_idx(n, s)]));
            assert(!can_apply(d.tapes, alpha.adj));
        } else {
            let i = choose|i: int|
                0 <= i < r.adj.len() && !(#[trigger] r.adj[i] >= 0 || c.tapes[i] >= -r.adj[i]);
            assert(!(alpha.adj[i] >= 0 || d.tapes[i] >= -alpha.adj[i]));
            assert(!can_apply(d.tapes, alpha.adj));
        }
        assert(!fires(d, alpha));
    }

    // the effect of firing it
    if fires(c, r) {
        let c2 = apply_to(c, r);
        let d2 = apply_to(d, alpha);
        assert(c2.tapes.len() == n);
        assert(d2.tapes.len() == width);
        assert(forall|i: int| 0 <= i < n ==> d2.tapes[i] == c2.tapes[i]);
        assert(table[s] == c.state);
        if r.cur == r.next {
            assert(c2.state == c.state);
            assert(d2.tapes[flag_idx(n, s)] == 0);
            assert(d2.tapes[relay_idx(n, s)] == 1);
            assert forall|j: int| 0 <= j < m implies d2.tapes[#[trigger] flag_idx(n, j)]
                == 0 by {
                if j != s {
                    assert(table[j] != c.state);
                    assert(d.tapes[flag_idx(n, j)] == 0);
                }
            }
            assert forall|j: int| 0 <= j < m implies d2.tapes[#[trigger] relay_idx(n, j)] == (
            if table[j] == c2.state {
                1int
            } else {
                0int
            }) by {
                if j != s {
                    assert(table[j] != c2.state);
                }
            }
            assert(relay_corresponds(c2, d2, table, n));
        } else {
            assert(c2.state == r.next);
            assert(table.contains(c2.state));
            assert(d2.tapes[flag_idx(n, s)] == 0);
            assert(d2.tapes[flag_idx(n, t)] == 1);
            assert(table[t] == c2.state);
            assert forall|j: int| 0 <= j < m implies d2.tapes[#[trigger] flag_idx(n, j)] == (
            if table[j] == c2.state {
                1int
            } else {
                0int
            }) by {
                if j != s && j != t {
                    assert(table[j] != c.state && table[j] != c2.state);
                    assert(d.tapes[flag_idx(n, j)] == 0);
                }
            }
            assert(forall|j: int| 0 <= j < m ==> d2.tapes[#[trigger] relay_idx(n, j)] == 0);
            assert(corresponds(c2, d2, table, n));
        }
    }
}

/// In a corresponding configuration every relay is down, so no bookkeeping
/// rule fires.
proof fn lemma_beta_silent(c: Config, d: Config, table: Seq<nat>, n: nat, s: int)
    requires
        corresponds(c, d, table, n),
        0 <= s < table.len(),
    ensures
        !fires(d, beta_rule(s, n, table.len())),
{
    let m = table.len();
    let beta = beta_rule(s, n, m);
    assert(widen(Seq::<int>::empty(), (n + 2 * m) as nat).len() == n + 2 * m);
    assert(beta.adj[relay_idx(n, s)] == -1);
    assert(d.tapes[relay_idx(n, s)] == 0);
    assert(!(beta.adj[relay_idx(n, s)] >= 0 || d.tapes[relay_idx(n, s)] >= -beta.adj[relay_idx(
        n,
        s,
    )]));
    assert(!can_apply(d.tapes, beta.adj));
}

/// In a relay configuration for state `c.state`, a main translated rule
/// never fires (every active flag is down), and a bookkeeping rule fires
/// exactly when it belongs to `c.state`; firing it restores the
/// correspondence without touching the first `n` tapes.
proof fn lemma_relay_step(c: Config, d: Config, table: Seq<nat>, n: nat, r: RuleModel)
    requires
        sorted_nodup(table),
        relay_corresponds(c, d, table, n),
        r.adj.len() == n,
        table.contains(r.cur),
        table.contains(r.next),
    ensures
        !fires(d, alpha_rule(r, table, n)),
        fires(d, beta_rule(table.index_of(r.cur), n, table.len())) == (r.cur == c.state),
        r.cur == c.state ==> corresponds(
            c,
            apply_to(d, beta_rule(table.index_of(r.cur), n, table.len())),
            table,
            n,
        ),
{
    let m = table.len();
    let width = n + 2 * m;
    let alpha = alpha_rule(r, table, n);
    let s = table.index_of(r.cur);
    let cs = table.index_of(c.state);
    lemma_index_of(table, r.cur);
    lemma_index_of(table, r.next);
    lemma_index_of(table, c.state);
    assert(widen(r.adj, width as nat).len() == width);
    assert(widen(Seq::<int>::empty(), width as nat).len() == width);

    // no active flag is up, so no main rule fires
    assert(alpha.adj[flag_idx(n, s)] == -1);
    assert(d.tapes[flag_idx(n, s)] == 0);
    assert(!(alpha.adj[flag_idx(n, s)] >= 0 || d.tapes[flag_idx(n, s)] >= -alpha.adj[flag_idx(
        n,
        s,
    )]));
    assert(!can_apply(d.tapes, alpha.adj));

    // the bookkeeping rule of relabelled state s fires iff its relay is up
    let beta = beta_rule(s, n, m);
    assert(beta.adj[flag_idx(n, s)] == 1);
    assert(beta.adj[relay_idx(n, s)] == -1);
    assert(forall|i: int| 0 <= i < n ==> beta.adj[i] == 0);
    assert(forall|j: int| 0 <= j < m && j != s ==> beta.adj[#[trigger] flag_idx(n, j)] == 0);
    assert(forall|j: int| 0 <= j < m && j != s ==> beta.adj[#[trigger] relay_idx(n, j)] == 0);
    if r.cur == c.state {
        assert(s == cs);
        assert(d.tapes[relay_idx(n, s)] == 1);
        assert forall|i: int| 0 <= i < beta.adj.len() implies #[trigger] beta.adj[i] >= 0
            || d.tapes[i] >= -beta.adj[i] by {
            if i == relay_idx(n, s) {
                assert(d.tapes[i] == 1);
            } else if i >= n {
                let j = (i - n) / 2;
                if i == flag_idx(n, j) {
                    assert(beta.adj[i] >= 0);
                } else {
                    assert(i == relay_idx(n, j));
                    assert(j != s);
                    assert(beta.adj[i] == 0);
                }
            }
        }
        assert(fires(d, beta));
        let d2 = apply_to(d, beta);
        assert(d2.tapes.len() == width);
        assert(forall|i: int| 0 <= i < n ==> d2.tapes[i] == c.tapes[i]);
        assert(d2.tapes[flag_idx(n, s)] == 1);
        assert(d2.tapes[relay_idx(n, s)] == 0);
        assert(table[s] == c.state);
        assert forall|j: int| 0 <= j < m implies d2.tapes[#[trigger] flag_idx(n, j)] == (if table[j]
            == c.state {
            1int
        } else {
            0int
        }) by {
            if j != s {
                assert(table[j] != c.state);
                assert(d.tapes[flag_idx(n, j)] == 0);
            }
        }
        assert forall|j: int| 0 <= j < m implies d2.tapes[#[trigger] relay_idx(n, j)] == 0 by {
            if j != s {
                assert(table[j] != c.state);
                assert(d.tapes[relay_idx(n, j)] == 0);
            }
        }
        assert(corresponds(c, d2, table, n));
    } else {
        assert(table[s] != c.state);
        assert(d.tapes[relay_idx(n, s)] == 0);
        assert(!(beta.adj[relay_idx(n, s)] >= 0 || d.tapes[relay_idx(n, s)] >= -beta.adj[relay_idx(
            n,
            s,
        )]));
        assert(!can_apply(d.tapes, beta.adj));
        assert(!fires(d, beta));
    }
}

//////////////////////////////////////////////////////////////////////////////
// Scanning the transpiled rule list

/// Scanning a concatenation finds the first firing rule of the first part,
/// or else scans the second part.
proof fn lemma_scan_append(a: Seq<RuleModel>, b: Seq<RuleModel>, c: Config)
    ensures
        scan(a + b, c) == if scan(a, c) is Some {
            scan(a, c)
        } else {
            scan(b, c)
        },
    decreases a.len(),
{
    if a.len() == 0 {
        assert(a + b =~= b);
    } else {
        assert((a + b)[0] == a[0]);
        assert((a + b).drop_first() =~= a.drop_first() + b);
        lemma_scan_append(a.drop_first(), b, c);
    }
}

/// The rule is a self-loop in this state.
pub open spec fn selfloop_in(r: RuleModel, y: nat) -> bool {
    r.cur == y && r.next == y
}

/// Some rule of the sequence is a self-loop in this state.
pub open spec fn has_selfloop(rules: Seq<RuleModel>, y: nat) -> bool {
    exists|i: int| 0 <= i < rules.len() && #[trigger] selfloop_in(rules[i], y)
}

/// Dropping the head rule preserves well-formedness and table membership.
proof fn lemma_drop_first_wf(rules: Seq<RuleModel>, table: Seq<nat>, n: nat)
    requires
        rules.len() > 0,
        rules_wf(rules, n),
        states_in(rules, table),
    ensures
        rules_wf(rules.drop_first(), n),
        states_in(rules.drop_first(), table),
{
    assert forall|i: int| 0 <= i < rules.drop_first().len() implies #[trigger] rules.drop_first()[
        i
    ].adj.len() == n by {
        assert(rules.drop_first()[i] =~= rules[i + 1]);
    }
    assert forall|i: int| 0 <= i < rules.drop_first().len() implies table.contains(
        #[trigger] rules.drop_first()[i].cur,
    ) && table.contains(rules.drop_first()[i].next) by {
        assert(rules.drop_first()[i] =~= rules[i + 1]);
    }
}

/// Scanning the transpiled rules from a corresponding configuration finds
/// the translation of exactly the rule the original scan finds: no
/// bookkeeping rule can fire, and the main translated rules fire as their
/// originals do.
proof fn lemma_scan_correspond(
    rules: Seq<RuleModel>,
    table: Seq<nat>,
    n: nat,
    c: Config,
    d: Config,
)
    requires
        sorted_nodup(table),
        corresponds(c, d, table, n),
        rules_wf(rules, n),
        states_in(rules, table),
    ensures
        match scan(rules, c) {
            None => scan(transpile_rules(rules, table, n), d) is None,
            Some(r) => scan(transpile_rules(rules, table, n), d) == Some(alpha_rule(r, table, n)),
        },
    decreases rules.len(),
{
    if rules.len() > 0 {
        let r0 = rules[0];
        let block = translate(r0, table, n);
        let rest = transpile_rules(rules.drop_first(), table, n);
        assert(transpile_rules(rules, table, n) == block + rest);
        lemma_scan_append(block, rest, d);
        lemma_alpha_fires(c, d, table, n, r0);
        let alpha = alpha_rule(r0, table, n);
        assert(block[0] == alpha);
        if fires(c, r0) {
            assert(scan(block, d) == Some(alpha));
            assert(scan(rules, c) == Some(r0));
        } else {
            assert(!fires(d, alpha));
            if r0.cur == r0.next {
                lemma_index_of(table, r0.cur);
                lemma_beta_silent(c, d, table, n, table.index_of(r0.cur));
                assert(block[1] == beta_rule(table.index_of(r0.cur), n, table.len()));
                assert(block.drop_first()[0] == block[1]);
                assert(block.drop_first().drop_first().len() == 0);
                assert(scan(block.drop_first().drop_first(), d) is None);
                assert(scan(block.drop_first(), d) is None);
                assert(scan(block, d) is None);
            } else {
                assert(block.drop_first().len() == 0);
                assert(scan(block.drop_first(), d) is None);
                assert(scan(block, d) is None);
            }
            lemma_drop_first_wf(rules, table, n);
            lemma_scan_correspond(rules.drop_first(), table, n, c, d);
            assert(scan(rules, c) == scan(rules.drop_first(), c));
        }
    }
}

/// Scanning the transpiled rules from a relay configuration finds the
/// bookkeeping rule of the emulated state if any of its rules is a
/// self-loop, and nothing otherwise: no main translated rule can fire while
/// every active flag is down.
proof fn lemma_scan_relay_list(
    rules: Seq<RuleModel>,
    table: Seq<nat>,
    n: nat,
    c: Config,
    d: Config,
)
    requires
        sorted_nodup(table),
        relay_corresponds(c, d, table, n),
        rules_wf(rules, n),
        states_in(rules, table),
    ensures
        has_selfloop(rules, c.state) ==> scan(transpile_rules(rules, table, n), d) == Some(
            beta_rule(table.index_of(c.state), n, table.len()),
        ),
        !has_selfloop(rules, c.state) ==> scan(transpile_rules(rules, table, n), d) is None,
    decreases rules.len(),
{
    if rules.len() == 0 {
        if has_selfloop(rules, c.state) {
            let i = choose|i: int| 0 <= i < rules.len() && #[trigger] selfloop_in(rules[i], c.state);
            assert(false);
        }
    } else {
        let r0 = rules[0];
        let block = translate(r0, table, n);
        let rest = transpile_rules(rules.drop_first(), table, n);
        assert(transpile_rules(rules, table, n) == block + rest);
        lemma_scan_append(block, rest, d);
        lemma_relay_step(c, d, table, n, r0);
        let alpha = alpha_rule(r0, table, n);
        assert(block[0] == alpha);
        assert(!fires(d, alpha));
        if r0.cur == r0.next && r0.cur == c.state {
            // the head rule's own bookkeeping rule fires
            let s0 = table.index_of(r0.cur);
            assert(fires(d, beta_rule(s0, n, table.len())));
            assert(block[1] == beta_rule(s0, n, table.len()));
            assert(block.drop_first()[0] == block[1]);
            assert(scan(block.drop_first(), d) == Some(block[1]));
            assert(scan(block, d) == Some(block[1]));
            assert(selfloop_in(rules[0], c.state));
            assert(has_selfloop(rules, c.state));
            assert(s0 == table.index_of(c.state));
        } else {
            if r0.cur == r0.next {
                let s0 = table.index_of(r0.cur);
                assert(!fires(d, beta_rule(s0, n, table.len())));
                assert(block[1] == beta_rule(s0, n, table.len()));
                assert(block.drop_first()[0] == block[1]);
                assert(block.drop_first().drop_first().len() == 0);
                assert(scan(block.drop_first().drop_first(), d) is None);
                assert(scan(block.drop_first(), d) is None);
                assert(scan(block, d) is None);
            } else {
                assert(block.drop_first().len() == 0);
                assert(scan(block.drop_first(), d) is None);
                assert(scan(block, d) is None);
            }
            lemma_drop_first_wf(rules, table, n);
            lemma_scan_relay_list(rules.drop_first(), table, n, c, d);
            // the head rule is no self-loop of c.state, so the tail decides
            if has_selfloop(rules, c.state) {
                let i = choose|i: int|
                    0 <= i < rules.len() && #[trigger] selfloop_in(rules[i], c.state);
                assert(i != 0);
                assert(rules.drop_first()[i - 1] =~= rules[i]);
                assert(selfloop_in(rules.drop_first()[i - 1], c.state));
                assert(has_selfloop(rules.drop_first(), c.state));
            }
            if has_selfloop(rules.drop_first(), c.state) {
                let i = choose|i: int|
                    0 <= i < rules.drop_first().len() && #[trigger] selfloop_in(
                        rules.drop_first()[i],
                        c.state,
                    );
                assert(rules.drop_first()[i] =~= rules[i + 1]);
                assert(selfloop_in(rules[i + 1], c.state));
                assert(has_selfloop(rules, c.state));
            }
        }
    }
}

//////////////////////////////////////////////////////////////////////////////
// The two directions of the equivalence

/// The transpiled program, as a program model, for a given state table.
pub open spec fn transpiled(p: ProgModel, table: Seq<nat>) -> ProgModel {
    ProgModel {
        tapes: (p.tapes + 2 * table.len()) as nat,
        rules: transpile_rules(p.rules, table, p.tapes),
    }
}

/// Forward simulation: when the original halts within its budget, the
/// transpiled program, run from the corresponding configuration with twice
/// the budget, halts in a corresponding configuration, taking between one
/// and two firings per original firing.
proof fn lemma_run_preserved(
    p: ProgModel,
    table: Seq<nat>,
    c: Config,
    d: Config,
    ba: nat,
    bb: nat,
)
    requires
        sorted_nodup(table),
        rules_wf(p.rules, p.tapes),
        states_in(p.rules, table),
        corresponds(c, d, table, p.tapes),
        run(p, c, ba) is Halted,
        bb >= 2 * ba,
    ensures
        match (run(p, c, ba), run(transpiled(p, table), d, bb)) {
            (
                RunOutcome::Halted { steps: ka, end: ca },
                RunOutcome::Halted { steps: kb, end: cb },
            ) => corresponds(ca, cb, table, p.tapes) && ka <= kb <= 2 * ka,
            _ => false,
        },
    decreases ba,
{
    let n = p.tapes;
    let bp = transpiled(p, table);
    lemma_scan_correspond(p.rules, table, n, c, d);
    match scan(p.rules, c) {
        None => {
            assert(scan(bp.rules, d) is None);
            assert(run(p, c, ba) == (RunOutcome::Halted { steps: 0nat, end: c }));
            assert(run(bp, d, bb) == (RunOutcome::Halted { steps: 0nat, end: d }));
        },
        Some(r) => {
            assert(ba > 1);
            crate::magnificent::lemma_scan_some(p.rules, c);
            let ri = choose|i: int| 0 <= i < p.rules.len() && p.rules[i] == r;
            assert(p.rules[ri].adj.len() == n);
            assert(table.contains(p.rules[ri].cur) && table.contains(p.rules[ri].next));
            let c2 = apply_to(c, r);
            assert(run(p, c, ba) == add_steps(run(p, c2, (ba - 1) as nat), 1));
            lemma_alpha_fires(c, d, table, n, r);
            let d1 = apply_to(d, alpha_rule(r, table, n));
            assert(scan(bp.rules, d) == Some(alpha_rule(r, table, n)));
            assert(bb >= 4);
            assert(run(bp, d, bb) == add_steps(run(bp, d1, (bb - 1) as nat), 1));
            if r.cur == r.next {
                // the bookkeeping rule restores the correspondence
                assert(relay_corresponds(c2, d1, table, n));
                lemma_scan_relay_list(p.rules, table, n, c2, d1);
                assert(c2.state == r.cur);
                assert(selfloop_in(p.rules[ri], c2.state));
                assert(has_selfloop(p.rules, c2.state));
                let beta = beta_rule(table.index_of(c2.state), n, table.len());
                assert(scan(bp.rules, d1) == Some(beta));
                lemma_relay_step(c2, d1, table, n, r);
                assert(table.index_of(r.cur) == table.index_of(c2.state));
                let d2 = apply_to(d1, beta);
                assert(corresponds(c2, d2, table, n));
                assert(run(bp, d1, (bb - 1) as nat) == add_steps(
                    run(bp, d2, (bb - 2) as nat),
                    1,
                ));
                lemma_run_preserved(p, table, c2, d2, (ba - 1) as nat, (bb - 2) as nat);
            } else {
                assert(corresponds(c2, d1, table, n));
                lemma_run_preserved(p, table, c2, d1, (ba - 1) as nat, (bb - 1) as nat);
            }
        },
    }
}

/// Backward simulation: when the transpiled program halts within some
/// budget, the original, run from the corresponding configuration with the
/// same budget, halts in a corresponding configuration, in at most as many
/// firings.
proof fn lemma_run_reflected(p: ProgModel, table: Seq<nat>, c: Config, d: Config, bb: nat)
    requires
        sorted_nodup(table),
        rules_wf(p.rules, p.tapes),
        states_in(p.rules, table),
        corresponds(c, d, table, p.tapes),
        run(transpiled(p, table), d, bb) is Halted,
    ensures
        match (run(p, c, bb), run(transpiled(p, table), d, bb)) {
            (
                RunOutcome::Halted { steps: ka, end: ca },
                RunOutcome::Halted { steps: kb, end: cb },
            ) => corresponds(ca, cb, table, p.tapes) && ka <= kb,
            _ => false,
        },
    decreases bb,
{
    let n = p.tapes;
    let bp = transpiled(p, table);
    lemma_scan_correspond(p.rules, table, n, c, d);
    match scan(p.rules, c) {
        None => {
            assert(scan(bp.rules, d) is None);
            assert(run(p, c, bb) == (RunOutcome::Halted { steps: 0nat, end: c }));
            assert(run(bp, d, bb) == (RunOutcome::Halted { steps: 0nat, end: d }));
        },
        Some(r) => {
            crate::magnificent::lemma_scan_some(p.rules, c);
            let ri = choose|i: int| 0 <= i < p.rules.len() && p.rules[i] == r;
            assert(p.rules[ri].adj.len() == n);
            assert(table.contains(p.rules[ri].cur) && table.contains(p.rules[ri].next));
            let c2 = apply_to(c, r);
            lemma_alpha_fires(c, d, table, n, r);
            let d1 = apply_to(d, alpha_rule(r, table, n));
            assert(scan(bp.rules, d) == Some(alpha_rule(r, table, n)));
            assert(bb > 1);
            assert(run(bp, d, bb) == add_steps(run(bp, d1, (bb - 1) as nat), 1));
            assert(run(bp, d1, (bb - 1) as nat) is Halted);
            if r.cur == r.next {
                assert(relay_corresponds(c2, d1, table, n));
                lemma_scan_relay_list(p.rules, table, n, c2, d1);
                assert(c2.state == r.cur);
                assert(selfloop_in(p.rules[ri], c2.state));
                assert(has_selfloop(p.rules, c2.state));
                let beta = beta_rule(table.index_of(c2.state), n, table.len());
                assert(scan(bp.rules, d1) == Some(beta));
                lemma_relay_step(c2, d1, table, n, r);
                assert(table.index_of(r.cur) == table.index_of(c2.state));
                let d2 = apply_to(d1, beta);
                assert(corresponds(c2, d2, table, n));
                assert(bb - 1 > 1);
                assert(run(bp, d1, (bb - 1) as nat) == add_steps(
                    run(bp, d2, (bb - 2) as nat),
                    1,
                ));
                assert(run(bp, d2, (bb - 2) as nat) is Halted);
                lemma_run_reflected(p, table, c2, d2, (bb - 2) as nat);
                assert(run(p, c2, (bb - 2) as nat) is Halted);
                crate::magnificent::lemma_run_budget(
                    p,
                    c2,
                    (bb - 2) as nat,
                    (bb - 1) as nat,
                );
            } else {
                assert(corresponds(c2, d1, table, n));
                lemma_run_reflected(p, table, c2, d1, (bb - 1) as nat);
            }
            assert(run(p, c, bb) == add_steps(run(p, c2, (bb - 1) as nat), 1));
        },
    }
}

//////////////////////////////////////////////////////////////////////////////
// Transpiler equivalence for the transpiled program

/// Transpiler equivalence, forward direction: when a well-formed program
/// halts within some budget, its transpilation, run from the corresponding
/// configuration with twice that budget, halts in a corresponding
/// configuration — in particular with identical positions on the original
/// tapes — taking between one and two firings per original firing.
#[verifier::rlimit(60)]
pub proof fn lemma_transpile_preserves_halting(
    p: ProgModel,
    c: Config,
    d: Config,
    budget: nat,
    budget_b: nat,
)
    requires
        prog_wf(p),
        corresponds(c, d, state_table(p), p.tapes),
        run(p, c, budget) is Halted,
        budget_b >= 2 * budget,
    ensures
        run(spec_transpile(p), d, budget_b) is Halted,
        match (run(p, c, budget), run(spec_transpile(p), d, budget_b)) {
            (
                RunOutcome::Halted { steps: ka, end: ca },
                RunOutcome::Halted { steps: kb, end: cb },
            ) => corresponds(ca, cb, state_table(p), p.tapes) && (forall|i: int|
                0 <= i < p.tapes ==> cb.tapes[i] == ca.tapes[i]) && ka <= kb <= 2 * ka,
            _ => false,
        },
{
    let table = state_table(p);
    lemma_table_of_rules(p.rules);
    assert forall|i: int| 0 <= i < p.rules.len() implies table.contains(
        #[trigger] p.rules[i].cur,
    ) && table.contains(p.rules[i].next) by {
        assert(rule_mentions(p.rules[i], p.rules[i].cur));
        assert(rule_mentions(p.rules[i], p.rules[i].next));
        assert(mentions(p.rules, p.rules[i].cur));
        assert(mentions(p.rules, p.rules[i].next));
    }
    lemma_run_preserved(p, table, c, d, budget, budget_b);
    assert(spec_transpile(p) =~= transpiled(p, table));
}

/// Transpiler equivalence, backward direction: when the transpilation of a
/// well-formed program halts within some budget, the program itself, run
/// from the corresponding configuration with the same budget, halts in a
/// corresponding configuration — with identical positions on the original
/// tapes — in at most as many firings.
#[verifier::rlimit(60)]
pub proof fn lemma_transpile_reflects_halting(p: ProgModel, c: Config, d: Config, budget_b: nat)
    requires
        prog_wf(p),
        corresponds(c, d, state_table(p), p.tapes),
        run(spec_transpile(p), d, budget_b) is Halted,
    ensures
        run(p, c, budget_b) is Halted,
        match (run(p, c, budget_b), run(spec_transpile(p), d, budget_b)) {
            (
                RunOutcome::Halted { steps: ka, end: ca },
                RunOutcome::Halted { steps: kb, end: cb },
            ) => corresponds(ca, cb, state_table(p), p.tapes) && (forall|i: int|
                0 <= i < p.tapes ==> cb.tapes[i] == ca.tapes[i]) && ka <= kb,
            _ => false,
        },
{
    let table = state_table(p);
    lemma_table_of_rules(p.rules);
    assert forall|i: int| 0 <= i < p.rules.len() implies table.contains(
        #[trigger] p.rules[i].cur,
    ) && table.contains(p.rules[i].next) by {
        assert(rule_mentions(p.rules[i], p.rules[i].cur));
        assert(rule_mentions(p.rules[i], p.rules[i].next));
        assert(mentions(p.rules, p.rules[i].cur));
        assert(mentions(p.rules, p.rules[i].next));
    }
    assert(spec_transpile(p) =~= transpiled(p, table));
    lemma_run_reflected(p, table, c, d, budget_b);
}

} // verus!
