//! Parser for the textual program format.
//!
//! A program text is a header `tapes: N` followed by one rule per line,
//! `cur_state [a1, a2, ..., aN] next_state`; whitespace and commas separate
//! the adjustment entries and whitespace is otherwise free. States are
//! non-negative integers that fit the machine word; adjustments are signed
//! 32-bit integers.
//!
//! The grammar's meaning is given by the spec function [`spec_parse`], a
//! recursive descent over the input's characters; [`parse_m3`] returns
//! exactly what it denotes, and an error on exactly the inputs it rejects.

use crate::magnificent::{int_tapes, prog_wf, ProgModel, Program, Rule, RuleModel};
use vstd::prelude::*;
use vstd::string::StrSliceExecFns;

verus! {

//////////////////////////////////////////////////////////////////////////////
// The grammar, as spec functions over the input characters

/// Whitespace between tokens.
pub open spec fn is_ws(ch: char) -> bool {
    ch == ' ' || ch == '\t' || ch == '\n' || ch == '\r'
}

/// A decimal digit.
pub open spec fn is_digit(ch: char) -> bool {
    '0' <= ch && ch <= '9'
}

/// The value of a decimal digit; any other character counts as zero.
pub open spec fn digit_val(ch: char) -> int {
    if is_digit(ch) {
        ch as int - '0' as int
    } else {
        0
    }
}

/// The first position at or after `i` that does not hold whitespace.
pub open spec fn skip_ws(s: Seq<char>, i: int) -> int
    decreases s.len() - i,
{
    if 0 <= i < s.len() && is_ws(s[i]) {
        skip_ws(s, i + 1)
    } else {
        i
    }
}

/// The first position at or after `i` that does not hold a digit.
pub open spec fn scan_digits(s: Seq<char>, i: int) -> int
    decreases s.len() - i,
{
    if 0 <= i < s.len() && is_digit(s[i]) {
        scan_digits(s, i + 1)
    } else {
        i
    }
}

/// The value of the decimal digits at positions `i .. j`.
pub open spec fn digits_val(s: Seq<char>, i: int, j: int) -> int
    decreases j - i,
{
    if i < j {
        digits_val(s, i, j - 1) * 10 + digit_val(s[j - 1])
    } else {
        0
    }
}

/// Parses a non-negative integer: one or more digits. Returns its value and
/// the position after it.
pub open spec fn parse_nat(s: Seq<char>, i: int) -> Option<(int, int)> {
    let j = scan_digits(s, i);
    if j > i {
        Some((digits_val(s, i, j), j))
    } else {
        None
    }
}

/// Parses an optionally negated integer.
pub open spec fn parse_int(s: Seq<char>, i: int) -> Option<(int, int)> {
    if 0 <= i < s.len() && s[i] == '-' {
        match parse_nat(s, i + 1) {
            Some(vj) => Some((-vj.0, vj.1)),
            None => None,
        }
    } else {
        parse_nat(s, i)
    }
}

/// Bounds of `skip_ws`: it never moves left, and never past the end.
proof fn lemma_skip_ws(s: Seq<char>, i: int)
    ensures
        i <= skip_ws(s, i),
        i <= s.len() ==> skip_ws(s, i) <= s.len(),
    decreases s.len() - i,
{
    if 0 <= i < s.len() && is_ws(s[i]) {
        lemma_skip_ws(s, i + 1);
    }
}

/// Bounds of `scan_digits`, and every position scanned over holds a digit.
proof fn lemma_scan_digits(s: Seq<char>, i: int)
    ensures
        i <= scan_digits(s, i),
        i <= s.len() ==> scan_digits(s, i) <= s.len(),
        scan_digits(s, i) > i ==> 0 <= i < s.len(),
        forall|k: int| i <= k < scan_digits(s, i) ==> is_digit(s[k]),
    decreases s.len() - i,
{
    if 0 <= i < s.len() && is_digit(s[i]) {
        lemma_scan_digits(s, i + 1);
    }
}

/// A digit string has a non-negative value.
proof fn lemma_digits_val_nonneg(s: Seq<char>, i: int, j: int)
    requires
        i <= j,
    ensures
        digits_val(s, i, j) >= 0,
    decreases j - i,
{
    if i < j {
        lemma_digits_val_nonneg(s, i, j - 1);
        assert(digit_val(s[j - 1]) >= 0);
        assert(digits_val(s, i, j - 1) * 10 >= digits_val(s, i, j - 1));
    }
}

/// A digit string's value only grows as digits are appended.
proof fn lemma_digits_val_mono(s: Seq<char>, i: int, k: int, j: int)
    requires
        i <= k <= j,
    ensures
        0 <= digits_val(s, i, k) <= digits_val(s, i, j),
    decreases j - k,
{
    if k == j {
        lemma_digits_val_nonneg(s, i, k);
    } else {
        lemma_digits_val_mono(s, i, k, j - 1);
        lemma_digits_val_nonneg(s, i, j - 1);
        assert(digit_val(s[j - 1]) >= 0);
        assert(digits_val(s, i, j) == digits_val(s, i, j - 1) * 10 + digit_val(s[j - 1]));
        assert(digits_val(s, i, j - 1) * 10 >= digits_val(s, i, j - 1));
    }
}

/// A successful `parse_nat` consumed at least one character and stayed in
/// bounds.
proof fn lemma_parse_nat_bounds(s: Seq<char>, i: int)
    ensures
        parse_nat(s, i) matches Some(vj) ==> 0 <= i < vj.1 <= s.len(),
{
    lemma_scan_digits(s, i);
}

/// A successful `parse_int` consumed at least one character and stayed in
/// bounds.
proof fn lemma_parse_int_bounds(s: Seq<char>, i: int)
    ensures
        parse_int(s, i) matches Some(vj) ==> 0 <= i < vj.1 <= s.len(),
{
    lemma_parse_nat_bounds(s, i);
    if 0 <= i < s.len() && s[i] == '-' {
        lemma_parse_nat_bounds(s, i + 1);
    }
}

/// Parses the adjustment entries of a rule, after the opening bracket, up to
/// and including the closing bracket. Entries are separated by whitespace,
/// by a comma, or by both, and each must fit a signed 32-bit integer.
pub open spec fn parse_adjs(s: Seq<char>, i: int) -> Option<(Seq<int>, int)>
    decreases s.len() - i,
        via parse_adjs_dec
{
    let k = skip_ws(s, i);
    if k < s.len() && s[k] == ']' {
        Some((Seq::empty(), k + 1))
    } else {
        match parse_int(s, k) {
            None => None,
            Some(vj) => {
                if !(-0x8000_0000 <= vj.0 <= 0x7fff_ffff) {
                    None
                } else {
                    let k2 = skip_ws(s, vj.1);
                    let k3 = if k2 < s.len() && s[k2] == ',' {
                        skip_ws(s, k2 + 1)
                    } else {
                        k2
                    };
                    match parse_adjs(s, k3) {
                        None => None,
                        Some(rest) => Some((seq![vj.0] + rest.0, rest.1)),
                    }
                }
            },
        }
    }
}

#[via_fn]
proof fn parse_adjs_dec(s: Seq<char>, i: int) {
    let k = skip_ws(s, i);
    lemma_skip_ws(s, i);
    lemma_parse_int_bounds(s, k);
    match parse_int(s, k) {
        Some(vj) => {
            lemma_skip_ws(s, vj.1);
            let k2 = skip_ws(s, vj.1);
            lemma_skip_ws(s, k2 + 1);
        },
        None => {},
    }
}

/// A successful `parse_adjs` moved strictly right and stayed in bounds.
proof fn lemma_parse_adjs_bounds(s: Seq<char>, i: int)
    ensures
        parse_adjs(s, i) matches Some(aj) ==> i < aj.1 <= s.len(),
    decreases s.len() - i,
{
    let k = skip_ws(s, i);
    lemma_skip_ws(s, i);
    if k < s.len() && s[k] == ']' {
    } else {
        lemma_parse_int_bounds(s, k);
        match parse_int(s, k) {
            Some(vj) => {
                lemma_skip_ws(s, vj.1);
                let k2 = skip_ws(s, vj.1);
                lemma_skip_ws(s, k2 + 1);
                let k3 = if k2 < s.len() && s[k2] == ',' {
                    skip_ws(s, k2 + 1)
                } else {
                    k2
                };
                lemma_parse_adjs_bounds(s, k3);
            },
            None => {},
        }
    }
}

/// Parses one rule: a state, the bracketed adjustments, and the next state.
/// Both states must fit the machine word.
pub open spec fn parse_rule(s: Seq<char>, i: int) -> Option<(RuleModel, int)> {
    match parse_nat(s, i) {
        None => None,
        Some(cj) => {
            if cj.0 > usize::MAX {
                None
            } else {
                let k = skip_ws(s, cj.1);
                if !(k < s.len() && s[k] == '[') {
                    None
                } else {
                    match parse_adjs(s, k + 1) {
                        None => None,
                        Some(aj) => {
                            let k2 = skip_ws(s, aj.1);
                            match parse_nat(s, k2) {
                                None => None,
                                Some(nj) => {
                                    if nj.0 > usize::MAX {
                                        None
                                    } else {
                                        Some(
                                            (
                                                RuleModel {
                                                    cur: cj.0 as nat,
                                                    next: nj.0 as nat,
                                                    adj: aj.0,
                                                },
                                                nj.1,
                                            ),
                                        )
                                    }
                                },
                            }
                        },
                    }
                }
            }
        },
    }
}

/// A successful `parse_rule` moved strictly right and stayed in bounds.
proof fn lemma_parse_rule_bounds(s: Seq<char>, i: int)
    ensures
        parse_rule(s, i) matches Some(rj) ==> 0 <= i < rj.1 <= s.len(),
{
    lemma_parse_nat_bounds(s, i);
    match parse_nat(s, i) {
        Some(cj) => {
            lemma_skip_ws(s, cj.1);
            let k = skip_ws(s, cj.1);
            lemma_parse_adjs_bounds(s, k + 1);
            match parse_adjs(s, k + 1) {
                Some(aj) => {
                    lemma_skip_ws(s, aj.1);
                    let k2 = skip_ws(s, aj.1);
                    lemma_parse_nat_bounds(s, k2);
                },
                None => {},
            }
        },
        None => {},
    }
}

/// Parses rules until the input, up to trailing whitespace, is exhausted.
pub open spec fn parse_rules(s: Seq<char>, i: int) -> Option<(Seq<RuleModel>, int)>
    decreases s.len() - i,
        via parse_rules_dec
{
    let k = skip_ws(s, i);
    if k >= s.len() {
        Some((Seq::empty(), k))
    } else {
        match parse_rule(s, k) {
            None => None,
            Some(rj) => {
                match parse_rules(s, rj.1) {
                    None => None,
                    Some(rest) => Some((seq![rj.0] + rest.0, rest.1)),
                }
            },
        }
    }
}

#[via_fn]
proof fn parse_rules_dec(s: Seq<char>, i: int) {
    let k = skip_ws(s, i);
    lemma_skip_ws(s, i);
    lemma_parse_rule_bounds(s, k);
}

/// Parses the header `tapes: N`; `N` must fit the machine word.
pub open spec fn parse_header(s: Seq<char>) -> Option<(int, int)> {
    let i0 = skip_ws(s, 0);
    if !(i0 + 5 <= s.len() && s[i0] == 't' && s[i0 + 1] == 'a' && s[i0 + 2] == 'p' && s[i0 + 3]
        == 'e' && s[i0 + 4] == 's') {
        None
    } else {
        let i1 = skip_ws(s, i0 + 5);
        if !(i1 < s.len() && s[i1] == ':') {
            None
        } else {
            let i2 = skip_ws(s, i1 + 1);
            match parse_nat(s, i2) {
                None => None,
                Some(vj) => {
                    if vj.0 > usize::MAX {
                        None
                    } else {
                        Some(vj)
                    }
                },
            }
        }
    }
}

/// The denotation of a program text: its declared tape count and its rules,
/// or nothing when the text does not match the grammar.
pub open spec fn spec_parse(s: Seq<char>) -> Option<ProgModel> {
    match parse_header(s) {
        None => None,
        Some(hj) => {
            match parse_rules(s, hj.1) {
                None => None,
                Some(rj) => Some(ProgModel { tapes: hj.0 as nat, rules: rj.0 }),
            }
        },
    }
}

//////////////////////////////////////////////////////////////////////////////
// The executable parser

/// Whether the character is whitespace between tokens.
fn is_ws_x(ch: char) -> (r: bool)
    ensures
        r == is_ws(ch),
{
    ch == ' ' || ch == '\t' || ch == '\n' || ch == '\r'
}

/// Whether the character is a decimal digit.
fn is_digit_x(ch: char) -> (r: bool)
    ensures
        r == is_digit(ch),
{
    '0' <= ch && ch <= '9'
}

/// Advances past whitespace.
fn skip_ws_x(s: &str, len: usize, i: usize) -> (r: usize)
    requires
        len == s@.len(),
        i <= len,
    ensures
        r as int == skip_ws(s@, i as int),
        i <= r <= len,
{
    let mut k = i;
    while k < len && is_ws_x(s.get_char(k))
        invariant
            len == s@.len(),
            i <= k <= len,
            skip_ws(s@, i as int) == skip_ws(s@, k as int),
        decreases len - k,
    {
        proof {
            assert(skip_ws(s@, k as int) == skip_ws(s@, k as int + 1));
        }
        k += 1;
    }
    proof {
        assert(skip_ws(s@, k as int) == k as int);
        lemma_skip_ws(s@, i as int);
    }
    k
}

/// Advances past digits.
fn scan_digits_x(s: &str, len: usize, i: usize) -> (r: usize)
    requires
        len == s@.len(),
        i <= len,
    ensures
        r as int == scan_digits(s@, i as int),
        i <= r <= len,
{
    let mut k = i;
    while k < len && is_digit_x(s.get_char(k))
        invariant
            len == s@.len(),
            i <= k <= len,
            scan_digits(s@, i as int) == scan_digits(s@, k as int),
        decreases len - k,
    {
        proof {
            assert(scan_digits(s@, k as int) == scan_digits(s@, k as int + 1));
        }
        k += 1;
    }
    proof {
        assert(scan_digits(s@, k as int) == k as int);
        lemma_scan_digits(s@, i as int);
    }
    k
}

/// The result of reading a non-negative number: no digits at all, a value
/// too large for the machine word, or the value and the position after it.
enum NatParse {
    NoDigits,
    TooBig,
    Val(usize, usize),
}

/// Reads a non-negative number.
fn parse_nat_x(s: &str, len: usize, i: usize) -> (r: NatParse)
    requires
        len == s@.len(),
        i <= len,
    ensures
        match r {
            NatParse::NoDigits => parse_nat(s@, i as int) is None,
            NatParse::TooBig => parse_nat(s@, i as int) matches Some(vj) && vj.0 > usize::MAX,
            NatParse::Val(v, j) => parse_nat(s@, i as int) == Some((v as int, j as int)) && i < j
                <= len,
        },
{
    let ghost sv = s@;
    let j = scan_digits_x(s, len, i);
    if j == i {
        return NatParse::NoDigits;
    }
    proof {
        lemma_scan_digits(sv, i as int);
    }
    let mut k = i;
    let mut acc: usize = 0;
    while k < j
        invariant
            len == sv.len(),
            sv == s@,
            i <= k <= j <= len,
            j as int == scan_digits(sv, i as int),
            forall|t: int| i <= t < j ==> 0 <= t < sv.len() && is_digit(#[trigger] sv[t]),
            acc as int == digits_val(sv, i as int, k as int),
        decreases j - k,
    {
        let ch = s.get_char(k);
        proof {
            assert(is_digit(sv[k as int]));
            assert(48 <= ch as u32 <= 57);
        }
        let d: usize = ((ch as u32) - 48) as usize;
        proof {
            assert(d as int == digit_val(sv[k as int]));
            assert(digits_val(sv, i as int, k as int + 1) == digits_val(sv, i as int, k as int)
                * 10 + digit_val(sv[k as int]));
        }
        if acc > (usize::MAX - d) / 10 {
            proof {
                assert(acc as int * 10 + d > usize::MAX) by (nonlinear_arith)
                    requires
                        acc as int > (usize::MAX - d as int) / 10,
                        0 <= d as int <= 9,
                        acc as int >= 0,
                ;
                lemma_digits_val_mono(sv, i as int, k as int + 1, j as int);
                assert(digits_val(sv, i as int, j as int) > usize::MAX);
            }
            return NatParse::TooBig;
        }
        proof {
            assert(acc as int * 10 + d <= usize::MAX) by (nonlinear_arith)
                requires
                    acc as int <= (usize::MAX - d as int) / 10,
                    0 <= d as int <= 9,
                    acc as int >= 0,
            ;
        }
        acc = acc * 10 + d;
        k += 1;
    }
    NatParse::Val(acc, j)
}

/// The result of reading a signed number: no digits, a value outside the
/// signed 32-bit range, or the value and the position after it.
enum IntParse {
    NoDigits,
    OutOfRange,
    Val(i32, usize),
}

/// Reads an optionally negated number that must fit a signed 32-bit integer.
fn parse_int_x(s: &str, len: usize, i: usize) -> (r: IntParse)
    requires
        len == s@.len(),
        i <= len,
    ensures
        match r {
            IntParse::NoDigits => parse_int(s@, i as int) is None,
            IntParse::OutOfRange => parse_int(s@, i as int) matches Some(vj) && !(-0x8000_0000
                <= vj.0 <= 0x7fff_ffff),
            IntParse::Val(v, j) => parse_int(s@, i as int) == Some((v as int, j as int)) && i < j
                <= len,
        },
{
    if i < len && s.get_char(i) == '-' {
        match parse_nat_x(s, len, i + 1) {
            NatParse::NoDigits => IntParse::NoDigits,
            NatParse::TooBig => IntParse::OutOfRange,
            NatParse::Val(v, j) => {
                if v > 0x8000_0000usize {
                    IntParse::OutOfRange
                } else {
                    IntParse::Val((-(v as i64)) as i32, j)
                }
            },
        }
    } else {
        match parse_nat_x(s, len, i) {
            NatParse::NoDigits => IntParse::NoDigits,
            NatParse::TooBig => IntParse::OutOfRange,
            NatParse::Val(v, j) => {
                if v > 0x7fff_ffffusize {
                    IntParse::OutOfRange
                } else {
                    IntParse::Val(v as i32, j)
                }
            },
        }
    }
}

/// Composes already-read adjustment entries with the denotation of the rest.
spec fn compose_adjs(acc: Seq<int>, o: Option<(Seq<int>, int)>) -> Option<(Seq<int>, int)> {
    match o {
        None => None,
        Some(rest) => Some((acc + rest.0, rest.1)),
    }
}

/// Reads the adjustment entries of a rule, after the opening bracket, up to
/// and including the closing bracket.
fn parse_adjs_x(s: &str, len: usize, i: usize) -> (r: Option<(Vec<i32>, usize)>)
    requires
        len == s@.len(),
        i <= len,
    ensures
        match r {
            Some(aj) => parse_adjs(s@, i as int) == Some((int_tapes(aj.0@), aj.1 as int)) && aj.1
                <= len,
            None => parse_adjs(s@, i as int) is None,
        },
{
    let ghost sv = s@;
    let mut acc: Vec<i32> = Vec::new();
    let mut cur = i;
    proof {
        assert(int_tapes(acc@) =~= Seq::<int>::empty());
        assert(parse_adjs(sv, i as int) == compose_adjs(int_tapes(acc@), parse_adjs(sv, cur as int)));
    }
    loop
        invariant
            len == sv.len(),
            sv == s@,
            i <= len,
            cur <= len,
            parse_adjs(sv, i as int) == compose_adjs(
                int_tapes(acc@),
                parse_adjs(sv, cur as int),
            ),
        decreases len - cur,
    {
        let k = skip_ws_x(s, len, cur);
        if k < len && s.get_char(k) == ']' {
            proof {
                assert(parse_adjs(sv, cur as int) == Some((Seq::<int>::empty(), k as int + 1)));
                assert(int_tapes(acc@) + Seq::<int>::empty() =~= int_tapes(acc@));
            }
            return Some((acc, k + 1));
        }
        match parse_int_x(s, len, k) {
            IntParse::NoDigits => {
                proof {
                    assert(parse_adjs(sv, cur as int) is None);
                }
                return None;
            },
            IntParse::OutOfRange => {
                proof {
                    assert(parse_adjs(sv, cur as int) is None);
                }
                return None;
            },
            IntParse::Val(v, j) => {
                let k2 = skip_ws_x(s, len, j);
                let k3: usize = if k2 < len && s.get_char(k2) == ',' {
                    skip_ws_x(s, len, k2 + 1)
                } else {
                    k2
                };
                let ghost old_acc = acc@;
                acc.push(v);
                proof {
                    assert(parse_adjs(sv, cur as int) == (match parse_adjs(sv, k3 as int) {
                        None => None,
                        Some(rest) => Some((seq![v as int] + rest.0, rest.1)),
                    }));
                    assert(int_tapes(acc@) =~= int_tapes(old_acc) + seq![v as int]);
                    match parse_adjs(sv, k3 as int) {
                        None => {},
                        Some(rest) => {
                            assert(int_tapes(old_acc) + (seq![v as int] + rest.0) =~= int_tapes(
                                acc@,
                            ) + rest.0);
                        },
                    }
                    assert(cur < k3);
                }
                cur = k3;
            },
        }
    }
}

/// Reads one rule: a state, the bracketed adjustments, the next state.
fn parse_rule_x(s: &str, len: usize, i: usize) -> (r: Option<(Rule, usize)>)
    requires
        len == s@.len(),
        i <= len,
    ensures
        match r {
            Some(rj) => parse_rule(s@, i as int) == Some((rj.0@, rj.1 as int)) && rj.1 <= len,
            None => parse_rule(s@, i as int) is None,
        },
{
    let cur_state = match parse_nat_x(s, len, i) {
        NatParse::NoDigits => {
            return None;
        },
        NatParse::TooBig => {
            return None;
        },
        NatParse::Val(v, j) => (v, j),
    };
    let k = skip_ws_x(s, len, cur_state.1);
    if !(k < len && s.get_char(k) == '[') {
        return None;
    }
    let adjs = match parse_adjs_x(s, len, k + 1) {
        None => {
            return None;
        },
        Some(aj) => aj,
    };
    let k2 = skip_ws_x(s, len, adjs.1);
    let next_state = match parse_nat_x(s, len, k2) {
        NatParse::NoDigits => {
            return None;
        },
        NatParse::TooBig => {
            return None;
        },
        NatParse::Val(v, j) => (v, j),
    };
    let rule = Rule::new(cur_state.0, next_state.0, adjs.0);
    proof {
        assert(rule@ =~= parse_rule(s@, i as int)->Some_0.0);
    }
    Some((rule, next_state.1))
}

/// Composes already-read rules with the denotation of the rest.
spec fn compose_rules(acc: Seq<RuleModel>, o: Option<(Seq<RuleModel>, int)>) -> Option<
    (Seq<RuleModel>, int),
> {
    match o {
        None => None,
        Some(rest) => Some((acc + rest.0, rest.1)),
    }
}

/// Reads rules until the input, up to trailing whitespace, is exhausted.
fn parse_rules_x(s: &str, len: usize, i: usize) -> (r: Option<Vec<Rule>>)
    requires
        len == s@.len(),
        i <= len,
    ensures
        match r {
            Some(rules) => parse_rules(s@, i as int) matches Some(rj) && rj.0
                == rules@.map_values(|x: Rule| x@),
            None => parse_rules(s@, i as int) is None,
        },
{
    let ghost sv = s@;
    let mut acc: Vec<Rule> = Vec::new();
    let mut cur = i;
    proof {
        assert(acc@.map_values(|x: Rule| x@) =~= Seq::<RuleModel>::empty());
        assert(parse_rules(sv, i as int) == compose_rules(
            acc@.map_values(|x: Rule| x@),
            parse_rules(sv, cur as int),
        ));
    }
    loop
        invariant
            len == sv.len(),
            sv == s@,
            i <= len,
            cur <= len,
            parse_rules(sv, i as int) == compose_rules(
                acc@.map_values(|x: Rule| x@),
                parse_rules(sv, cur as int),
            ),
        decreases len - cur,
    {
        let k = skip_ws_x(s, len, cur);
        if k >= len {
            proof {
                assert(parse_rules(sv, cur as int) == Some((Seq::<RuleModel>::empty(), k as int)));
                assert(acc@.map_values(|x: Rule| x@) + Seq::<RuleModel>::empty()
                    =~= acc@.map_values(|x: Rule| x@));
            }
            return Some(acc);
        }
        match parse_rule_x(s, len, k) {
            None => {
                proof {
                    assert(parse_rules(sv, cur as int) is None);
                }
                return None;
            },
            Some((rule, j)) => {
                let ghost old_acc = acc@;
                let ghost rm = rule@;
                proof {
                    lemma_parse_rule_bounds(sv, k as int);
                    assert(parse_rules(sv, cur as int) == (match parse_rules(sv, j as int) {
                        None => None,
                        Some(rest) => Some((seq![rm] + rest.0, rest.1)),
                    }));
                }
                acc.push(rule);
                proof {
                    assert(acc@.map_values(|x: Rule| x@) =~= old_acc.map_values(|x: Rule| x@)
                        + seq![rm]);
                    match parse_rules(sv, j as int) {
                        None => {},
                        Some(rest) => {
                            assert(old_acc.map_values(|x: Rule| x@) + (seq![rm] + rest.0)
                                =~= acc@.map_values(|x: Rule| x@) + rest.0);
                        },
                    }
                    assert(cur < j);
                }
                cur = j;
            },
        }
    }
}

/// Reads the header `tapes: N`.
fn parse_header_x(s: &str, len: usize) -> (r: Option<(usize, usize)>)
    requires
        len == s@.len(),
    ensures
        match r {
            Some(hj) => parse_header(s@) == Some((hj.0 as int, hj.1 as int)) && hj.1 <= len,
            None => parse_header(s@) is None,
        },
{
    let i0 = skip_ws_x(s, len, 0);
    if len - i0 < 5 {
        return None;
    }
    if !(s.get_char(i0) == 't' && s.get_char(i0 + 1) == 'a' && s.get_char(i0 + 2) == 'p'
        && s.get_char(i0 + 3) == 'e' && s.get_char(i0 + 4) == 's') {
        return None;
    }
    let i1 = skip_ws_x(s, len, i0 + 5);
    if !(i1 < len && s.get_char(i1) == ':') {
        return None;
    }
    let i2 = skip_ws_x(s, len, i1 + 1);
    match parse_nat_x(s, len, i2) {
        NatParse::NoDigits => None,
        NatParse::TooBig => None,
        NatParse::Val(v, j) => Some((v, j)),
    }
}

/// Parses a program text: the header `tapes: N` followed by the rules.
/// Returns exactly the program that [`spec_parse`] denotes, and an error on
/// exactly the texts it rejects.
pub fn parse_m3(input: &str) -> (r: Result<Program, String>)
    ensures
        match r {
            Ok(p) => spec_parse(input@) == Some(p@),
            Err(_) => spec_parse(input@) is None,
        },
{
    let len = input.unicode_len();
    let header = match parse_header_x(input, len) {
        None => {
            return Err("program text does not match the grammar".to_owned());
        },
        Some(hj) => hj,
    };
    match parse_rules_x(input, len, header.1) {
        None => Err("program text does not match the grammar".to_owned()),
        Some(rules) => {
            let program = Program::new(header.0, rules);
            proof {
                assert(program@ =~= spec_parse(input@)->Some_0);
            }
            Ok(program)
        },
    }
}

/// The character of a decimal digit.
pub open spec fn digit_char(d: nat) -> char {
    if d == 0 {
        '0'
    } else if d == 1 {
        '1'
    } else if d == 2 {
        '2'
    } else if d == 3 {
        '3'
    } else if d == 4 {
        '4'
    } else if d == 5 {
        '5'
    } else if d == 6 {
        '6'
    } else if d == 7 {
        '7'
    } else if d == 8 {
        '8'
    } else {
        '9'
    }
}

/// The canonical decimal text of a number: most significant digit first, no
/// leading zeroes.
pub open spec fn spec_digits(n: nat) -> Seq<char>
    decreases n,
{
    if n < 10 {
        seq![digit_char(n)]
    } else {
        spec_digits(n / 10) + seq![digit_char(n % 10)]
    }
}

/// The one-character text of a decimal digit.
fn digit_str(d: usize) -> (r: &'static str)
    requires
        d < 10,
    ensures
        r@ == seq![digit_char(d as nat)],
{
    proof {
        reveal_strlit("0");
        reveal_strlit("1");
        reveal_strlit("2");
        reveal_strlit("3");
        reveal_strlit("4");
        reveal_strlit("5");
        reveal_strlit("6");
        reveal_strlit("7");
        reveal_strlit("8");
        reveal_strlit("9");
    }
    let r: &'static str = match d {
        0 => "0",
        1 => "1",
        2 => "2",
        3 => "3",
        4 => "4",
        5 => "5",
        6 => "6",
        7 => "7",
        8 => "8",
        _ => "9",
    };
    proof {
        assert(r@ =~= seq![digit_char(d as nat)]);
    }
    r
}

/// The decimal text of a number.
fn usize_to_string(n: usize) -> (r: String)
    ensures
        r@ == spec_digits(n as nat),
    decreases n,
{
    if n < 10 {
        digit_str(n).to_owned()
    } else {
        let mut r = usize_to_string(n / 10);
        let d = digit_str(n % 10);
        r.append(d);
        proof {
            assert(r@ =~= spec_digits(n as nat));
        }
        r
    }
}

/// The report for the first rule whose width disagrees with the declared
/// tape count.
pub open spec fn width_error_msg(i: nat, actual: nat, expected: nat) -> Seq<char> {
    "rule "@ + spec_digits(i) + " has width "@ + spec_digits(actual) + ", expected width "@
        + spec_digits(expected)
}

/// The index of the first rule at or after `i` whose width disagrees with
/// the program's declared tape count; the rule count when every one agrees.
pub open spec fn first_mismatch_from(p: ProgModel, i: int) -> int
    decreases p.rules.len() - i,
{
    if !(0 <= i < p.rules.len()) {
        i
    } else if p.rules[i].adj.len() != p.tapes {
        i
    } else {
        first_mismatch_from(p, i + 1)
    }
}

/// The index of the first rule whose width disagrees with the program's
/// declared tape count.
pub open spec fn first_mismatch(p: ProgModel) -> int {
    first_mismatch_from(p, 0)
}

/// Checks the structural invariant of a program: every rule must adjust
/// exactly as many tapes as the program declares. Accepts exactly the
/// well-formed programs; otherwise the error reports the first offending
/// rule's index and its width against the declared tape count.
pub fn validate_raw_program(prog: &Program) -> (r: Result<(), String>)
    ensures
        r is Ok <==> prog_wf(prog@),
        r is Err ==> {
            let i = first_mismatch(prog@);
            &&& 0 <= i < prog@.rules.len()
            &&& prog@.rules[i].adj.len() != prog@.tapes
            &&& r->Err_0@ == width_error_msg(i as nat, prog@.rules[i].adj.len(), prog@.tapes)
        },
{
    let n = prog.num_tapes;
    let n_rules = prog.rules.len();
    let mut i: usize = 0;
    while i < n_rules
        invariant
            n == prog@.tapes,
            n_rules == prog@.rules.len(),
            i <= n_rules,
            first_mismatch(prog@) == first_mismatch_from(prog@, i as int),
            forall|j: int| 0 <= j < i ==> #[trigger] prog@.rules[j].adj.len() == prog@.tapes,
        decreases n_rules - i,
    {
        let actual = prog.rules[i].rule.len();
        if actual != n {
            proof {
                assert(prog@.rules[i as int].adj.len() == actual as nat);
                assert(first_mismatch_from(prog@, i as int) == i as int);
            }
            let mut msg = "rule ".to_owned();
            msg.append(usize_to_string(i).as_str());
            msg.append(" has width ");
            msg.append(usize_to_string(actual).as_str());
            msg.append(", expected width ");
            msg.append(usize_to_string(n).as_str());
            proof {
                assert(msg@ =~= width_error_msg(
                    i as nat,
                    prog@.rules[i as int].adj.len(),
                    prog@.tapes,
                ));
            }
            return Err(msg);
        }
        proof {
            assert(first_mismatch_from(prog@, i as int) == first_mismatch_from(
                prog@,
                i as int + 1,
            ));
        }
        i += 1;
    }
    Ok(())
}

} // verus!
