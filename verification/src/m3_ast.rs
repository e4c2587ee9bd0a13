//! Raw parse shape of a program text.
//!
//! These types mirror the textual format one-to-one, before any validation:
//! the states of a [`RawRule`] are signed, as numbers in the text are, and
//! nothing yet ties a rule's width to the declared tape count. A validated
//! program lives in [`crate::magnificent::Program`].

use vstd::prelude::*;

verus! {

/// A program as written: the declared tape count and the rules in order.
#[derive(Debug)]
pub struct RawProgram {
    pub num_tapes: usize,
    pub rules: Vec<RawRule>,
}

/// A rule as written: two state numbers around the tape head adjustments.
#[derive(Debug)]
pub struct RawRule {
    pub cur_state: i32,
    pub next_state: i32,
    pub rule: Vec<i32>,
}

} // verus!
