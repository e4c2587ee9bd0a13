//! Magnificent Minsky machines: an interpreter for multi-tape Minsky machine
//! programs, a transpiler that eliminates control states, and a small textual
//! program format.
//!
//! See the documentation in [`magnificent`] and [`marvellous`].

pub mod arith;
pub mod equiv;
pub mod m3_ast;
pub mod m3_parser;
pub mod magnificent;
pub mod marvellous;
