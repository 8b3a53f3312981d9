//! A single-tape Turing-machine interpreter.
//!
//! A program text in a compact unary encoding is decoded into a transition
//! table; a machine executes on a dynamically growing tape, one step at a
//! time, until no transition applies to the current (state, symbol) pair.

pub mod decoder;
pub mod encoder;
pub mod machine;
pub mod table;
