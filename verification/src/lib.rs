//! The choice tape: a typed record of every decision made while generating a
//! test case.
//!
//! Generation records each random draw as a [`Choice`](choice::Choice);
//! shrinking edits the recorded [`Tape`](tape::Tape) and re-runs generation in
//! replay mode, accepting an edit if the test still fails and the re-recorded
//! output tape is shortlex-smaller than the incumbent. Every draw of a run goes
//! through a [`TapeState`](state::TapeState).
mod apply;
pub mod base16;
pub mod choice;
pub mod choice_laws;
pub mod float_bits;
pub mod forkfile;
pub mod func;
pub mod key_map;
pub mod keys;
pub mod le;
pub mod observed;
pub mod order;
pub mod persisted;
pub mod runner;
pub mod salt;
pub mod state;
pub mod state_laws;
pub mod step_laws;
pub mod tape;
pub mod tape_int;
pub mod tape_laws;
pub mod text;
pub mod wire;
pub mod wire_laws;
