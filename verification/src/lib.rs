//! Verification components of the AXI family: masters that drive directed and
//! random self-checking traffic, memories that answer it, and passive checkers.
//!
//! A component is clocked by `on_clock`, with what its ports show. Its view is
//! the mathematical state that the contracts speak of: `clocked` is the state
//! after a cycle, `faults` is what the cycle reports, and `can_clock`, where
//! there is one, says that counters and addresses stay within 64 bits.
//!
//! Proof functions state what a component does in terms of its ports and its
//! state: what a checker reports of a cycle is in the `reports` of each protocol,
//! in [`sequence`] the order of it and in [`wording`] the words; what a master
//! and a stream do is in `conduct`, and what a memory does in `answers`.

pub mod axi3;
pub mod axi4;
pub mod axi4_lite;
pub mod axi4_stream;
pub mod collections;
pub mod common;
pub mod sequence;
pub mod text;
pub mod value;
pub mod wording;
