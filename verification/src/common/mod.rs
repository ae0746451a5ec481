//! Protocol-agnostic building blocks.
//!
//! [`handshakes`] says what a watched channel is held to, [`storage`] what a memory
//! holds and answers, byte by byte, and [`signals`] what values, arguments and
//! made-up stimulus are.

pub mod channel;
pub mod counting;
pub mod handshakes;
pub mod lanes;
pub mod latency;
pub mod memory;
pub mod monitor;
pub mod random;
pub mod report;
pub mod resp;
pub mod setup;
pub mod shown;
pub mod signals;
pub mod stimulus;
pub mod storage;
pub mod traffic;
pub mod words;
