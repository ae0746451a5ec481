//! AXI3: as AXI4, but write data may interleave (`WID`), bursts have at most
//! 16 beats and `AxLOCK` has two bits.
//!
//! [`rules`] is what the checker holds an announced burst to, and [`laws`] what
//! a component keeps by itself. [`history`] is about what the checker reports over
//! many cycles, [`bus`] about a master and a memory together, and [`watched`]
//! about a checker between them. [`reports`] says what the checker reports of a
//! cycle and [`capacity`] what it can count, [`conduct`] what a master does in a
//! cycle, and [`answers`] what a memory does.

pub mod answers;
pub mod bus;
pub mod capacity;
pub mod checker;
pub mod conduct;
pub mod coverage;
pub mod fault;
pub mod history;
pub mod laws;
pub mod master;
pub mod ram;
pub mod reports;
pub mod rules;
pub mod watched;

pub use checker::{Axi3Checker, Axi3MonitorPorts};
pub use fault::Axi3Fault;
pub use master::{Axi3Master, Axi3MasterPorts};
pub use ram::{Axi3Ram, Axi3SlavePorts};
