//! AXI4-Lite: a master that keeps accesses to one address in order, a memory
//! with latencies and error responses, and a passive checker.
//!
//! [`op`] is what the master queues and which access may go next, and [`hex`]
//! is the text form of a memory image. [`laws`] is about the master by itself
//! and [`history`] about the order of its accesses over many cycles, [`bus`]
//! about a master and a memory together, and [`watched`] about a checker between
//! them. [`conduct`], [`answers`] and [`reports`] say what a master, a memory and
//! a checker do in a cycle, [`capacity`] what the checker can count, and
//! [`images`] how an image is read.

pub mod answers;
pub mod bus;
pub mod capacity;
pub mod checker;
pub mod conduct;
pub mod coverage;
pub mod fault;
pub mod hex;
pub mod history;
pub mod images;
pub mod laws;
pub mod master;
pub mod op;
pub mod ram;
pub mod reports;
pub mod watched;

pub use checker::{Axi4LiteChecker, Axi4LiteMonitorPorts};
pub use fault::Axi4LiteFault;
pub use master::{Axi4LiteMaster, Axi4LiteMasterPorts, LiteMasterConfig};
pub use op::LiteMasterFault;
pub use ram::{Axi4LiteRam, Axi4LiteSlavePorts, LiteRamConfig};
