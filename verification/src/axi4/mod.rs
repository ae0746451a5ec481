//! AXI4 (full): a burst master that keeps several reads and writes in flight
//! and a memory with an exclusive monitor.
//!
//! [`burst`] says where the beats of a burst go. [`generate`] and [`narrow`]
//! make up random bursts and record what memory holds after them, [`ops`] is
//! what is queued, [`issue`] is the read engine that AXI3 shares, and [`slave`]
//! is the read engine of the memories. [`laws`] is about a component by itself,
//! [`history`] about a memory over a whole write burst, and [`bus`] about a
//! master and a memory together. [`conduct`] and [`answers`] say what a master
//! and a memory do in a cycle, [`draws`] what a random burst is, and
//! [`capacity`] which bursts can be followed.

pub mod answers;
pub mod burst;
pub mod bus;
pub mod capacity;
pub mod conduct;
pub mod draws;
pub mod generate;
pub mod history;
pub mod issue;
pub mod laws;
pub mod master;
pub mod narrow;
pub mod ops;
pub mod ram;
pub mod slave;

pub use burst::beat_addr;
pub use issue::MasterConfig;
pub use master::{Axi4Master, Axi4MasterPorts};
pub use ops::MasterFault;
pub use ram::{Axi4Ram, Axi4SlavePorts};
pub use slave::RamConfig;
