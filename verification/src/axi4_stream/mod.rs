//! AXI4-Stream: an active source, a golden sink and a passive protocol
//! checker. Data are word vectors, so that any bus width works.
//!
//! [`laws`] is about the three of them together. [`conduct`] says what a source
//! and a sink do in a cycle, and [`reports`] what a checker reports of it.

pub mod checker;
pub mod conduct;
pub mod laws;
pub mod reports;
pub mod sink;
pub mod source;

pub use checker::{Axi4StreamChecker, Axi4StreamFault, AxiStreamMonitorPorts};
pub use sink::{Axi4StreamSink, AxiStreamReceiverPorts, NoBeat, StreamMismatch};
pub use source::{Axi4StreamSource, AxiStreamTransmitterPorts};
