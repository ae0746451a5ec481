//! How much an AXI4-Lite checker can count.

use crate::axi4_lite::checker::{Axi4LiteCheckerView, Axi4LiteMonitorPorts};
use crate::common::latency::Latency;
use crate::common::monitor::MonitorView;
use vstd::prelude::*;

verus! {

/// Whether no channel has stalled for as long as can be counted.
pub open spec fn stalls_have_room(m: MonitorView) -> bool {
    &&& m.aw.stall_cycles < u64::MAX && m.w.stall_cycles < u64::MAX
    &&& m.b.stall_cycles < u64::MAX && m.ar.stall_cycles < u64::MAX
    &&& m.r.stall_cycles < u64::MAX
}

/// Whether a latency that ends at `now` can be summed up.
pub open spec fn latency_has_room(l: Latency, now: u64) -> bool {
    l.sum + now <= u64::MAX && l.count < u64::MAX
}

/// Whether a checker's counts are away from their ends and no request lies in the
/// future.
pub open spec fn has_room(s: Axi4LiteCheckerView, now: u64) -> bool {
    let half = u64::MAX / 2;
    &&& stalls_have_room(s.lines)
    &&& s.done.aw < half && s.done.w < half && s.done.b < half
    &&& s.done.ar < half && s.done.r < half
    &&& s.idle_cycles < u64::MAX && s.seen.noop_writes < u64::MAX
    &&& s.seen.resp_okay < u64::MAX - 1 && s.seen.resp_slverr < u64::MAX - 1
    &&& s.seen.resp_decerr < u64::MAX - 1
    &&& latency_has_room(s.seen.write_lat, now) && latency_has_room(s.seen.read_lat, now)
    &&& forall|i: int| 0 <= i < s.aw_cycles.len() ==> #[trigger] s.aw_cycles[i] <= now
    &&& forall|i: int| 0 <= i < s.ar_cycles.len() ==> #[trigger] s.ar_cycles[i] <= now
}

/// A checker takes every cycle, whatever the bus shows, while its counts have room.
/// One that starts has room.
pub proof fn lemma_every_cycle_is_taken(
    s: Axi4LiteCheckerView,
    rst: bool,
    p: Axi4LiteMonitorPorts,
    now: u64,
    width: u32,
    timeout: Option<u64>,
    liveness: Option<u64>,
)
    ensures
        has_room(s, now) ==> s.can_clock(rst, p, now),
        has_room(Axi4LiteCheckerView::fresh(width, timeout, liveness), now),
        s.can_clock(true, p, now),
{
}

} // verus!
