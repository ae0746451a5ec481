//! How much an AXI3 checker can count.

use crate::axi3::checker::{Axi3CheckerView, Axi3MonitorPorts};
use crate::axi3::rules::Announced;
use crate::axi4_lite::capacity::{latency_has_room, stalls_have_room};
use crate::collections::front_of;
use crate::common::lanes::lemma_shift_is_pow2;
use crate::common::traffic::{count_of, TrafficView};
use vstd::arithmetic::power2::{lemma2_to64, lemma_pow2_strictly_increases};
use vstd::prelude::*;

verus! {

/// Whether the transactions of one direction can be counted on, and none of them was
/// announced in the future.
pub open spec fn traffic_has_room(t: TrafficView, now: u64) -> bool {
    &&& forall|id: u64| #[trigger] count_of(t.count, id) < u64::MAX
    &&& forall|id: u64| (#[trigger] front_of(t.cycles, id)) matches Some(c) ==> c <= now
}

/// Whether a checker's counts are away from their ends and no announcement lies in
/// the future.
pub open spec fn has_room(s: Axi3CheckerView, now: u64) -> bool {
    let most = u64::MAX - 1;
    &&& stalls_have_room(s.lines)
    &&& s.seen.writes < most && s.seen.reads < most && s.seen.beats < most
    &&& s.seen.fixed < most && s.seen.incr < most && s.seen.wrap < most
    &&& s.seen.exclusive < most && s.seen.exclusive_ok < most
    &&& s.seen.resp_okay < most && s.seen.resp_slverr < most && s.seen.resp_decerr < most
    &&& latency_has_room(s.seen.write_lat, now) && latency_has_room(s.seen.read_lat, now)
    &&& traffic_has_room(s.writes, now) && traffic_has_room(s.reads, now)
}

/// Whether a burst is of the lengths and sizes that a bus can announce: up to 256
/// beats of up to 128 bytes.
pub open spec fn announceable(a: Announced) -> bool {
    a.len < 256 && a.size < 8
}

/// The sizes of such a burst can be computed.
pub proof fn lemma_announceable_fits(a: Announced)
    requires
        announceable(a),
    ensures
        a.fits(),
{
    lemma_shift_is_pow2(a.size);
    lemma2_to64();
    if a.size < 7 {
        lemma_pow2_strictly_increases(a.size as nat, 7);
    }
    assert((a.len + 1) * a.bytes() <= 256 * 128) by (nonlinear_arith)
        requires
            0 <= a.len < 256,
            0 <= a.bytes() <= 128,
    ;
}

/// A checker takes every cycle, whatever else the bus shows, while its counts have
/// room and the bursts are of a size that a bus can announce. One that starts has
/// room.
pub proof fn lemma_every_cycle_is_taken(
    s: Axi3CheckerView,
    rst: bool,
    p: Axi3MonitorPorts,
    now: u64,
    width: u32,
    timeout: Option<u64>,
)
    ensures
        has_room(s, now) && announceable(p.aw_burst()) && announceable(p.ar_burst())
            ==> s.can_clock(rst, p, now),
        has_room(Axi3CheckerView::fresh(width, timeout), now),
        s.can_clock(true, p, now),
{
    let none = Axi3CheckerView::fresh(width, timeout);
    assert forall|id: u64| (#[trigger] front_of(none.writes.cycles, id)) is None by {}
    assert forall|id: u64| (#[trigger] front_of(none.reads.cycles, id)) is None by {}
    if has_room(s, now) && announceable(p.aw_burst()) && announceable(p.ar_burst()) && !rst {
        lemma_announceable_fits(p.aw_burst());
        lemma_announceable_fits(p.ar_burst());
        let s1 = s.after_lines(p);
        let s2 = s1.after_aw(p, now);
        let s3 = s2.after_ar(p, now);
        let s4 = s3.after_w(p);
        let s5 = s4.after_r(p, now);
        assert(s2.seen.exclusive <= s.seen.exclusive + 1 && s2.seen.fixed <= s.seen.fixed + 1);
        assert(count_of(s3.writes.count, p.wid@.number_or_zero()) == count_of(
            s.writes.count,
            p.wid@.number_or_zero(),
        ));
        let rid = p.rid@.number_or_zero();
        let bid = p.bid@.number_or_zero();
        assert(count_of(s4.reads.count, rid) == count_of(s.reads.count, rid));
        assert(front_of(s4.reads.cycles, rid) matches Some(c) ==> c <= now) by {
            assert(front_of(s.reads.cycles, rid) matches Some(c) ==> c <= now);
        }
        assert(front_of(s5.writes.cycles, bid) matches Some(c) ==> c <= now) by {
            assert(front_of(s.writes.cycles, bid) matches Some(c) ==> c <= now);
        }
    }
}

} // verus!
