//! What the AXI3 checker reports, over any history of cycles.

use crate::axi3::checker::{Axi3CheckerView, Axi3MonitorPorts};
use crate::axi3::fault::{lemma_times_lines, lines, Axi3Fault};
use crate::axi3::history::{clear, run, Seen};
use crate::axi3::rules::Announced;
use crate::collections::queue_of;
use crate::common::channel::Unstable;
use crate::common::handshakes::{
    at_rest, followed, lane_of, lemma_reset_is_rest, lemma_stability_reports, lemma_timeout_reports,
    lemma_unknown_is_some, lemma_unknown_line_reports, lemma_unknown_payload_reports, some_unknown,
};
use crate::common::latency::adds_latency;
use crate::common::lanes::{lane_count, lemma_shift_is_pow2};
use crate::common::monitor::{
    high_in_reset, unknown_lines, unknown_payloads, Chan, LanesView, LineFault, Wire,
};
use crate::common::report::{
    lemma_times_in_ten, lemma_times_none, lemma_times_only_if, lemma_times_together, once, only_if,
    times,
};
use crate::common::traffic::{count_of, TrafficView};
use crate::common::words::lemma_or_has_bits_of_both;
use crate::value::ValueView;
use vstd::arithmetic::power2::{is_pow2, pow2};
use vstd::prelude::*;

verus! {

/// The VALID line of a channel.
pub open spec fn valid(p: Axi3MonitorPorts, c: Chan) -> ValueView {
    match c {
        Chan::Aw => p.awvalid@,
        Chan::W => p.wvalid@,
        Chan::B => p.bvalid@,
        Chan::Ar => p.arvalid@,
        Chan::R => p.rvalid@,
    }
}

/// The READY line of a channel.
pub open spec fn ready(p: Axi3MonitorPorts, c: Chan) -> ValueView {
    match c {
        Chan::Aw => p.awready@,
        Chan::W => p.wready@,
        Chan::B => p.bready@,
        Chan::Ar => p.arready@,
        Chan::R => p.rready@,
    }
}

/// Whether a channel hands its payload over.
pub open spec fn taken(p: Axi3MonitorPorts, c: Chan) -> bool {
    valid(p, c).high() && ready(p, c).high()
}

/// Whether a channel offers a payload that is not taken.
pub open spec fn waits(p: Axi3MonitorPorts, c: Chan) -> bool {
    valid(p, c).high() && !ready(p, c).high()
}

/// Whether a channel shows an X or Z bit in its payload.
pub open spec fn unknown_payload(p: Axi3MonitorPorts, c: Chan) -> bool {
    match c {
        Chan::Aw => p.awaddr@.unknown() || p.awlen@.unknown() || p.awsize@.unknown() || p.awburst@.unknown() || p.awid@.unknown() || p.awlock@.unknown(),
        Chan::W => p.wdata@.unknown() || p.wstrb@.unknown() || p.wlast@.unknown() || p.wid@.unknown(),
        Chan::B => p.bresp@.unknown() || p.bid@.unknown(),
        Chan::Ar => p.araddr@.unknown() || p.arlen@.unknown() || p.arsize@.unknown() || p.arburst@.unknown() || p.arid@.unknown() || p.arlock@.unknown(),
        Chan::R => p.rdata@.unknown() || p.rresp@.unknown() || p.rid@.unknown() || p.rlast@.unknown(),
    }
}

/// Whether a channel shows the same payload in two cycles.
pub open spec fn same_payload(
    p: Axi3MonitorPorts,
    q: Axi3MonitorPorts,
    c: Chan,
) -> bool {
    match c {
        Chan::Aw => p.awaddr@ == q.awaddr@ && p.awlen@ == q.awlen@ && p.awsize@ == q.awsize@ && p.awburst@ == q.awburst@ && p.awid@ == q.awid@ && p.awlock@ == q.awlock@,
        Chan::W => p.wdata@ == q.wdata@ && p.wstrb@ == q.wstrb@ && p.wlast@ == q.wlast@ && p.wid@ == q.wid@,
        Chan::B => p.bresp@ == q.bresp@ && p.bid@ == q.bid@,
        Chan::Ar => p.araddr@ == q.araddr@ && p.arlen@ == q.arlen@ && p.arsize@ == q.arsize@ && p.arburst@ == q.arburst@ && p.arid@ == q.arid@ && p.arlock@ == q.arlock@,
        Chan::R => p.rdata@ == q.rdata@ && p.rresp@ == q.rresp@ && p.rid@ == q.rid@ && p.rlast@ == q.rlast@,
    }
}

/// For how many cycles a channel has been waiting at the end of a history.
pub open spec fn waiting_for(h: Seq<Seen>, c: Chan) -> nat
    decreases h.len(),
{
    if h.len() == 0 || !waits(h.last().bus, c) {
        0
    } else {
        waiting_for(h.drop_last(), c) + 1
    }
}

/// The ID that a channel shows.
pub open spec fn id_of(p: Axi3MonitorPorts, c: Chan) -> u64 {
    match c {
        Chan::Aw => p.awid@.number_or_zero(),
        Chan::W => p.wid@.number_or_zero(),
        Chan::B => p.bid@.number_or_zero(),
        Chan::Ar => p.arid@.number_or_zero(),
        Chan::R => p.rid@.number_or_zero(),
    }
}

/// Whether a channel hands over a payload of an ID.
pub open spec fn taken_for(p: Axi3MonitorPorts, c: Chan, id: u64) -> bool {
    taken(p, c) && id_of(p, c) == id
}

/// With the beats that a cycle announces for an ID, of a write or of a read.
pub open spec fn with_beats(due: Seq<u64>, p: Axi3MonitorPorts, id: u64, write: bool) -> Seq<u64> {
    if write && taken_for(p, Chan::Aw, id) {
        due.push((p.awlen@.number_or_zero() + 1) as u64)
    } else if !write && taken_for(p, Chan::Ar, id) {
        due.push((p.arlen@.number_or_zero() + 1) as u64)
    } else {
        due
    }
}

/// With whether the burst that a cycle announces for an ID is exclusive.
pub open spec fn with_lock(
    open: Seq<bool>,
    p: Axi3MonitorPorts,
    id: u64,
    write: bool,
) -> Seq<bool> {
    if write && taken_for(p, Chan::Aw, id) {
        open.push(p.awlock@.number_or_zero() == 1)
    } else if !write && taken_for(p, Chan::Ar, id) {
        open.push(p.arlock@.number_or_zero() == 1)
    } else {
        open
    }
}

/// Without its oldest entry, where there is one.
pub open spec fn but_oldest<A>(q: Seq<A>, gone: bool) -> Seq<A> {
    if gone && q.len() > 0 {
        q.drop_first()
    } else {
        q
    }
}

/// Whether a cycle ends the data of a burst of an ID.
pub open spec fn ends_data(p: Axi3MonitorPorts, id: u64, write: bool) -> bool {
    if write {
        taken_for(p, Chan::W, id) && p.wlast@.high()
    } else {
        taken_for(p, Chan::R, id) && p.rlast@.high()
    }
}

/// Whether a cycle answers a burst of an ID: a write by its response, a read by
/// its last beat.
pub open spec fn answers(p: Axi3MonitorPorts, id: u64, write: bool) -> bool {
    if write {
        taken_for(p, Chan::B, id)
    } else {
        taken_for(p, Chan::R, id) && p.rlast@.high()
    }
}

/// The beats of the bursts of an ID whose data has not ended, oldest first.
pub open spec fn due_beats(h: Seq<Seen>, id: u64, write: bool) -> Seq<u64>
    decreases h.len(),
{
    if h.len() == 0 {
        seq![]
    } else {
        let p = h.last().bus;
        but_oldest(
            with_beats(due_beats(h.drop_last(), id, write), p, id, write),
            ends_data(p, id, write),
        )
    }
}

/// The beats of an ID since its data last ended.
pub open spec fn beats_since(h: Seq<Seen>, id: u64, write: bool) -> nat
    decreases h.len(),
{
    if h.len() == 0 {
        0
    } else {
        let p = h.last().bus;
        let c = if write {
            Chan::W
        } else {
            Chan::R
        };
        if ends_data(p, id, write) {
            0
        } else {
            beats_since(h.drop_last(), id, write) + once(taken_for(p, c, id))
        }
    }
}

/// Whether the bursts of an ID that were not answered are exclusive, oldest
/// first.
pub open spec fn open_locks(h: Seq<Seen>, id: u64, write: bool) -> Seq<bool>
    decreases h.len(),
{
    if h.len() == 0 {
        seq![]
    } else {
        let p = h.last().bus;
        but_oldest(
            with_lock(open_locks(h.drop_last(), id, write), p, id, write),
            answers(p, id, write),
        )
    }
}

/// When the bursts of an ID that were not answered were announced, oldest first.
pub open spec fn open_since(h: Seq<Seen>, id: u64, write: bool) -> Seq<u64>
    decreases h.len(),
{
    if h.len() == 0 {
        seq![]
    } else {
        let p = h.last().bus;
        but_oldest(
            with_time(open_since(h.drop_last(), id, write), p, h.last().now, id, write),
            answers(p, id, write),
        )
    }
}

/// With when the burst that a cycle announces for an ID is announced.
pub open spec fn with_time(
    open: Seq<u64>,
    p: Axi3MonitorPorts,
    now: u64,
    id: u64,
    write: bool,
) -> Seq<u64> {
    if taken_for(
        p,
        if write {
            Chan::Aw
        } else {
            Chan::Ar
        },
        id,
    ) {
        open.push(now)
    } else {
        open
    }
}

/// Whether nothing waits and nothing is outstanding, as at the start and after a
/// reset.
pub open spec fn starts(s: Axi3CheckerView) -> bool {
    at_rest(s.lines) && clear(s)
}

/// A checker starts so, and a reset brings it there.
pub proof fn lemma_reset_starts(
    s: Axi3CheckerView,
    p: Axi3MonitorPorts,
    now: u64,
    width: u32,
    timeout: Option<u64>,
)
    ensures
        starts(Axi3CheckerView::fresh(width, timeout)),
        Axi3CheckerView::fresh(width, timeout).width == width,
        Axi3CheckerView::fresh(width, timeout).timeout == timeout,
        starts(s.clocked(true, p, now)),
        s.clocked(true, p, now).width == s.width,
        s.clocked(true, p, now).timeout == s.timeout,
{
    lemma_reset_is_rest(s.lines);
}

/// What the channels show over a history.
spec fn shown(h: Seq<Seen>) -> Seq<LanesView> {
    Seq::new(h.len(), |i: int| h[i].bus.channels())
}

proof fn lemma_channels(p: Axi3MonitorPorts, q: Axi3MonitorPorts, c: Chan)
    ensures
        ({
            let l = lane_of(p.channels(), c);
            &&& l.valid == valid(p, c)
            &&& l.ready == ready(p, c)
            &&& some_unknown(l.payload) == unknown_payload(p, c)
            &&& (l.payload == lane_of(q.channels(), c).payload) == same_payload(p, q, c)
        }),
{
    let l = lane_of(p.channels(), c);
    let a = l.payload;
    let b = lane_of(q.channels(), c).payload;
    lemma_unknown_is_some(l);
    match c {
        Chan::Aw => {
            assert(a[0] == p.awaddr@ && a[1] == p.awlen@ && a[2] == p.awsize@ && a[3] == p.awburst@ && a[4] == p.awid@ && a[5] == p.awlock@);
            assert(b[0] == q.awaddr@ && b[1] == q.awlen@ && b[2] == q.awsize@ && b[3] == q.awburst@ && b[4] == q.awid@ && b[5] == q.awlock@);
        },
        Chan::W => {
            assert(a[0] == p.wdata@ && a[1] == p.wstrb@ && a[2] == p.wlast@ && a[3] == p.wid@);
            assert(b[0] == q.wdata@ && b[1] == q.wstrb@ && b[2] == q.wlast@ && b[3] == q.wid@);
        },
        Chan::B => {
            assert(a[0] == p.bresp@ && a[1] == p.bid@);
            assert(b[0] == q.bresp@ && b[1] == q.bid@);
        },
        Chan::Ar => {
            assert(a[0] == p.araddr@ && a[1] == p.arlen@ && a[2] == p.arsize@ && a[3] == p.arburst@ && a[4] == p.arid@ && a[5] == p.arlock@);
            assert(b[0] == q.araddr@ && b[1] == q.arlen@ && b[2] == q.arsize@ && b[3] == q.arburst@ && b[4] == q.arid@ && b[5] == q.arlock@);
        },
        Chan::R => {
            assert(a[0] == p.rdata@ && a[1] == p.rresp@ && a[2] == p.rid@ && a[3] == p.rlast@);
            assert(b[0] == q.rdata@ && b[1] == q.rresp@ && b[2] == q.rid@ && b[3] == q.rlast@);
        },
    }
    if same_payload(p, q, c) {
        assert(a =~= b);
    }
}

proof fn lemma_waits_are_shown(h: Seq<Seen>, c: Chan)
    ensures
        crate::common::handshakes::waiting_for(shown(h), c) == waiting_for(h, c),
    decreases h.len(),
{
    if h.len() > 0 {
        lemma_waits_are_shown(h.drop_last(), c);
        assert(shown(h).drop_last() =~= shown(h.drop_last()));
        lemma_channels(h.last().bus, h.last().bus, c);
    }
}

proof fn lemma_lines_are_followed(s: Axi3CheckerView, h: Seq<Seen>)
    ensures
        run(s, h).lines == followed(s.lines, shown(h)),
        run(s, h).width == s.width,
        run(s, h).timeout == s.timeout,
    decreases h.len(),
{
    if h.len() > 0 {
        lemma_lines_are_followed(s, h.drop_last());
        assert(shown(h).drop_last() =~= shown(h.drop_last()));
    }
}

/// What is known of an ID.
spec fn knows(t: TrafficView, h: Seq<Seen>, id: u64, write: bool) -> bool {
    &&& queue_of(t.expect, id) == due_beats(h, id, write)
    &&& count_of(t.count, id) == beats_since(h, id, write) <= h.len()
    &&& queue_of(t.cycles, id).len() == open_locks(h, id, write).len()
    &&& queue_of(t.cycles, id) == open_since(h, id, write)
    &&& queue_of(t.excl, id) == open_locks(h, id, write)
}

proof fn lemma_history_of_writes(s: Axi3CheckerView, h: Seq<Seen>, id: u64)
    requires
        clear(s),
        h.len() < u64::MAX,
    ensures
        knows(run(s, h).writes, h, id, true),
    decreases h.len(),
{
    if h.len() > 0 {
        let before = h.drop_last();
        let p = h.last().bus;
        let now = h.last().now;
        lemma_history_of_writes(s, before, id);
        lemma_channels(p, p, Chan::Aw);
        lemma_channels(p, p, Chan::W);
        lemma_channels(p, p, Chan::B);
        let t = run(s, before);
        let t1 = t.after_lines(p).after_aw(p, now);
        let t2 = t1.after_ar(p, now).after_w(p);
        let t3 = t2.after_r(p, now).after_b(p, now);
        assert(queue_of(t1.writes.expect, id) =~= with_beats(
            due_beats(before, id, true),
            p,
            id,
            true,
        ));
        assert(queue_of(t1.writes.excl, id) =~= with_lock(
            open_locks(before, id, true),
            p,
            id,
            true,
        ));
        assert(queue_of(t1.writes.cycles, id) =~= with_time(
            open_since(before, id, true),
            p,
            now,
            id,
            true,
        ));
        assert(queue_of(t3.writes.cycles, id) =~= open_since(h, id, true));
        assert(queue_of(t2.writes.expect, id) =~= due_beats(h, id, true));
        assert(t2.writes.excl == t1.writes.excl && t2.writes.cycles == t1.writes.cycles);
        assert(t3.writes.expect == t2.writes.expect && t3.writes.count == t2.writes.count);
        assert(queue_of(t3.writes.excl, id) =~= open_locks(h, id, true));
    } else {
        assert(queue_of(s.writes.expect, id) =~= seq![]);
        assert(queue_of(s.writes.excl, id) =~= seq![]);
        assert(queue_of(s.writes.cycles, id) =~= seq![]);
    }
}

proof fn lemma_history_of_reads(s: Axi3CheckerView, h: Seq<Seen>, id: u64)
    requires
        clear(s),
        h.len() < u64::MAX,
    ensures
        knows(run(s, h).reads, h, id, false),
    decreases h.len(),
{
    if h.len() > 0 {
        let before = h.drop_last();
        let p = h.last().bus;
        let now = h.last().now;
        lemma_history_of_reads(s, before, id);
        lemma_channels(p, p, Chan::Ar);
        lemma_channels(p, p, Chan::R);
        let t = run(s, before);
        let t1 = t.after_lines(p).after_aw(p, now).after_ar(p, now);
        let t2 = t1.after_w(p).after_r(p, now);
        assert(queue_of(t1.reads.expect, id) =~= with_beats(
            due_beats(before, id, false),
            p,
            id,
            false,
        ));
        assert(queue_of(t1.reads.excl, id) =~= with_lock(
            open_locks(before, id, false),
            p,
            id,
            false,
        ));
        assert(queue_of(t1.reads.cycles, id) =~= with_time(
            open_since(before, id, false),
            p,
            now,
            id,
            false,
        ));
        assert(queue_of(t2.reads.cycles, id) =~= open_since(h, id, false));
        assert(queue_of(t2.reads.expect, id) =~= due_beats(h, id, false));
        assert(queue_of(t2.reads.excl, id) =~= open_locks(h, id, false));
    } else {
        assert(queue_of(s.reads.expect, id) =~= seq![]);
        assert(queue_of(s.reads.excl, id) =~= seq![]);
        assert(queue_of(s.reads.cycles, id) =~= seq![]);
    }
}

/// During reset, exactly the VALID lines that are set are reported, each once.
pub proof fn lemma_reset_reports(
    s: Axi3CheckerView,
    p: Axi3MonitorPorts,
    four_state: bool,
    now: u64,
    x: Axi3Fault,
)
    ensures
        times(s.faults(true, p, four_state, now), x) == once(
            match x {
                Axi3Fault::Line(LineFault::HighInReset(Wire::Valid(c))) => valid(p, c).truth(),
                _ => false,
            },
        ),
{
    lemma_times_lines(high_in_reset(p.channels()), x);
    if let Axi3Fault::Line(f) = x {
        crate::common::handshakes::lemma_reset_reports(p.channels(), f);
        if let LineFault::HighInReset(Wire::Valid(c)) = f {
            lemma_channels(p, p, c);
        }
    }
}

proof fn lemma_line_reports(
    s: Axi3CheckerView,
    h: Seq<Seen>,
    p: Axi3MonitorPorts,
    now: u64,
    f: LineFault,
)
    requires
        at_rest(s.lines),
        h.len() + 1 < u64::MAX,
    ensures
        ({
            let t = run(s, h);
            let l = p.channels();
            &&& times(unknown_payloads(l), f) == once(
                f matches LineFault::UnknownPayload(c) && valid(p, c).high() && unknown_payload(
                    p,
                    c,
                ),
            )
            &&& times(unknown_lines(l), f) == once(
                match f {
                    LineFault::Unknown(Wire::Valid(c)) => valid(p, c).unknown(),
                    LineFault::Unknown(Wire::Ready(c)) => ready(p, c).unknown(),
                    _ => false,
                },
            )
            &&& times(t.lines.violations(l), f) == once(
                match f {
                    LineFault::Unsteady(c, Unstable::Deasserted) => h.len() > 0 && waits(
                        h.last().bus,
                        c,
                    ) && !valid(p, c).high(),
                    LineFault::Unsteady(c, Unstable::Changed) => h.len() > 0 && waits(h.last().bus, c)
                        && valid(p, c).high() && !same_payload(h.last().bus, p, c),
                    _ => false,
                },
            )
            &&& times(t.lines.after(l).timeouts(s.timeout), f) == once(
                match f {
                    LineFault::Timeout(c, limit) => s.timeout == Some(limit) && waiting_for(
                        h.push((Seen { bus: p, now })),
                        c,
                    ) == limit + 1,
                    _ => false,
                },
            )
        }),
{
    let l = p.channels();
    let all = h.push((Seen { bus: p, now }));
    lemma_lines_are_followed(s, h);
    assert(shown(all).drop_last() =~= shown(h));
    assert(shown(all).last() == l);
    lemma_unknown_payload_reports(l, f);
    lemma_unknown_line_reports(l, f);
    lemma_stability_reports(s.lines, shown(h), l, f);
    lemma_timeout_reports(s.lines, shown(all), s.timeout, f);
    assert(followed(s.lines, shown(all)) == run(s, h).lines.after(l));
    if h.len() > 0 {
        assert(shown(h).last() == h.last().bus.channels());
    }
    match f {
        LineFault::UnknownPayload(c) => lemma_channels(p, p, c),
        LineFault::Unknown(Wire::Valid(c)) => lemma_channels(p, p, c),
        LineFault::Unknown(Wire::Ready(c)) => lemma_channels(p, p, c),
        LineFault::Unsteady(c, _) => {
            lemma_channels(p, p, c);
            if h.len() > 0 {
                lemma_channels(h.last().bus, p, c);
            }
        },
        LineFault::Timeout(c, _) => lemma_waits_are_shown(all, c),
        LineFault::HighInReset(_) => {},
    }
}

/// What an announced burst is reported for, and nothing else, on a bus of
/// `lanes` byte lanes. With 2^`size` bytes a beat and `len` + 1 beats: a beat
/// that is wider than the bus; the lock 3; an exclusive burst whose beats are
/// not 1, 2, 4, 8 or 16, that has more than 128 bytes, or that has a power of two
/// of bytes and is not aligned to them; a type that is none of FIXED, INCR and
/// WRAP; more than 16 beats; an INCR burst whose first and last byte lie in
/// different 4 KiB pages; a WRAP burst whose beats are not 2, 4, 8 or 16, or that
/// is not aligned to a beat. Each fault is reported once.
pub proof fn lemma_burst_reports(a: Announced, c: Chan, lanes: u64, x: Axi3Fault)
    requires
        a.fits(),
    ensures
        ({
            let bytes = pow2(a.size as nat) as int;
            let beats = a.len + 1;
            let total = beats * bytes;
            let end = if a.addr + total - 1 < u64::MAX {
                a.addr + total - 1
            } else {
                u64::MAX - 1
            };
            times(a.faults(c, lanes), x) == once(
                match x {
                    Axi3Fault::SizeExceedsBus(d, n) => d == c && n == bytes && bytes > lanes,
                    Axi3Fault::ReservedLock(d) => d == c && a.lock == 3,
                    Axi3Fault::ExclusiveLength(d, n) => d == c && n == beats && a.lock == 1
                        && beats != 1 && beats != 2 && beats != 4 && beats != 8 && beats != 16,
                    Axi3Fault::ExclusiveTotal(d, n) => d == c && n == total && a.lock == 1
                        && total > 128,
                    Axi3Fault::ExclusiveUnaligned(d, at, n) => d == c && at == a.addr && n == total
                        && a.lock == 1 && is_pow2(total) && a.addr as int % total != 0,
                    Axi3Fault::ReservedBurst(d, k) => d == c && k == a.kind && a.kind != 0
                        && a.kind != 1 && a.kind != 2,
                    Axi3Fault::TooManyBeats(d, n) => d == c && n == beats && beats > 16,
                    Axi3Fault::CrossesPage(d) => d == c && a.kind == 1 && a.addr as int / 4096
                        != end / 4096,
                    Axi3Fault::WrapLength(d, n) => d == c && n == beats && a.kind == 2 && beats != 2
                        && beats != 4 && beats != 8 && beats != 16,
                    Axi3Fault::WrapUnaligned(d, at) => d == c && at == a.addr && a.kind == 2
                        && a.addr as int % bytes != 0,
                    _ => false,
                },
            )
        }),
{
    lemma_shift_is_pow2(a.size);
    let total = a.total();
    assert(total == (a.len + 1) * pow2(a.size as nat));
    assert(total >= 1) by (nonlinear_arith)
        requires
            total == (a.len + 1) * pow2(a.size as nat),
            pow2(a.size as nat) >= 1,
            a.len >= 0,
    ;
    lemma_burst_parts(a, c, lanes, x);
}

/// What the data and response phases report of the cycle after a history.
proof fn lemma_phase_reports(s: Axi3CheckerView, h: Seq<Seen>, p: Axi3MonitorPorts, now: u64, x: Axi3Fault)
    requires
        clear(s),
        h.len() + 1 < u64::MAX,
    ensures
        ({
            let t3 = run(s, h).after_lines(p).after_aw(p, now).after_ar(p, now);
            let t4 = t3.after_w(p);
            let t5 = t4.after_r(p, now);
            &&& times(t3.w_faults(p), x) == once(
                match x {
                    Axi3Fault::DataWithoutWrite(id) => taken_for(p, Chan::W, id) && with_beats(
                        due_beats(h, id, true),
                        p,
                        id,
                        true,
                    ).len() == 0,
                    Axi3Fault::WriteLength { id, count, expected } => {
                        let due = with_beats(due_beats(h, id, true), p, id, true);
                        &&& taken_for(p, Chan::W, id) && p.wlast@.high() && due.len() > 0
                        &&& expected == due[0] && count == beats_since(h, id, true) + 1
                        &&& count != expected
                    },
                    _ => false,
                },
            )
            &&& times(t4.r_faults(p), x) == once(
                match x {
                    Axi3Fault::DataWithoutRead(id) => taken_for(p, Chan::R, id) && with_beats(
                        due_beats(h, id, false),
                        p,
                        id,
                        false,
                    ).len() == 0,
                    Axi3Fault::ReadLength { id, count, expected } => {
                        let due = with_beats(due_beats(h, id, false), p, id, false);
                        &&& taken_for(p, Chan::R, id) && p.rlast@.high() && due.len() > 0
                        &&& expected == due[0] && count == beats_since(h, id, false) + 1
                        &&& count != expected
                    },
                    Axi3Fault::ExokayRead(id) => {
                        let open = with_lock(open_locks(h, id, false), p, id, false);
                        &&& taken_for(p, Chan::R, id) && p.rresp@.number_or_zero() == 1
                        &&& !(open.len() > 0 && open[0])
                    },
                    _ => false,
                },
            )
            &&& times(t5.b_faults(p), x) == once(
                match x {
                    Axi3Fault::ResponseWithoutWrite(id) => taken_for(p, Chan::B, id) && with_lock(
                        open_locks(h, id, true),
                        p,
                        id,
                        true,
                    ).len() == 0,
                    Axi3Fault::ExokayWrite(id) => {
                        let open = with_lock(open_locks(h, id, true), p, id, true);
                        &&& taken_for(p, Chan::B, id) && p.bresp@.number_or_zero() == 1
                        &&& !(open.len() > 0 && open[0])
                    },
                    _ => false,
                },
            )
        }),
{
    broadcast use {lemma_times_together, lemma_times_only_if};

    lemma_times_none(x);
    lemma_channels(p, p, Chan::Aw);
    lemma_channels(p, p, Chan::W);
    lemma_channels(p, p, Chan::B);
    lemma_channels(p, p, Chan::Ar);
    lemma_channels(p, p, Chan::R);
    let (w, r, b) = (id_of(p, Chan::W), id_of(p, Chan::R), id_of(p, Chan::B));
    lemma_history_of_writes(s, h, w);
    lemma_history_of_writes(s, h, b);
    lemma_history_of_reads(s, h, r);
    let t = run(s, h);
    let t1 = t.after_lines(p).after_aw(p, now);
    let t3 = t1.after_ar(p, now);
    let t4 = t3.after_w(p);
    let t5 = t4.after_r(p, now);
    assert(queue_of(t1.writes.expect, w) =~= with_beats(due_beats(h, w, true), p, w, true));
    assert(queue_of(t1.writes.excl, b) =~= with_lock(open_locks(h, b, true), p, b, true));
    assert(queue_of(t1.writes.cycles, b).len() == queue_of(t1.writes.excl, b).len());
    assert(queue_of(t3.reads.expect, r) =~= with_beats(due_beats(h, r, false), p, r, false));
    assert(queue_of(t3.reads.excl, r) =~= with_lock(open_locks(h, r, false), p, r, false));
    assert(t5.writes.excl == t1.writes.excl && t5.writes.cycles == t1.writes.cycles);
    assert(t4.reads == t3.reads);
    assert(count_of(t3.writes.count, w) == beats_since(h, w, true));
    assert(count_of(t4.reads.count, r) == beats_since(h, r, false));
}

/// Everything the checker reports, and nothing else, after any history without
/// reset. Lines and payloads with an X or Z bit are reported in a four-state run
/// only, a payload only while it is offered. A channel that waited in the cycle
/// before has to keep VALID and its payload. A wait is reported in the cycle
/// that makes it one longer than the limit. A burst is held to its rules where
/// its address is handed over. Data and responses are held, per ID, to the
/// oldest burst that they can belong to, one announced in the same cycle
/// included: there has to be one, its last beat has to be the last announced,
/// and EXOKAY may answer it only where it is exclusive. Each fault is reported
/// once, but for those of a burst, which the two address channels report by
/// their own name.
pub proof fn lemma_reports_are_due(
    s: Axi3CheckerView,
    h: Seq<Seen>,
    k: Seen,
    four_state: bool,
    x: Axi3Fault,
)
    requires
        starts(s),
        h.len() + 1 < u64::MAX,
    ensures
        ({
            let p = k.bus;
            times(run(s, h).faults(false, p, four_state, k.now), x) == (match x {
                Axi3Fault::Line(f) => once(
                    match f {
                        LineFault::HighInReset(_) => false,
                        LineFault::Unknown(Wire::Valid(c)) => four_state && valid(p, c).unknown(),
                        LineFault::Unknown(Wire::Ready(c)) => four_state && ready(p, c).unknown(),
                        LineFault::UnknownPayload(c) => four_state && valid(p, c).high()
                            && unknown_payload(p, c),
                        LineFault::Unsteady(c, Unstable::Deasserted) => h.len() > 0 && waits(
                            h.last().bus,
                            c,
                        ) && !valid(p, c).high(),
                        LineFault::Unsteady(c, Unstable::Changed) => h.len() > 0 && waits(
                            h.last().bus,
                            c,
                        ) && valid(p, c).high() && !same_payload(h.last().bus, p, c),
                        LineFault::Timeout(c, limit) => s.timeout == Some(limit) && waiting_for(
                            h.push(k),
                            c,
                        ) == limit + 1,
                    },
                ),
                Axi3Fault::DataWithoutWrite(id) => once(
                    taken_for(p, Chan::W, id) && with_beats(
                        due_beats(h, id, true),
                        p,
                        id,
                        true,
                    ).len() == 0,
                ),
                Axi3Fault::WriteLength { id, count, expected } => once(
                    {
                        let due = with_beats(due_beats(h, id, true), p, id, true);
                        &&& taken_for(p, Chan::W, id) && p.wlast@.high() && due.len() > 0
                        &&& expected == due[0] && count == beats_since(h, id, true) + 1
                        &&& count != expected
                    },
                ),
                Axi3Fault::DataWithoutRead(id) => once(
                    taken_for(p, Chan::R, id) && with_beats(
                        due_beats(h, id, false),
                        p,
                        id,
                        false,
                    ).len() == 0,
                ),
                Axi3Fault::ReadLength { id, count, expected } => once(
                    {
                        let due = with_beats(due_beats(h, id, false), p, id, false);
                        &&& taken_for(p, Chan::R, id) && p.rlast@.high() && due.len() > 0
                        &&& expected == due[0] && count == beats_since(h, id, false) + 1
                        &&& count != expected
                    },
                ),
                Axi3Fault::ExokayRead(id) => once(
                    {
                        let open = with_lock(open_locks(h, id, false), p, id, false);
                        &&& taken_for(p, Chan::R, id) && p.rresp@.number_or_zero() == 1
                        &&& !(open.len() > 0 && open[0])
                    },
                ),
                Axi3Fault::ResponseWithoutWrite(id) => once(
                    taken_for(p, Chan::B, id) && with_lock(
                        open_locks(h, id, true),
                        p,
                        id,
                        true,
                    ).len() == 0,
                ),
                Axi3Fault::ExokayWrite(id) => once(
                    {
                        let open = with_lock(open_locks(h, id, true), p, id, true);
                        &&& taken_for(p, Chan::B, id) && p.bresp@.number_or_zero() == 1
                        &&& !(open.len() > 0 && open[0])
                    },
                ),
                _ => (if taken(p, Chan::Aw) {
                    times(shown_burst(p, Chan::Aw).faults(Chan::Aw, lanes_of(s.width)), x)
                } else {
                    0
                }) + (if taken(p, Chan::Ar) {
                    times(shown_burst(p, Chan::Ar).faults(Chan::Ar, lanes_of(s.width)), x)
                } else {
                    0
                }),
            })
        }),
{
    let p = k.bus;
    let now = k.now;
    let t = run(s, h);
    let l = p.channels();
    let f = if x is Line {
        x->Line_0
    } else {
        LineFault::UnknownPayload(Chan::Aw)
    };
    let lanes = lane_count(s.width);
    lemma_lines_are_followed(s, h);
    lemma_line_reports(s, h, p, now, f);
    lemma_phase_reports(s, h, p, now, x);
    lemma_channels(p, p, Chan::Aw);
    lemma_channels(p, p, Chan::Ar);
    let none = Seq::<LineFault>::empty();
    lemma_times_none(f);
    lemma_times_none(x);
    let u = if four_state {
        unknown_lines(l)
    } else {
        none
    };
    let v = if four_state {
        unknown_payloads(l)
    } else {
        none
    };
    let t1 = t.after_lines(p);
    let t3 = t1.after_aw(p, now).after_ar(p, now);
    let t4 = t3.after_w(p);
    lemma_times_lines(u, x);
    lemma_times_lines(v, x);
    lemma_times_lines(t.lines.violations(l), x);
    lemma_times_lines(t1.lines.timeouts(t.timeout), x);
    let aw = if l.aw.fires() {
        p.aw_burst().faults(Chan::Aw, lanes)
    } else {
        seq![]
    };
    let ar = if l.ar.fires() {
        p.ar_burst().faults(Chan::Ar, lanes)
    } else {
        seq![]
    };
    lemma_burst_kinds(p.aw_burst(), Chan::Aw, lanes, x);
    lemma_burst_kinds(p.ar_burst(), Chan::Ar, lanes, x);
    let a = lines(u);
    let b = lines(v);
    let c = lines(t.lines.violations(l));
    let d = lines(t1.lines.timeouts(t.timeout));
    let g = t3.w_faults(p);
    let r = t4.r_faults(p);
    let e = t4.after_r(p, now).b_faults(p);
    lemma_times_together(a, b, x);
    lemma_times_together(a + b, c, x);
    lemma_times_together(a + b + c, d, x);
    lemma_times_together(a + b + c + d, aw, x);
    lemma_times_together(a + b + c + d + aw, ar, x);
    lemma_times_together(a + b + c + d + aw + ar, g, x);
    lemma_times_together(a + b + c + d + aw + ar + g, r, x);
    lemma_times_together(a + b + c + d + aw + ar + g + r, e, x);
    assert(t.early_faults(p, four_state, now) == a + b + c + d + aw + ar + g);
    assert(t.faults(false, p, four_state, now) == a + b + c + d + aw + ar + g + r + e);
}

/// The byte lanes of a `width`-bit bus.
pub open spec fn lanes_of(width: u32) -> u64 {
    if width < 8 {
        1
    } else {
        (width / 8) as u64
    }
}

/// The burst that an address channel shows.
pub open spec fn shown_burst(p: Axi3MonitorPorts, c: Chan) -> Announced {
    if c == Chan::Aw {
        Announced {
            addr: p.awaddr@.number_or_zero(),
            len: p.awlen@.number_or_zero(),
            size: p.awsize@.number_or_zero(),
            kind: p.awburst@.number_or_zero(),
            lock: p.awlock@.number_or_zero(),
        }
    } else {
        Announced {
            addr: p.araddr@.number_or_zero(),
            len: p.arlen@.number_or_zero(),
            size: p.arsize@.number_or_zero(),
            kind: p.arburst@.number_or_zero(),
            lock: p.arlock@.number_or_zero(),
        }
    }
}

/// What an announced burst is never reported for.
proof fn lemma_burst_kinds(a: Announced, c: Chan, lanes: u64, x: Axi3Fault)
    ensures
        x is Line || x is DataWithoutWrite || x is WriteLength || x is DataWithoutRead
            || x is ReadLength || x is ExokayRead || x is ResponseWithoutWrite || x is ExokayWrite
            ==> times(a.faults(c, lanes), x) == 0,
{
    lemma_burst_parts(a, c, lanes, x);
}

/// The parts of what an announced burst is reported for.
proof fn lemma_burst_parts(a: Announced, c: Chan, lanes: u64, x: Axi3Fault)
    ensures
        ({
            let beats = (a.len + 1) as u64;
            let ex = a.lock == 1;
            let total = a.total();
            times(a.faults(c, lanes), x) == once((a.bytes() > lanes) && Axi3Fault::SizeExceedsBus(c, a.bytes()) == x)
                + once((a.lock == 3) && Axi3Fault::ReservedLock(c) == x)
                + once((ex && !(beats == 1 || beats == 2 || beats == 4 || beats == 8 || beats == 16)) && Axi3Fault::ExclusiveLength(c, beats) == x)
                + once((ex && total > 128) && Axi3Fault::ExclusiveTotal(c, total as u64) == x)
                + once((ex && is_pow2(total) && a.addr as int % total != 0) && Axi3Fault::ExclusiveUnaligned(c, a.addr, total as u64) == x)
                + once((a.kind > 2) && Axi3Fault::ReservedBurst(c, a.kind) == x)
                + once((beats > 16) && Axi3Fault::TooManyBeats(c, beats) == x)
                + once((a.kind == 1 && a.addr as int / 4096 != a.last_byte() / 4096) && Axi3Fault::CrossesPage(c) == x)
                + once((a.kind == 2 && !(beats == 2 || beats == 4 || beats == 8 || beats == 16)) && Axi3Fault::WrapLength(c, beats) == x)
                + once((a.kind == 2 && a.addr % a.bytes() != 0) && Axi3Fault::WrapUnaligned(c, a.addr) == x)
        }),
{
    let beats = (a.len + 1) as u64;
    let ex = a.lock == 1;
    let total = a.total();
    let c0 = a.bytes() > lanes;
    lemma_times_only_if(c0, Axi3Fault::SizeExceedsBus(c, a.bytes()), x);
    let c1 = a.lock == 3;
    lemma_times_only_if(c1, Axi3Fault::ReservedLock(c), x);
    let c2 = ex && !(beats == 1 || beats == 2 || beats == 4 || beats == 8 || beats == 16);
    lemma_times_only_if(c2, Axi3Fault::ExclusiveLength(c, beats), x);
    let c3 = ex && total > 128;
    lemma_times_only_if(c3, Axi3Fault::ExclusiveTotal(c, total as u64), x);
    let c4 = ex && is_pow2(total) && a.addr as int % total != 0;
    lemma_times_only_if(c4, Axi3Fault::ExclusiveUnaligned(c, a.addr, total as u64), x);
    let c5 = a.kind > 2;
    lemma_times_only_if(c5, Axi3Fault::ReservedBurst(c, a.kind), x);
    let c6 = beats > 16;
    lemma_times_only_if(c6, Axi3Fault::TooManyBeats(c, beats), x);
    let c7 = a.kind == 1 && a.addr as int / 4096 != a.last_byte() / 4096;
    lemma_times_only_if(c7, Axi3Fault::CrossesPage(c), x);
    let c8 = a.kind == 2 && !(beats == 2 || beats == 4 || beats == 8 || beats == 16);
    lemma_times_only_if(c8, Axi3Fault::WrapLength(c, beats), x);
    let c9 = a.kind == 2 && a.addr % a.bytes() != 0;
    lemma_times_only_if(c9, Axi3Fault::WrapUnaligned(c, a.addr), x);
    lemma_times_in_ten(
        only_if(c0, Axi3Fault::SizeExceedsBus(c, a.bytes())),
        only_if(c1, Axi3Fault::ReservedLock(c)),
        only_if(c2, Axi3Fault::ExclusiveLength(c, beats)),
        only_if(c3, Axi3Fault::ExclusiveTotal(c, total as u64)),
        only_if(c4, Axi3Fault::ExclusiveUnaligned(c, a.addr, total as u64)),
        only_if(c5, Axi3Fault::ReservedBurst(c, a.kind)),
        only_if(c6, Axi3Fault::TooManyBeats(c, beats)),
        only_if(c7, Axi3Fault::CrossesPage(c)),
        only_if(c8, Axi3Fault::WrapLength(c, beats)),
        only_if(c9, Axi3Fault::WrapUnaligned(c, a.addr)),
        x,
    );
}

/// A number raised to another, where that is larger.
pub open spec fn raised(n: u64, to: u64, c: bool) -> u64 {
    if c && to > n {
        to
    } else {
        n
    }
}

/// What a cycle adds to the counts, whatever was before: one write for a
/// response and one read for a last beat of data, one beat for each beat of data
/// either way, one burst of its type and one exclusive access for each address
/// that is handed over, and one response of its code for each response and each
/// beat of read data. A reset adds nothing and takes nothing away.
pub proof fn lemma_counts_are_due(s: Axi3CheckerView, p: Axi3MonitorPorts, now: u64)
    requires
        s.can_clock(false, p, now),
    ensures
        ({
            let a = s.seen;
            let z = s.clocked(false, p, now).seen;
            let aw = taken(p, Chan::Aw);
            let ar = taken(p, Chan::Ar);
            let b = taken(p, Chan::B);
            let r = taken(p, Chan::R);
            let awkind = p.awburst@.number_or_zero();
            let arkind = p.arburst@.number_or_zero();
            let bcode = p.bresp@.number_or_zero();
            let rcode = p.rresp@.number_or_zero();
            &&& z.writes == a.writes + once(b)
            &&& z.reads == a.reads + once(r && p.rlast@.high())
            &&& z.beats == a.beats + once(taken(p, Chan::W)) + once(r)
            &&& z.fixed == a.fixed + once(aw && awkind == 0) + once(ar && arkind == 0)
            &&& z.incr == a.incr + once(aw && awkind == 1) + once(ar && arkind == 1)
            &&& z.wrap == a.wrap + once(aw && awkind == 2) + once(ar && arkind == 2)
            &&& z.exclusive == a.exclusive + once(aw && p.awlock@.number_or_zero() == 1) + once(
                ar && p.arlock@.number_or_zero() == 1,
            )
            &&& z.resp_okay == a.resp_okay + once(b && bcode == 0) + once(r && rcode == 0)
            &&& z.resp_slverr == a.resp_slverr + once(b && bcode == 2) + once(r && rcode == 2)
            &&& z.resp_decerr == a.resp_decerr + once(b && bcode == 3) + once(r && rcode == 3)
            &&& z.max_len == raised(
                raised(a.max_len, p.awlen@.number_or_zero(), aw),
                p.arlen@.number_or_zero(),
                ar,
            )
        }),
        s.clocked(true, p, now).seen == s.seen,
{
    lemma_channels(p, p, Chan::Aw);
    lemma_channels(p, p, Chan::W);
    lemma_channels(p, p, Chan::B);
    lemma_channels(p, p, Chan::Ar);
    lemma_channels(p, p, Chan::R);
    let s1 = s.after_lines(p);
    let s2 = s1.after_aw(p, now);
    let s3 = s2.after_ar(p, now);
    let s4 = s3.after_w(p);
    let s5 = s4.after_r(p, now);
    let s6 = s5.after_b(p, now);
    assert(s2.seen.max_len == raised(s.seen.max_len, p.awlen@.number_or_zero(), taken(p, Chan::Aw)));
    assert(s3.seen.max_len == raised(
        s2.seen.max_len,
        p.arlen@.number_or_zero(),
        taken(p, Chan::Ar),
    ));
    assert(s5.seen.resp_okay == s.seen.resp_okay + once(
        taken(p, Chan::R) && p.rresp@.number_or_zero() == 0,
    ));
    assert(s5.seen.resp_slverr == s.seen.resp_slverr + once(
        taken(p, Chan::R) && p.rresp@.number_or_zero() == 2,
    ));
    assert(s5.seen.resp_decerr == s.seen.resp_decerr + once(
        taken(p, Chan::R) && p.rresp@.number_or_zero() == 3,
    ));
    assert(s6 == s.clocked(false, p, now));
}

/// A size counts as seen exactly where it was seen before or a burst with it is
/// announced.
pub proof fn lemma_sizes_are_seen(s: Axi3CheckerView, p: Axi3MonitorPorts, now: u64, n: u64)
    requires
        s.can_clock(false, p, now),
        n < 64,
    ensures
        ((s.clocked(false, p, now).seen.sizes_seen >> n) & 1 != 0) == ((s.seen.sizes_seen >> n) & 1
            != 0 || taken(p, Chan::Aw) && p.awsize@.number_or_zero() == n || taken(p, Chan::Ar)
            && p.arsize@.number_or_zero() == n),
{
    lemma_channels(p, p, Chan::Aw);
    lemma_channels(p, p, Chan::Ar);
    let s1 = s.after_lines(p);
    let s2 = s1.after_aw(p, now);
    let s3 = s2.after_ar(p, now);
    assert(s.clocked(false, p, now).seen.sizes_seen == s3.seen.sizes_seen);
    let (x, y) = (p.awsize@.number_or_zero(), p.arsize@.number_or_zero());
    if taken(p, Chan::Aw) {
        lemma_or_has_bits_of_both(s.seen.sizes_seen, 1u64 << x, n);
        lemma_one_bit(x, n);
    }
    if taken(p, Chan::Ar) {
        lemma_or_has_bits_of_both(s2.seen.sizes_seen, 1u64 << y, n);
        lemma_one_bit(y, n);
    }
}

proof fn lemma_one_bit(k: u64, n: u64)
    requires
        k < 64,
        n < 64,
    ensures
        (((1u64 << k) >> n) & 1 != 0) == (k == n),
{
    assert((((1u64 << k) >> n) & 1 != 0) == (k == n)) by (bit_vector)
        requires
            k < 64,
            n < 64,
    ;
}

/// The latency of a transaction is the cycles from its announcement, or none.
pub open spec fn latency(open: Seq<u64>, now: u64, answered: bool) -> Option<u64> {
    if answered && open.len() > 0 {
        Some((now - open[0]) as u64)
    } else {
        None
    }
}

/// Latencies and exclusive successes over any history: a write response adds the
/// cycles since the oldest unanswered write of its ID was announced, a last beat
/// of read data those since the oldest read, and EXOKAY counts as a success
/// exactly where that transaction is exclusive.
pub proof fn lemma_latencies_are_due(c: Axi3CheckerView, h: Seq<Seen>, k: Seen)
    requires
        clear(c),
        h.len() + 1 < u64::MAX,
        run(c, h).can_clock(false, k.bus, k.now),
    ensures
        ({
            let p = k.bus;
            let a = run(c, h).seen;
            let z = run(c, h).clocked(false, p, k.now).seen;
            let (b, r) = (id_of(p, Chan::B), id_of(p, Chan::R));
            let writes = with_time(open_since(h, b, true), p, k.now, b, true);
            let reads = with_time(open_since(h, r, false), p, k.now, r, false);
            let wlocks = with_lock(open_locks(h, b, true), p, b, true);
            let rlocks = with_lock(open_locks(h, r, false), p, r, false);
            let last = taken(p, Chan::R) && p.rlast@.high();
            &&& adds_latency(a.write_lat, z.write_lat, latency(writes, k.now, taken(p, Chan::B)))
            &&& adds_latency(a.read_lat, z.read_lat, latency(reads, k.now, last))
            &&& z.exclusive_ok == a.exclusive_ok + once(
                taken(p, Chan::B) && p.bresp@.number_or_zero() == 1 && wlocks.len() > 0
                    && wlocks[0],
            ) + once(last && p.rresp@.number_or_zero() == 1 && rlocks.len() > 0 && rlocks[0])
        }),
{
    let p = k.bus;
    let now = k.now;
    lemma_channels(p, p, Chan::Aw);
    lemma_channels(p, p, Chan::B);
    lemma_channels(p, p, Chan::Ar);
    lemma_channels(p, p, Chan::R);
    let (b, r) = (id_of(p, Chan::B), id_of(p, Chan::R));
    lemma_history_of_writes(c, h, b);
    lemma_history_of_reads(c, h, r);
    let t = run(c, h);
    let t1 = t.after_lines(p).after_aw(p, now);
    let t3 = t1.after_ar(p, now);
    let t4 = t3.after_w(p);
    let t5 = t4.after_r(p, now);
    let t6 = t5.after_b(p, now);
    assert(queue_of(t1.writes.cycles, b) =~= with_time(open_since(h, b, true), p, now, b, true));
    assert(queue_of(t1.writes.excl, b) =~= with_lock(open_locks(h, b, true), p, b, true));
    assert(queue_of(t3.reads.cycles, r) =~= with_time(open_since(h, r, false), p, now, r, false));
    assert(queue_of(t3.reads.excl, r) =~= with_lock(open_locks(h, r, false), p, r, false));
    assert(t5.writes.excl == t1.writes.excl && t5.writes.cycles == t1.writes.cycles);
    assert(t4.reads == t3.reads);
    assert(t6 == t.clocked(false, p, now));
    assert(t4.seen.read_lat == t.seen.read_lat && t4.seen.write_lat == t.seen.write_lat
        && t4.seen.exclusive_ok == t.seen.exclusive_ok);
}

/// A fresh checker has counted nothing.
pub proof fn lemma_fresh_has_counted_nothing(width: u32, timeout: Option<u64>)
    ensures
        ({
            let z = Axi3CheckerView::fresh(width, timeout).seen;
            &&& z.writes == 0 && z.reads == 0 && z.beats == 0 && z.max_len == 0
            &&& z.fixed == 0 && z.incr == 0 && z.wrap == 0 && z.sizes_seen == 0
            &&& z.exclusive == 0 && z.exclusive_ok == 0
            &&& z.resp_okay == 0 && z.resp_slverr == 0 && z.resp_decerr == 0
            &&& z.write_lat.count == 0 && z.write_lat.sum == 0
            &&& z.read_lat.count == 0 && z.read_lat.sum == 0
        }),
{
}

} // verus!
