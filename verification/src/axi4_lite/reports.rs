//! What the AXI4-Lite checker reports, over any history of cycles.

use crate::axi4_lite::checker::{run, Axi4LiteCheckerView, Axi4LiteMonitorPorts};
use crate::axi4_lite::fault::{lemma_times_lines, lines, Axi4LiteFault};
use crate::common::channel::Unstable;
use crate::common::counting::past;
use crate::common::handshakes::{
    at_rest, followed, lane_of, lemma_reset_is_rest, lemma_stability_reports, lemma_timeout_reports,
    lemma_unknown_is_some, lemma_unknown_line_reports, lemma_unknown_payload_reports, some_unknown,
};
use crate::common::latency::adds_latency;
use crate::common::lanes::{aligned, lane_count, lemma_aligned_is_rounding};
use crate::common::monitor::{
    high_in_reset, unknown_lines, unknown_payloads, Chan, LanesView, LineFault, Wire,
};
use crate::common::report::{
    lemma_times_none, lemma_times_only_if, lemma_times_together, once, times,
};
use crate::common::words::{lemma_fold_covers_lanes, lemma_or_has_bits_of_both, or_all, words_of};
use crate::value::ValueView;
use vstd::arithmetic::power2::{lemma_pow2_pos, pow2};
use vstd::prelude::*;

verus! {

/// The VALID line of a channel.
pub open spec fn valid(p: Axi4LiteMonitorPorts, c: Chan) -> ValueView {
    match c {
        Chan::Aw => p.awvalid@,
        Chan::W => p.wvalid@,
        Chan::B => p.bvalid@,
        Chan::Ar => p.arvalid@,
        Chan::R => p.rvalid@,
    }
}

/// The READY line of a channel.
pub open spec fn ready(p: Axi4LiteMonitorPorts, c: Chan) -> ValueView {
    match c {
        Chan::Aw => p.awready@,
        Chan::W => p.wready@,
        Chan::B => p.bready@,
        Chan::Ar => p.arready@,
        Chan::R => p.rready@,
    }
}

/// Whether a channel hands its payload over.
pub open spec fn taken(p: Axi4LiteMonitorPorts, c: Chan) -> bool {
    valid(p, c).high() && ready(p, c).high()
}

/// Whether a channel offers a payload that is not taken.
pub open spec fn waits(p: Axi4LiteMonitorPorts, c: Chan) -> bool {
    valid(p, c).high() && !ready(p, c).high()
}

/// Whether a channel shows an X or Z bit in its payload, AxPROT aside.
pub open spec fn unknown_payload(p: Axi4LiteMonitorPorts, c: Chan) -> bool {
    match c {
        Chan::Aw => p.awaddr@.unknown(),
        Chan::W => p.wdata@.unknown() || p.wstrb@.unknown(),
        Chan::B => p.bresp@.unknown(),
        Chan::Ar => p.araddr@.unknown(),
        Chan::R => p.rdata@.unknown() || p.rresp@.unknown(),
    }
}

/// Whether a channel shows the same payload in two cycles, AxPROT aside.
pub open spec fn same_payload(
    p: Axi4LiteMonitorPorts,
    q: Axi4LiteMonitorPorts,
    c: Chan,
) -> bool {
    match c {
        Chan::Aw => p.awaddr@ == q.awaddr@,
        Chan::W => p.wdata@ == q.wdata@ && p.wstrb@ == q.wstrb@,
        Chan::B => p.bresp@ == q.bresp@,
        Chan::Ar => p.araddr@ == q.araddr@,
        Chan::R => p.rdata@ == q.rdata@ && p.rresp@ == q.rresp@,
    }
}

/// For how many cycles a channel has been waiting at the end of a history.
pub open spec fn waiting_for(h: Seq<(Axi4LiteMonitorPorts, u64)>, c: Chan) -> nat
    decreases h.len(),
{
    if h.len() == 0 || !waits(h.last().0, c) {
        0
    } else {
        waiting_for(h.drop_last(), c) + 1
    }
}

/// How often a channel has handed a payload over in a history.
pub open spec fn handed_over(h: Seq<(Axi4LiteMonitorPorts, u64)>, c: Chan) -> nat
    decreases h.len(),
{
    if h.len() == 0 {
        0
    } else {
        handed_over(h.drop_last(), c) + once(taken(h.last().0, c))
    }
}

/// The writes of a history whose address and data were handed over and whose
/// response was not, and the reads whose data was not.
pub open spec fn unanswered(h: Seq<(Axi4LiteMonitorPorts, u64)>) -> int {
    let aw = handed_over(h, Chan::Aw);
    let w = handed_over(h, Chan::W);
    let b = handed_over(h, Chan::B);
    let ar = handed_over(h, Chan::Ar);
    let r = handed_over(h, Chan::R);
    (if b < aw && b < w {
        if aw < w {
            aw - b
        } else {
            w - b
        }
    } else {
        0
    }) + (if r < ar {
        ar - r
    } else {
        0
    })
}

/// For how many cycles nothing has been handed over at the end of a history
/// although something is unanswered.
pub open spec fn idle_for(h: Seq<(Axi4LiteMonitorPorts, u64)>) -> nat
    decreases h.len(),
{
    if h.len() == 0 || unanswered(h) == 0 || taken(h.last().0, Chan::Aw) || taken(
        h.last().0,
        Chan::W,
    ) || taken(h.last().0, Chan::B) || taken(h.last().0, Chan::Ar) || taken(h.last().0, Chan::R) {
        0
    } else {
        idle_for(h.drop_last()) + 1
    }
}

/// Whether nothing waits and nothing was handed over, as at the start and after
/// a reset.
pub open spec fn starts(s: Axi4LiteCheckerView) -> bool {
    &&& at_rest(s.lines)
    &&& s.done.aw == 0 && s.done.w == 0 && s.done.b == 0 && s.done.ar == 0 && s.done.r == 0
    &&& s.idle_cycles == 0
}

/// A checker starts so, and a reset brings it there.
pub proof fn lemma_reset_starts(
    s: Axi4LiteCheckerView,
    p: Axi4LiteMonitorPorts,
    now: u64,
    width: u32,
    timeout: Option<u64>,
    liveness: Option<u64>,
)
    ensures
        starts(Axi4LiteCheckerView::fresh(width, timeout, liveness)),
        starts(s.clocked(true, p, now)),
        ({
            let f = Axi4LiteCheckerView::fresh(width, timeout, liveness);
            f.width == width && f.timeout == timeout && f.liveness == liveness
        }),
        ({
            let t = s.clocked(true, p, now);
            t.width == s.width && t.timeout == s.timeout && t.liveness == s.liveness
        }),
{
    lemma_reset_is_rest(s.lines);
}

/// What the channels show over a history.
spec fn shown(h: Seq<(Axi4LiteMonitorPorts, u64)>) -> Seq<LanesView> {
    Seq::new(h.len(), |i: int| h[i].0.channels())
}

proof fn lemma_channels(p: Axi4LiteMonitorPorts, q: Axi4LiteMonitorPorts, c: Chan)
    ensures
        ({
            let l = lane_of(p.channels(), c);
            &&& l.valid == valid(p, c)
            &&& l.ready == ready(p, c)
            &&& some_unknown(l.payload) == unknown_payload(p, c)
            &&& (l.payload == lane_of(q.channels(), c).payload) == same_payload(p, q, c)
        }),
{
    let l = lane_of(p.channels(), c);
    let a = l.payload;
    let b = lane_of(q.channels(), c).payload;
    lemma_unknown_is_some(l);
    match c {
        Chan::Aw => {
            assert(a[0] == p.awaddr@ && b[0] == q.awaddr@);
        },
        Chan::W => {
            assert(a[0] == p.wdata@ && b[0] == q.wdata@ && a[1] == p.wstrb@ && b[1] == q.wstrb@);
        },
        Chan::B => {
            assert(a[0] == p.bresp@ && b[0] == q.bresp@);
        },
        Chan::Ar => {
            assert(a[0] == p.araddr@ && b[0] == q.araddr@);
        },
        Chan::R => {
            assert(a[0] == p.rdata@ && b[0] == q.rdata@ && a[1] == p.rresp@ && b[1] == q.rresp@);
        },
    }
    if same_payload(p, q, c) {
        assert(a =~= b);
    }
}

proof fn lemma_waits_are_shown(h: Seq<(Axi4LiteMonitorPorts, u64)>, c: Chan)
    ensures
        crate::common::handshakes::waiting_for(shown(h), c) == waiting_for(h, c),
    decreases h.len(),
{
    if h.len() > 0 {
        lemma_waits_are_shown(h.drop_last(), c);
        assert(shown(h).drop_last() =~= shown(h.drop_last()));
        lemma_channels(h.last().0, h.last().0, c);
    }
}

proof fn lemma_history_is_remembered(
    s: Axi4LiteCheckerView,
    h: Seq<(Axi4LiteMonitorPorts, u64)>,
)
    requires
        starts(s),
        h.len() < u64::MAX,
    ensures
        ({
            let t = run(s, h);
            &&& t.width == s.width && t.timeout == s.timeout && t.liveness == s.liveness
            &&& t.lines == followed(s.lines, shown(h))
            &&& t.done.aw == handed_over(h, Chan::Aw) <= h.len()
            &&& t.done.w == handed_over(h, Chan::W) <= h.len()
            &&& t.done.b == handed_over(h, Chan::B) <= h.len()
            &&& t.done.ar == handed_over(h, Chan::Ar) <= h.len()
            &&& t.done.r == handed_over(h, Chan::R) <= h.len()
            &&& t.done.outstanding() == unanswered(h)
            &&& t.idle_cycles == idle_for(h) <= h.len()
        }),
    decreases h.len(),
{
    if h.len() > 0 {
        let p = h.last().0;
        lemma_history_is_remembered(s, h.drop_last());
        assert(shown(h).drop_last() =~= shown(h.drop_last()));
        lemma_channels(p, p, Chan::Aw);
        lemma_channels(p, p, Chan::W);
        lemma_channels(p, p, Chan::B);
        lemma_channels(p, p, Chan::Ar);
        lemma_channels(p, p, Chan::R);
    }
}

/// During reset, exactly the VALID lines that are set are reported, each once.
pub proof fn lemma_reset_reports(
    s: Axi4LiteCheckerView,
    p: Axi4LiteMonitorPorts,
    four_state: bool,
    x: Axi4LiteFault,
)
    ensures
        times(s.faults(true, p, four_state), x) == once(
            match x {
                Axi4LiteFault::Line(LineFault::HighInReset(Wire::Valid(c))) => valid(p, c).truth(),
                _ => false,
            },
        ),
{
    lemma_times_lines(high_in_reset(p.channels()), x);
    if let Axi4LiteFault::Line(f) = x {
        crate::common::handshakes::lemma_reset_reports(p.channels(), f);
        if let LineFault::HighInReset(Wire::Valid(c)) = f {
            lemma_channels(p, p, c);
        }
    }
}

proof fn lemma_line_reports(
    s: Axi4LiteCheckerView,
    h: Seq<(Axi4LiteMonitorPorts, u64)>,
    p: Axi4LiteMonitorPorts,
    now: u64,
    f: LineFault,
)
    requires
        starts(s),
        h.len() + 1 < u64::MAX,
    ensures
        ({
            let t = run(s, h);
            let l = p.channels();
            &&& times(unknown_payloads(l), f) == once(
                f matches LineFault::UnknownPayload(c) && valid(p, c).high() && unknown_payload(
                    p,
                    c,
                ),
            )
            &&& times(unknown_lines(l), f) == once(
                match f {
                    LineFault::Unknown(Wire::Valid(c)) => valid(p, c).unknown(),
                    LineFault::Unknown(Wire::Ready(c)) => ready(p, c).unknown(),
                    _ => false,
                },
            )
            &&& times(t.lines.violations(l), f) == once(
                match f {
                    LineFault::Unsteady(c, Unstable::Deasserted) => h.len() > 0 && waits(
                        h.last().0,
                        c,
                    ) && !valid(p, c).high(),
                    LineFault::Unsteady(c, Unstable::Changed) => h.len() > 0 && waits(h.last().0, c)
                        && valid(p, c).high() && !same_payload(h.last().0, p, c),
                    _ => false,
                },
            )
            &&& times(t.lines.after(l).timeouts(s.timeout), f) == once(
                match f {
                    LineFault::Timeout(c, limit) => s.timeout == Some(limit) && waiting_for(
                        h.push((p, now)),
                        c,
                    ) == limit + 1,
                    _ => false,
                },
            )
        }),
{
    let l = p.channels();
    let all = h.push((p, now));
    lemma_history_is_remembered(s, h);
    assert(shown(all).drop_last() =~= shown(h));
    assert(shown(all).last() == l);
    lemma_unknown_payload_reports(l, f);
    lemma_unknown_line_reports(l, f);
    lemma_stability_reports(s.lines, shown(h), l, f);
    lemma_timeout_reports(s.lines, shown(all), s.timeout, f);
    assert(followed(s.lines, shown(all)) == run(s, h).lines.after(l));
    if h.len() > 0 {
        assert(shown(h).last() == h.last().0.channels());
    }
    match f {
        LineFault::UnknownPayload(c) => lemma_channels(p, p, c),
        LineFault::Unknown(Wire::Valid(c)) => lemma_channels(p, p, c),
        LineFault::Unknown(Wire::Ready(c)) => lemma_channels(p, p, c),
        LineFault::Unsteady(c, _) => {
            lemma_channels(p, p, c);
            if h.len() > 0 {
                lemma_channels(h.last().0, p, c);
            }
        },
        LineFault::Timeout(c, _) => lemma_waits_are_shown(all, c),
        LineFault::HighInReset(_) => {},
    }
}

/// Whether an address has a bit set below the byte lanes of a `width`-bit bus.
pub open spec fn off_lane(a: u64, width: u32) -> bool {
    width >= 8 && a & ((width / 8 - 1) as u64) != 0
}

/// Where the byte lanes are a power of two, the addresses off a lane are those
/// that are not a multiple of the lanes.
pub proof fn lemma_off_lane_is_unaligned(a: u64, width: u32, k: nat)
    requires
        k < 29,
        width == 8 * pow2(k),
    ensures
        off_lane(a, width) <==> a % ((width / 8) as u64) != 0,
{
    let n = (width / 8) as u64;
    lemma_pow2_pos(k);
    lemma_aligned_is_rounding(a, n, k);
    lemma_off_lane(a, width);
}

proof fn lemma_off_lane(a: u64, width: u32)
    ensures
        off_lane(a, width) == (aligned(a, lane_count(width)) != a),
{
    let m = (lane_count(width) - 1) as u64;
    assert((a & !m != a) == (a & m != 0)) by (bit_vector);
    if width < 8 {
        assert(a & 0 == 0) by (bit_vector);
    }
}

/// Everything the checker reports, and nothing else, after any history without
/// reset. Lines and payloads with an X or Z bit are reported in a four-state run
/// only, a payload only while it is offered. A channel that waited in the cycle
/// before has to keep VALID and its payload. A wait is reported in the cycle
/// that makes it one longer than the limit. EXOKAY is reported wherever it is
/// offered. An address is reported where it is handed over off a lane. A
/// response is reported as long as more responses than requests were handed
/// over; a write is requested by its address and its data. A bus without a
/// handshake, with something unanswered, is reported in the cycle that makes
/// this one longer than its limit. Each fault is reported once.
pub proof fn lemma_reports_are_due(
    s: Axi4LiteCheckerView,
    h: Seq<(Axi4LiteMonitorPorts, u64)>,
    p: Axi4LiteMonitorPorts,
    now: u64,
    four_state: bool,
    x: Axi4LiteFault,
)
    requires
        starts(s),
        h.len() + 1 < u64::MAX,
    ensures
        ({
            let all = h.push((p, now));
            times(run(s, h).faults(false, p, four_state), x) == once(
                match x {
                    Axi4LiteFault::Line(f) => match f {
                        LineFault::HighInReset(_) => false,
                        LineFault::Unknown(Wire::Valid(c)) => four_state && valid(p, c).unknown(),
                        LineFault::Unknown(Wire::Ready(c)) => four_state && ready(p, c).unknown(),
                        LineFault::UnknownPayload(c) => four_state && valid(p, c).high()
                            && unknown_payload(p, c),
                        LineFault::Unsteady(c, Unstable::Deasserted) => h.len() > 0 && waits(
                            h.last().0,
                            c,
                        ) && !valid(p, c).high(),
                        LineFault::Unsteady(c, Unstable::Changed) => h.len() > 0 && waits(
                            h.last().0,
                            c,
                        ) && valid(p, c).high() && !same_payload(h.last().0, p, c),
                        LineFault::Timeout(c, limit) => s.timeout == Some(limit) && waiting_for(
                            all,
                            c,
                        ) == limit + 1,
                    },
                    Axi4LiteFault::Exokay(Chan::B) => p.bvalid@.high()
                        && p.bresp@.number_or_zero() == 1,
                    Axi4LiteFault::Exokay(Chan::R) => p.rvalid@.high()
                        && p.rresp@.number_or_zero() == 1,
                    Axi4LiteFault::Exokay(_) => false,
                    Axi4LiteFault::Unaligned(Chan::Aw, a) => taken(p, Chan::Aw) && a
                        == p.awaddr@.number_or_zero() && off_lane(a, s.width),
                    Axi4LiteFault::Unaligned(Chan::Ar, a) => taken(p, Chan::Ar) && a
                        == p.araddr@.number_or_zero() && off_lane(a, s.width),
                    Axi4LiteFault::Unaligned(_, _) => false,
                    Axi4LiteFault::EarlyWriteResponse => handed_over(all, Chan::B) > handed_over(
                        all,
                        Chan::Aw,
                    ) || handed_over(all, Chan::B) > handed_over(all, Chan::W),
                    Axi4LiteFault::EarlyReadResponse => handed_over(all, Chan::R) > handed_over(
                        all,
                        Chan::Ar,
                    ),
                    Axi4LiteFault::Deadlock(limit) => s.liveness == Some(limit) && idle_for(all)
                        == limit + 1,
                },
            )
        }),
{
    let t = run(s, h);
    let l = p.channels();
    let all = h.push((p, now));
    let f = if x is Line {
        x->Line_0
    } else {
        LineFault::UnknownPayload(Chan::Aw)
    };
    assert(all.drop_last() =~= h);
    lemma_history_is_remembered(s, h);
    lemma_history_is_remembered(s, all);
    lemma_line_reports(s, h, p, now, f);
    let none = Seq::<LineFault>::empty();
    lemma_times_none(f);
    lemma_times_none(x);
    let a = lines(
        if four_state {
            unknown_payloads(l)
        } else {
            none
        },
    );
    let b = lines(t.lines.violations(l));
    let c = t.exokay_faults(p);
    let d = lines(
        if four_state {
            unknown_lines(l)
        } else {
            none
        },
    );
    let e = t.order_faults(p);
    let g = lines(t.lines.after(l).timeouts(t.timeout));
    let k = t.deadlock(l);
    lemma_times_lines(
        if four_state {
            unknown_payloads(l)
        } else {
            none
        },
        x,
    );
    lemma_times_lines(t.lines.violations(l), x);
    lemma_times_lines(
        if four_state {
            unknown_lines(l)
        } else {
            none
        },
        x,
    );
    lemma_times_lines(t.lines.after(l).timeouts(t.timeout), x);
    lemma_exokay_reports(t, p, x);
    lemma_order_reports(t, p, x);
    lemma_deadlock_reports(t, l, x);
    lemma_times_together(a, b, x);
    lemma_times_together(a + b, c, x);
    lemma_times_together(a + b + c, d, x);
    lemma_times_together(a + b + c + d, e, x);
    lemma_times_together(a + b + c + d + e, g, x);
    lemma_times_together(a + b + c + d + e + g, k, x);
    assert(t.faults(false, p, four_state) == a + b + c + d + e + g + k);
    assert(t.done.after(l).outstanding() == unanswered(all));
}

proof fn lemma_exokay_reports(t: Axi4LiteCheckerView, p: Axi4LiteMonitorPorts, x: Axi4LiteFault)
    ensures
        times(t.exokay_faults(p), x) == once(
            match x {
                Axi4LiteFault::Exokay(Chan::B) => p.bvalid@.high() && p.bresp@.number_or_zero()
                    == 1,
                Axi4LiteFault::Exokay(Chan::R) => p.rvalid@.high() && p.rresp@.number_or_zero()
                    == 1,
                _ => false,
            },
        ),
{
    broadcast use {lemma_times_together, lemma_times_only_if};

}

proof fn lemma_order_reports(t: Axi4LiteCheckerView, p: Axi4LiteMonitorPorts, x: Axi4LiteFault)
    ensures
        ({
            let done = t.done.after(p.channels());
            times(t.order_faults(p), x) == once(
                match x {
                    Axi4LiteFault::Unaligned(Chan::Aw, a) => taken(p, Chan::Aw) && a
                        == p.awaddr@.number_or_zero() && off_lane(a, t.width),
                    Axi4LiteFault::Unaligned(Chan::Ar, a) => taken(p, Chan::Ar) && a
                        == p.araddr@.number_or_zero() && off_lane(a, t.width),
                    Axi4LiteFault::EarlyWriteResponse => done.b > done.aw || done.b > done.w,
                    Axi4LiteFault::EarlyReadResponse => done.r > done.ar,
                    _ => false,
                },
            )
        }),
{
    broadcast use {lemma_times_together, lemma_times_only_if};

    lemma_off_lane(p.awaddr@.number_or_zero(), t.width);
    lemma_off_lane(p.araddr@.number_or_zero(), t.width);
    lemma_channels(p, p, Chan::Aw);
    lemma_channels(p, p, Chan::Ar);
}

proof fn lemma_deadlock_reports(t: Axi4LiteCheckerView, l: LanesView, x: Axi4LiteFault)
    ensures
        times(t.deadlock(l), x) == once(
            x matches Axi4LiteFault::Deadlock(n) && t.liveness == Some(n) && t.idle_after(l)
                == past(n),
        ),
{
    broadcast use lemma_times_only_if;

    lemma_times_none(x);
}

/// When the requests of a channel were handed over that no response has answered,
/// oldest first.
pub open spec fn open_since(
    h: Seq<(Axi4LiteMonitorPorts, u64)>,
    request: Chan,
    response: Chan,
) -> Seq<u64>
    decreases h.len(),
{
    if h.len() == 0 {
        seq![]
    } else {
        let (p, now) = h.last();
        let open = with_time(open_since(h.drop_last(), request, response), p, now, request);
        if taken(p, response) && open.len() > 0 {
            open.drop_first()
        } else {
            open
        }
    }
}

/// With when a cycle hands a request over, if it does.
pub open spec fn with_time(
    open: Seq<u64>,
    p: Axi4LiteMonitorPorts,
    now: u64,
    request: Chan,
) -> Seq<u64> {
    if taken(p, request) {
        open.push(now)
    } else {
        open
    }
}

proof fn lemma_requests_are_remembered(
    s: Axi4LiteCheckerView,
    h: Seq<(Axi4LiteMonitorPorts, u64)>,
)
    requires
        s.aw_cycles.len() == 0,
        s.ar_cycles.len() == 0,
    ensures
        run(s, h).aw_cycles == open_since(h, Chan::Aw, Chan::B),
        run(s, h).ar_cycles == open_since(h, Chan::Ar, Chan::R),
    decreases h.len(),
{
    if h.len() > 0 {
        let p = h.last().0;
        lemma_requests_are_remembered(s, h.drop_last());
        lemma_channels(p, p, Chan::Aw);
        lemma_channels(p, p, Chan::B);
        lemma_channels(p, p, Chan::Ar);
        lemma_channels(p, p, Chan::R);
    } else {
        assert(s.aw_cycles =~= seq![]);
        assert(s.ar_cycles =~= seq![]);
    }
}

/// The cycles since the oldest request, where it is answered.
pub open spec fn latency(open: Seq<u64>, now: u64, answered: bool) -> Option<u64> {
    if answered && open.len() > 0 {
        Some((now - open[0]) as u64)
    } else {
        None
    }
}

/// Latencies over any history: a write response adds the cycles since the oldest
/// unanswered write address was handed over, and read data those since the
/// oldest unanswered read address.
pub proof fn lemma_latencies_are_due(
    s: Axi4LiteCheckerView,
    h: Seq<(Axi4LiteMonitorPorts, u64)>,
    p: Axi4LiteMonitorPorts,
    now: u64,
)
    requires
        s.aw_cycles.len() == 0,
        s.ar_cycles.len() == 0,
        run(s, h).can_clock(false, p, now),
    ensures
        ({
            let a = run(s, h).seen;
            let z = run(s, h).clocked(false, p, now).seen;
            let writes = with_time(open_since(h, Chan::Aw, Chan::B), p, now, Chan::Aw);
            let reads = with_time(open_since(h, Chan::Ar, Chan::R), p, now, Chan::Ar);
            &&& adds_latency(a.write_lat, z.write_lat, latency(writes, now, taken(p, Chan::B)))
            &&& adds_latency(a.read_lat, z.read_lat, latency(reads, now, taken(p, Chan::R)))
        }),
{
    lemma_requests_are_remembered(s, h);
    lemma_channels(p, p, Chan::Aw);
    lemma_channels(p, p, Chan::B);
    lemma_channels(p, p, Chan::Ar);
    lemma_channels(p, p, Chan::R);
    let t = run(s, h);
    let l = p.channels();
    let timed = t.seen_timed(l, now);
    let z = t.clocked(false, p, now).seen;
    assert(z.write_lat == timed.write_lat && z.read_lat == timed.read_lat);
}

/// A number raised to another, where that is larger.
pub open spec fn raised(n: u64, to: u64, c: bool) -> u64 {
    if c && to > n {
        to
    } else {
        n
    }
}

/// What a cycle adds to the counts, whatever was before: one handshake for each
/// channel that hands over, one response of its code for each response, one
/// no-op write for write data without an active lane. An address that is handed
/// over is one of the addresses seen and widens their range to hold it. A reset
/// forgets the handshakes and keeps the rest.
pub proof fn lemma_counts_are_due(s: Axi4LiteCheckerView, p: Axi4LiteMonitorPorts, now: u64)
    requires
        s.can_clock(false, p, now),
    ensures
        ({
            let t = s.clocked(false, p, now);
            let a = s.seen;
            let z = t.seen;
            let (b, r) = (taken(p, Chan::B), taken(p, Chan::R));
            let (aw, ar) = (taken(p, Chan::Aw), taken(p, Chan::Ar));
            let (x, y) = (p.awaddr@.number_or_zero(), p.araddr@.number_or_zero());
            let bcode = p.bresp@.number_or_zero();
            let rcode = p.rresp@.number_or_zero();
            &&& t.done.b == s.done.b + once(b) && t.done.r == s.done.r + once(r)
            &&& z.resp_okay == a.resp_okay + once(b && bcode == 0) + once(r && rcode == 0)
            &&& z.resp_slverr == a.resp_slverr + once(b && bcode == 2) + once(r && rcode == 2)
            &&& z.resp_decerr == a.resp_decerr + once(b && bcode == 3) + once(r && rcode == 3)
            &&& t.distinct == s.distinct.union(
                Set::new(|n: u64| aw && n == x || ar && n == y),
            )
            &&& z.seen_addr == (a.seen_addr || aw || ar)
            &&& !aw && !ar ==> z.addr_lo == a.addr_lo && z.addr_hi == a.addr_hi
            &&& aw ==> z.addr_lo <= x <= z.addr_hi
            &&& ar ==> z.addr_lo <= y <= z.addr_hi
            &&& a.seen_addr ==> z.addr_lo <= a.addr_lo && a.addr_hi <= z.addr_hi
            &&& aw || ar ==> a.seen_addr && z.addr_lo == a.addr_lo || aw && z.addr_lo == x || ar
                && z.addr_lo == y
            &&& aw || ar ==> a.seen_addr && z.addr_hi == a.addr_hi || aw && z.addr_hi == x || ar
                && z.addr_hi == y
        }),
        s.clocked(true, p, now).seen == s.seen,
        s.clocked(true, p, now).distinct == s.distinct,
{
    lemma_channels(p, p, Chan::Aw);
    lemma_channels(p, p, Chan::W);
    lemma_channels(p, p, Chan::B);
    lemma_channels(p, p, Chan::Ar);
    lemma_channels(p, p, Chan::R);
    let t = s.clocked(false, p, now);
    let (aw, ar) = (taken(p, Chan::Aw), taken(p, Chan::Ar));
    let (x, y) = (p.awaddr@.number_or_zero(), p.araddr@.number_or_zero());
    assert(t.distinct =~= s.distinct.union(Set::new(|n: u64| aw && n == x || ar && n == y)));
}

/// Whether no word of a value has a bit set.
pub open spec fn all_clear(v: ValueView) -> bool {
    v matches ValueView::Bits { words, .. } ==> forall|i: int|
        0 <= i < words.len() ==> words[i] == 0
}

/// Whether some word of a value has bit `b` set.
pub open spec fn has_bit(v: ValueView, b: u64) -> bool {
    v matches ValueView::Bits { words, .. } && exists|i: int|
        0 <= i < words.len() && (#[trigger] words[i] >> b) & 1 != 0
}

/// A strobe lane counts as seen exactly where it was seen before or is active in
/// write data that is handed over.
pub proof fn lemma_strobes_are_seen(
    s: Axi4LiteCheckerView,
    p: Axi4LiteMonitorPorts,
    now: u64,
    b: u64,
)
    requires
        s.can_clock(false, p, now),
        b < 64,
    ensures
        ((s.clocked(false, p, now).seen.strobe_seen >> b) & 1 != 0) == ((s.seen.strobe_seen >> b)
            & 1 != 0 || taken(p, Chan::W) && has_bit(p.wstrb@, b)),
{
    lemma_channels(p, p, Chan::W);
    let (k, x) = (s.seen.strobe_seen, or_all(words_of(p.wstrb@)));
    lemma_fold_covers_lanes(words_of(p.wstrb@), b);
    lemma_or_has_bits_of_both(k, x, b);
}

/// Write data counts as a no-op exactly where no lane is active.
pub proof fn lemma_noops_are_counted(s: Axi4LiteCheckerView, p: Axi4LiteMonitorPorts, now: u64)
    requires
        s.can_clock(false, p, now),
    ensures
        s.clocked(false, p, now).seen.noop_writes == s.seen.noop_writes + once(
            taken(p, Chan::W) && all_clear(p.wstrb@),
        ),
{
    lemma_channels(p, p, Chan::W);
    lemma_fold_of_clear(words_of(p.wstrb@));
}

proof fn lemma_fold_of_clear(words: Seq<u64>)
    ensures
        (or_all(words) == 0) == (forall|i: int| 0 <= i < words.len() ==> words[i] == 0),
    decreases words.len(),
{
    if words.len() > 0 {
        let rest = words.drop_last();
        lemma_fold_of_clear(rest);
        let (x, y) = (or_all(rest), words.last());
        assert((x | y == 0) == (x == 0 && y == 0)) by (bit_vector);
        if forall|i: int| 0 <= i < words.len() ==> words[i] == 0 {
            assert(words[words.len() - 1] == 0);
            assert(forall|i: int| 0 <= i < rest.len() ==> rest[i] == words[i]);
        }
        if x == 0 && y == 0 {
            assert forall|i: int| 0 <= i < words.len() implies words[i] == 0 by {
                if i < rest.len() {
                    assert(rest[i] == 0);
                }
            }
        }
    }
}

/// The most that was unanswered at a time, over any history.
pub proof fn lemma_most_outstanding_is_kept(
    s: Axi4LiteCheckerView,
    h: Seq<(Axi4LiteMonitorPorts, u64)>,
    p: Axi4LiteMonitorPorts,
    now: u64,
)
    requires
        starts(s),
        h.len() + 1 < u64::MAX,
        run(s, h).can_clock(false, p, now),
    ensures
        run(s, h).clocked(false, p, now).seen.max_outstanding == raised(
            run(s, h).seen.max_outstanding,
            unanswered(h.push((p, now))) as u64,
            true,
        ),
{
    let all = h.push((p, now));
    assert(all.drop_last() =~= h);
    lemma_history_is_remembered(s, all);
}

/// A fresh checker has counted nothing.
pub proof fn lemma_fresh_has_counted_nothing(
    width: u32,
    timeout: Option<u64>,
    liveness: Option<u64>,
)
    ensures
        ({
            let s = Axi4LiteCheckerView::fresh(width, timeout, liveness);
            let z = s.seen;
            &&& z.resp_okay == 0 && z.resp_slverr == 0 && z.resp_decerr == 0
            &&& !z.seen_addr && z.addr_lo == 0 && z.addr_hi == 0
            &&& z.strobe_seen == 0 && z.noop_writes == 0 && z.max_outstanding == 0
            &&& z.write_lat.count == 0 && z.write_lat.sum == 0
            &&& z.read_lat.count == 0 && z.read_lat.sum == 0
            &&& s.distinct == Set::<u64>::empty()
            &&& s.aw_cycles.len() == 0 && s.ar_cycles.len() == 0
        }),
{
}

} // verus!
