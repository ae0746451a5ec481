//! What the handshake monitors of a bus report, over any history of cycles.

use crate::common::channel::{ChannelView, Unstable};
use crate::common::monitor::{
    high_in_reset, unknown_lines, unknown_payloads, unsteady, Chan, LaneView, LanesView, LineFault,
    MonitorView, Wire,
};
use crate::common::report::{
    lemma_times_in_ten, lemma_times_none, lemma_times_one, lemma_times_only_if,
    lemma_times_together, once, only_if, times,
};
use crate::value::ValueView;
use vstd::prelude::*;

verus! {

/// What a channel shows.
pub open spec fn lane_of(l: LanesView, c: Chan) -> LaneView {
    match c {
        Chan::Aw => l.aw,
        Chan::W => l.w,
        Chan::B => l.b,
        Chan::Ar => l.ar,
        Chan::R => l.r,
    }
}

/// What is remembered of a channel.
pub open spec fn channel_of(m: MonitorView, c: Chan) -> ChannelView {
    match c {
        Chan::Aw => m.aw,
        Chan::W => m.w,
        Chan::B => m.b,
        Chan::Ar => m.ar,
        Chan::R => m.r,
    }
}

/// Whether a channel waits: VALID is a definite one and READY is not.
pub open spec fn waits(l: LanesView, c: Chan) -> bool {
    lane_of(l, c).valid.high() && !lane_of(l, c).ready.high()
}

/// Whether nothing waits, as at the start and after a reset.
pub open spec fn at_rest(m: MonitorView) -> bool {
    forall|c: Chan| !(#[trigger] channel_of(m, c)).stalled && channel_of(m, c).stall_cycles == 0
}

/// The monitors after a history.
pub open spec fn followed(m: MonitorView, h: Seq<LanesView>) -> MonitorView
    decreases h.len(),
{
    if h.len() == 0 {
        m
    } else {
        followed(m, h.drop_last()).after(h.last())
    }
}

/// For how many cycles a channel has been waiting at the end of a history.
pub open spec fn waiting_for(h: Seq<LanesView>, c: Chan) -> nat
    decreases h.len(),
{
    if h.len() == 0 || !waits(h.last(), c) {
        0
    } else {
        waiting_for(h.drop_last(), c) + 1
    }
}

/// The longest wait of a channel in a history.
pub open spec fn longest_wait(h: Seq<LanesView>, c: Chan) -> nat
    decreases h.len(),
{
    if h.len() == 0 {
        0
    } else {
        let before = longest_wait(h.drop_last(), c);
        let run = waiting_for(h, c);
        if run > before {
            run
        } else {
            before
        }
    }
}

/// A channel that waited offers what it offered: nothing of it may change.
pub open spec fn same_offer(l: LanesView, k: LanesView, c: Chan) -> bool {
    lane_of(l, c).payload == lane_of(k, c).payload
}

/// A reset, and a start, leave every monitor at rest.
pub proof fn lemma_reset_is_rest(m: MonitorView)
    ensures
        at_rest(m.cleared()),
        at_rest(MonitorView::fresh()),
        forall|c: Chan| #[trigger]
            channel_of(m.cleared(), c).max_stall == channel_of(m, c).max_stall,
{
}

proof fn lemma_step_is_remembered(m: MonitorView, l: LanesView, c: Chan)
    requires
        channel_of(m, c).stall_cycles < u64::MAX,
    ensures
        ({
            let t = channel_of(m.after(l), c);
            &&& t.stalled == waits(l, c)
            &&& t.payload == lane_of(l, c).payload
            &&& t.stall_cycles == (if waits(l, c) {
                channel_of(m, c).stall_cycles + 1
            } else {
                0
            })
            &&& t.max_stall >= t.stall_cycles && t.max_stall >= channel_of(m, c).max_stall
            &&& t.max_stall == t.stall_cycles || t.max_stall == channel_of(m, c).max_stall
        }),
{
}

/// What is remembered of a channel is its last cycle and how long it has been
/// waiting.
pub proof fn lemma_history_is_remembered(m: MonitorView, h: Seq<LanesView>, c: Chan)
    requires
        at_rest(m),
        h.len() < u64::MAX,
    ensures
        ({
            let t = channel_of(followed(m, h), c);
            &&& t.stalled == (h.len() > 0 && waits(h.last(), c))
            &&& h.len() > 0 ==> t.payload == lane_of(h.last(), c).payload
            &&& t.stall_cycles == waiting_for(h, c) <= h.len()
            &&& t.max_stall == (if longest_wait(h, c) > channel_of(m, c).max_stall {
                longest_wait(h, c)
            } else {
                channel_of(m, c).max_stall as nat
            })
        }),
    decreases h.len(),
{
    if h.len() > 0 {
        lemma_history_is_remembered(m, h.drop_last(), c);
        lemma_step_is_remembered(followed(m, h.drop_last()), h.last(), c);
    } else {
        assert(!channel_of(m, c).stalled);
    }
}

/// During reset, exactly the VALID lines that are set are reported, each once.
pub proof fn lemma_reset_reports(l: LanesView, x: LineFault)
    ensures
        times(high_in_reset(l), x) == once(
            match x {
                LineFault::HighInReset(Wire::Valid(c)) => lane_of(l, c).valid.truth(),
                _ => false,
            },
        ),
{
    broadcast use {lemma_times_together, lemma_times_only_if};

}

/// Exactly the VALID and READY lines with an X or Z bit are reported as
/// unknown, each once.
pub proof fn lemma_unknown_line_reports(l: LanesView, x: LineFault)
    ensures
        times(unknown_lines(l), x) == once(
            match x {
                LineFault::Unknown(Wire::Valid(c)) => lane_of(l, c).valid.unknown(),
                LineFault::Unknown(Wire::Ready(c)) => lane_of(l, c).ready.unknown(),
                _ => false,
            },
        ),
{
    lemma_times_only_if(l.aw.valid.unknown(), LineFault::Unknown(Wire::Valid(Chan::Aw)), x);
    lemma_times_only_if(l.aw.ready.unknown(), LineFault::Unknown(Wire::Ready(Chan::Aw)), x);
    lemma_times_only_if(l.w.valid.unknown(), LineFault::Unknown(Wire::Valid(Chan::W)), x);
    lemma_times_only_if(l.w.ready.unknown(), LineFault::Unknown(Wire::Ready(Chan::W)), x);
    lemma_times_only_if(l.b.valid.unknown(), LineFault::Unknown(Wire::Valid(Chan::B)), x);
    lemma_times_only_if(l.b.ready.unknown(), LineFault::Unknown(Wire::Ready(Chan::B)), x);
    lemma_times_only_if(l.ar.valid.unknown(), LineFault::Unknown(Wire::Valid(Chan::Ar)), x);
    lemma_times_only_if(l.ar.ready.unknown(), LineFault::Unknown(Wire::Ready(Chan::Ar)), x);
    lemma_times_only_if(l.r.valid.unknown(), LineFault::Unknown(Wire::Valid(Chan::R)), x);
    lemma_times_only_if(l.r.ready.unknown(), LineFault::Unknown(Wire::Ready(Chan::R)), x);
    lemma_times_in_ten(
        only_if(l.aw.valid.unknown(), LineFault::Unknown(Wire::Valid(Chan::Aw))),
        only_if(l.aw.ready.unknown(), LineFault::Unknown(Wire::Ready(Chan::Aw))),
        only_if(l.w.valid.unknown(), LineFault::Unknown(Wire::Valid(Chan::W))),
        only_if(l.w.ready.unknown(), LineFault::Unknown(Wire::Ready(Chan::W))),
        only_if(l.b.valid.unknown(), LineFault::Unknown(Wire::Valid(Chan::B))),
        only_if(l.b.ready.unknown(), LineFault::Unknown(Wire::Ready(Chan::B))),
        only_if(l.ar.valid.unknown(), LineFault::Unknown(Wire::Valid(Chan::Ar))),
        only_if(l.ar.ready.unknown(), LineFault::Unknown(Wire::Ready(Chan::Ar))),
        only_if(l.r.valid.unknown(), LineFault::Unknown(Wire::Valid(Chan::R))),
        only_if(l.r.ready.unknown(), LineFault::Unknown(Wire::Ready(Chan::R))),
        x,
    );
}

/// Whether some value of a list has an X or Z bit.
pub open spec fn some_unknown(values: Seq<ValueView>) -> bool {
    exists|v: ValueView| #[trigger] values.contains(v) && v.unknown()
}

/// Exactly the channels that offer a payload with an X or Z bit are reported
/// for it, each once.
pub proof fn lemma_unknown_payload_reports(l: LanesView, x: LineFault)
    ensures
        times(unknown_payloads(l), x) == once(
            match x {
                LineFault::UnknownPayload(c) => lane_of(l, c).valid.high() && some_unknown(
                    lane_of(l, c).payload,
                ),
                _ => false,
            },
        ),
{
    broadcast use {lemma_times_together, lemma_times_only_if};

    lemma_unknown_is_some(l.aw);
    lemma_unknown_is_some(l.w);
    lemma_unknown_is_some(l.b);
    lemma_unknown_is_some(l.ar);
    lemma_unknown_is_some(l.r);
}

/// A payload is unknown where some value of it is.
pub proof fn lemma_unknown_is_some(l: LaneView)
    ensures
        l.unknown_payload() == some_unknown(l.payload),
{
    if l.unknown_payload() {
        let i = choose|i: int| 0 <= i < l.payload.len() && #[trigger] l.payload[i].unknown();
        assert(l.payload.contains(l.payload[i]));
    }
    if some_unknown(l.payload) {
        let v = choose|v: ValueView| #[trigger] l.payload.contains(v) && v.unknown();
        let i = choose|i: int| 0 <= i < l.payload.len() && l.payload[i] == v;
        assert(l.payload[i].unknown());
    }
}

proof fn lemma_times_unsteady(c: Chan, u: Option<Unstable>, x: LineFault)
    ensures
        times(unsteady(c, u), x) == once(
            u matches Some(v) && x == LineFault::Unsteady(c, v),
        ),
{
    lemma_times_none(x);
    if let Some(v) = u {
        lemma_times_one(LineFault::Unsteady(c, v), x);
    }
}

/// The stability rule over any history: exactly the channels that waited in the
/// cycle before are held to it, and each that took VALID away, or that kept it
/// and changed its payload, is reported once.
pub proof fn lemma_stability_reports(
    m: MonitorView,
    h: Seq<LanesView>,
    l: LanesView,
    x: LineFault,
)
    requires
        at_rest(m),
        h.len() < u64::MAX,
    ensures
        times(followed(m, h).violations(l), x) == once(
            match x {
                LineFault::Unsteady(c, Unstable::Deasserted) => h.len() > 0 && waits(h.last(), c)
                    && !lane_of(l, c).valid.high(),
                LineFault::Unsteady(c, Unstable::Changed) => h.len() > 0 && waits(h.last(), c)
                    && lane_of(l, c).valid.high() && !same_offer(h.last(), l, c),
                _ => false,
            },
        ),
{
    broadcast use lemma_times_together;

    let t = followed(m, h);
    lemma_history_is_remembered(m, h, Chan::Aw);
    lemma_history_is_remembered(m, h, Chan::W);
    lemma_history_is_remembered(m, h, Chan::B);
    lemma_history_is_remembered(m, h, Chan::Ar);
    lemma_history_is_remembered(m, h, Chan::R);
    lemma_times_unsteady(Chan::Aw, t.aw.violation(l.aw.valid.high(), l.aw.payload), x);
    lemma_times_unsteady(Chan::W, t.w.violation(l.w.valid.high(), l.w.payload), x);
    lemma_times_unsteady(Chan::B, t.b.violation(l.b.valid.high(), l.b.payload), x);
    lemma_times_unsteady(Chan::Ar, t.ar.violation(l.ar.valid.high(), l.ar.payload), x);
    lemma_times_unsteady(Chan::R, t.r.violation(l.r.valid.high(), l.r.payload), x);
}

/// The time limit over any history: a channel is reported in exactly the cycle
/// that makes its wait one longer than the limit, so once in a wait.
pub proof fn lemma_timeout_reports(
    m: MonitorView,
    h: Seq<LanesView>,
    timeout: Option<u64>,
    x: LineFault,
)
    requires
        at_rest(m),
        h.len() < u64::MAX,
    ensures
        times(followed(m, h).timeouts(timeout), x) == once(
            match x {
                LineFault::Timeout(c, limit) => timeout == Some(limit) && waiting_for(h, c) == limit
                    + 1,
                _ => false,
            },
        ),
{
    broadcast use {lemma_times_together, lemma_times_only_if};

    lemma_history_is_remembered(m, h, Chan::Aw);
    lemma_history_is_remembered(m, h, Chan::W);
    lemma_history_is_remembered(m, h, Chan::B);
    lemma_history_is_remembered(m, h, Chan::Ar);
    lemma_history_is_remembered(m, h, Chan::R);
    lemma_times_none(x);
}

/// The longest stall is that of some channel and no channel stalled longer.
pub proof fn lemma_max_stall_is_the_longest(m: MonitorView)
    ensures
        forall|c: Chan| (#[trigger] channel_of(m, c)).max_stall <= m.max_stall(),
        exists|c: Chan| (#[trigger] channel_of(m, c)).max_stall == m.max_stall(),
{
    assert(channel_of(m, Chan::Aw).max_stall == m.max_stall() || channel_of(m, Chan::W).max_stall
        == m.max_stall() || channel_of(m, Chan::B).max_stall == m.max_stall() || channel_of(
        m,
        Chan::Ar,
    ).max_stall == m.max_stall() || channel_of(m, Chan::R).max_stall == m.max_stall());
}

} // verus!
