//! What the stream checker reports and counts, over any history of cycles.

use crate::axi4_stream::checker::{
    run, Axi4StreamCheckerView, Axi4StreamFault, AxiStreamMonitorPorts,
};
use crate::common::channel::Unstable;
use crate::common::report::{
    lemma_times_none, lemma_times_one, lemma_times_only_if, lemma_times_together, once, only_if,
    times,
};
use crate::common::words::{lemma_fold_covers_lanes, lemma_or_has_bits_of_both, or_all, words_of};
use crate::value::ValueView;
use vstd::prelude::*;

verus! {

/// Whether a cycle shows a beat that is not taken: TVALID is a definite one and
/// TREADY is not.
pub open spec fn waits(p: AxiStreamMonitorPorts) -> bool {
    p.tvalid@.high() && !p.tready@.high()
}

/// Whether a beat is taken: TVALID and TREADY are both definite ones.
pub open spec fn taken(p: AxiStreamMonitorPorts) -> bool {
    p.tvalid@.high() && p.tready@.high()
}

/// Whether two cycles show the same beat, TUSER aside.
pub open spec fn same_beat(p: AxiStreamMonitorPorts, q: AxiStreamMonitorPorts) -> bool {
    &&& p.tdata@ == q.tdata@
    &&& p.tstrb@ == q.tstrb@
    &&& p.tkeep@ == q.tkeep@
    &&& p.tlast@ == q.tlast@
    &&& p.tid@ == q.tid@
    &&& p.tdest@ == q.tdest@
}

/// For how many cycles a beat has been waiting at the end of a history.
pub open spec fn waiting_for(h: Seq<AxiStreamMonitorPorts>) -> nat
    decreases h.len(),
{
    if h.len() == 0 || !waits(h.last()) {
        0
    } else {
        waiting_for(h.drop_last()) + 1
    }
}

/// The longest wait in a history.
pub open spec fn longest_wait(h: Seq<AxiStreamMonitorPorts>) -> nat
    decreases h.len(),
{
    if h.len() == 0 {
        0
    } else if waiting_for(h) > longest_wait(h.drop_last()) {
        waiting_for(h)
    } else {
        longest_wait(h.drop_last())
    }
}

/// Whether no beat waits, as at the start and after a reset.
pub open spec fn at_rest(s: Axi4StreamCheckerView) -> bool {
    !s.ch.stalled && s.ch.stall_cycles == 0
}

/// A checker starts at rest, and a reset brings it there and keeps what was
/// counted.
pub proof fn lemma_reset_is_rest(
    s: Axi4StreamCheckerView,
    p: AxiStreamMonitorPorts,
    timeout: Option<u64>,
)
    ensures
        at_rest(Axi4StreamCheckerView::fresh(timeout)),
        Axi4StreamCheckerView::fresh(timeout).timeout == timeout,
        ({
            let t = s.clocked(true, p);
            &&& at_rest(t)
            &&& t.timeout == s.timeout
            &&& t.beats == s.beats && t.packets == s.packets
            &&& t.keep_seen == s.keep_seen && t.strb_seen == s.strb_seen
            &&& t.ch.max_stall == s.ch.max_stall
        }),
{
}

proof fn lemma_history_is_remembered(s: Axi4StreamCheckerView, h: Seq<AxiStreamMonitorPorts>)
    requires
        at_rest(s),
        h.len() < u64::MAX,
    ensures
        ({
            let t = run(s, h);
            &&& t.timeout == s.timeout
            &&& t.ch.stalled == (h.len() > 0 && waits(h.last()))
            &&& h.len() > 0 ==> t.ch.payload == h.last().channel().payload
            &&& t.ch.stall_cycles == waiting_for(h) <= h.len()
            &&& t.ch.max_stall == (if longest_wait(h) > s.ch.max_stall {
                longest_wait(h)
            } else {
                s.ch.max_stall as nat
            })
        }),
    decreases h.len(),
{
    if h.len() > 0 {
        lemma_history_is_remembered(s, h.drop_last());
    }
}

proof fn lemma_payload(p: AxiStreamMonitorPorts, q: AxiStreamMonitorPorts)
    ensures
        p.channel().valid == p.tvalid@,
        p.channel().ready == p.tready@,
        (p.channel().payload == q.channel().payload) == same_beat(p, q),
        p.channel().unknown_payload() == (p.tdata@.unknown() || p.tstrb@.unknown()
            || p.tkeep@.unknown() || p.tlast@.unknown() || p.tid@.unknown() || p.tdest@.unknown()),
{
    let a = p.channel().payload;
    let b = q.channel().payload;
    assert(a[0] == p.tdata@ && a[1] == p.tstrb@ && a[2] == p.tkeep@ && a[3] == p.tlast@ && a[4]
        == p.tid@ && a[5] == p.tdest@);
    assert(b[0] == q.tdata@ && b[1] == q.tstrb@ && b[2] == q.tkeep@ && b[3] == q.tlast@ && b[4]
        == q.tid@ && b[5] == q.tdest@);
    if same_beat(p, q) {
        assert(a =~= b);
    }
}

/// During reset, TVALID that is set is reported once, and nothing else is.
pub proof fn lemma_reset_reports(
    s: Axi4StreamCheckerView,
    p: AxiStreamMonitorPorts,
    four_state: bool,
    x: Axi4StreamFault,
)
    ensures
        times(s.faults(true, p, four_state), x) == once(
            x == Axi4StreamFault::HighInReset && p.tvalid@.truth(),
        ),
{
    broadcast use lemma_times_only_if;

}

/// Everything the checker reports, and nothing else: after any history without
/// reset, a cycle is reported for an unknown payload exactly where TVALID is
/// high and some part of the beat has an X or Z bit, for an unknown line exactly
/// where TVALID or TREADY has one, both in a four-state run only; for
/// instability exactly where the beat waited in the cycle before and is now
/// withdrawn or another one; and for the time limit in exactly the cycle that
/// makes the wait one longer than the limit. Each fault is reported once.
pub proof fn lemma_reports_are_due(
    s: Axi4StreamCheckerView,
    h: Seq<AxiStreamMonitorPorts>,
    p: AxiStreamMonitorPorts,
    four_state: bool,
    x: Axi4StreamFault,
)
    requires
        at_rest(s),
        h.len() + 1 < u64::MAX,
    ensures
        times(run(s, h).faults(false, p, four_state), x) == once(
            match x {
                Axi4StreamFault::HighInReset => false,
                Axi4StreamFault::UnknownPayload => four_state && p.tvalid@.high() && (
                p.tdata@.unknown() || p.tstrb@.unknown() || p.tkeep@.unknown()
                    || p.tlast@.unknown() || p.tid@.unknown() || p.tdest@.unknown()),
                Axi4StreamFault::UnknownLine => four_state && (p.tvalid@.unknown()
                    || p.tready@.unknown()),
                Axi4StreamFault::Stability(Unstable::Deasserted) => h.len() > 0 && waits(h.last())
                    && !p.tvalid@.high(),
                Axi4StreamFault::Stability(Unstable::Changed) => h.len() > 0 && waits(h.last())
                    && p.tvalid@.high() && !same_beat(h.last(), p),
                Axi4StreamFault::Timeout(limit) => s.timeout == Some(limit) && waiting_for(
                    h.push(p),
                ) == limit + 1,
            },
        ),
{
    let t = run(s, h);
    let all = h.push(p);
    let l = p.channel();
    assert(all.drop_last() =~= h);
    lemma_history_is_remembered(s, h);
    lemma_history_is_remembered(s, all);
    lemma_payload(p, p);
    if h.len() > 0 {
        lemma_payload(h.last(), p);
    }
    let a = only_if(
        four_state && l.valid.high() && l.unknown_payload(),
        Axi4StreamFault::UnknownPayload,
    );
    let b = only_if(
        four_state && (l.valid.unknown() || l.ready.unknown()),
        Axi4StreamFault::UnknownLine,
    );
    lemma_times_only_if(
        four_state && l.valid.high() && l.unknown_payload(),
        Axi4StreamFault::UnknownPayload,
        x,
    );
    lemma_times_only_if(
        four_state && (l.valid.unknown() || l.ready.unknown()),
        Axi4StreamFault::UnknownLine,
        x,
    );
    lemma_times_none(x);
    if let Some(u) = t.ch.violation(l.valid.high(), l.payload) {
        lemma_times_one(Axi4StreamFault::Stability(u), x);
    }
    if let Some(limit) = t.timeout {
        lemma_times_only_if(
            t.ch_after(l).stall_cycles == crate::common::counting::past(limit),
            Axi4StreamFault::Timeout(limit),
            x,
        );
    }
    lemma_times_together(a, b, x);
    lemma_times_together(a + b, t.unstable(l), x);
    lemma_times_together(a + b + t.unstable(l), t.late(l), x);
}

/// What the checker counts: a taken beat is one beat more, and one packet more
/// where TLAST is high; any other cycle counts nothing.
pub proof fn lemma_counts_are_due(s: Axi4StreamCheckerView, p: AxiStreamMonitorPorts)
    requires
        s.beats < u64::MAX,
        s.packets < u64::MAX,
    ensures
        s.clocked(false, p).beats == s.beats + once(taken(p)),
        s.clocked(false, p).packets == s.packets + once(taken(p) && p.tlast@.high()),
        !taken(p) ==> s.clocked(false, p).keep_seen == s.keep_seen && s.clocked(
            false,
            p,
        ).strb_seen == s.strb_seen,
{
}

/// Whether some word of a value has bit `b` set.
pub open spec fn has_bit(v: ValueView, b: u64) -> bool {
    v matches ValueView::Bits { words, .. } && exists|i: int|
        0 <= i < words.len() && (#[trigger] words[i] >> b) & 1 != 0
}

/// A lane counts as seen exactly where it was seen before or is active in a beat
/// that is taken.
pub proof fn lemma_lanes_are_seen(s: Axi4StreamCheckerView, p: AxiStreamMonitorPorts, b: u64)
    requires
        b < 64,
    ensures
        ((s.clocked(false, p).keep_seen >> b) & 1 != 0) == ((s.keep_seen >> b) & 1 != 0 || taken(p)
            && has_bit(p.tkeep@, b)),
        ((s.clocked(false, p).strb_seen >> b) & 1 != 0) == ((s.strb_seen >> b) & 1 != 0 || taken(p)
            && has_bit(p.tstrb@, b)),
{
    let (k, x) = (s.keep_seen, or_all(words_of(p.tkeep@)));
    let (t, y) = (s.strb_seen, or_all(words_of(p.tstrb@)));
    lemma_fold_covers_lanes(words_of(p.tkeep@), b);
    lemma_fold_covers_lanes(words_of(p.tstrb@), b);
    lemma_or_has_bits_of_both(k, x, b);
    lemma_or_has_bits_of_both(t, y, b);
}

/// The longest wait of a run is what is reported as the longest stall.
pub proof fn lemma_longest_stall_is_kept(s: Axi4StreamCheckerView, h: Seq<AxiStreamMonitorPorts>)
    requires
        at_rest(s),
        h.len() < u64::MAX,
    ensures
        longest_wait(h) <= run(s, h).ch.max_stall,
        s.ch.max_stall <= run(s, h).ch.max_stall,
        run(s, h).ch.max_stall == longest_wait(h) || run(s, h).ch.max_stall == s.ch.max_stall,
{
    lemma_history_is_remembered(s, h);
}

} // verus!
