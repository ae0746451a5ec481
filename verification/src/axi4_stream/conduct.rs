//! What a stream source presents and what a stream sink makes of it, cycle by cycle.

use crate::axi4_stream::checker::{Axi4StreamCheckerView, AxiStreamMonitorPorts};
use crate::axi4_stream::sink::{self, Axi4StreamSinkView, AxiStreamReceiverPorts};
use crate::axi4_stream::source::{
    self, send_answer, Axi4StreamSourceView, AxiStreamTransmitterPorts, BeatView,
};
use crate::common::random::{lemma_stall_extremes, xorshift, xorshift_nth};
use crate::common::signals::{bus_word, lemma_data_is_drawn, lemma_full_strobe_has_every_lane};
use crate::common::storage::{bus_words, byte_lanes, lane_active};
use crate::common::words::{arg_result, ArgError};
use crate::value::Value;
use vstd::prelude::*;

verus! {

/// Whether a cycle is drawn to be skipped.
pub open spec fn skips(lfsr: u64, weight: Option<u64>) -> bool {
    match weight {
        Some(w) => xorshift(lfsr) % 256 < w,
        None => false,
    }
}

/// The generator's state after a cycle.
pub open spec fn advances(lfsr: u64, weight: Option<u64>) -> u64 {
    match weight {
        Some(_) => xorshift(lfsr),
        None => lfsr,
    }
}

/// The data that a sink sees, as wide as the stream.
pub open spec fn shown_data(s: Axi4StreamSinkView, p: AxiStreamReceiverPorts) -> Seq<u64> {
    Seq::new(
        bus_words(s.width),
        |i: int|
            if i < p.tdata@.len() {
                p.tdata@[i]
            } else {
                0
            },
    )
}

/// What a source does in a cycle. A beat that is presented stays until it is taken.
/// Where none is left and the cycle is not skipped, the oldest that waits is
/// presented. In reset everything that waits is dropped.
pub proof fn lemma_source_presents(
    s: Axi4StreamSourceView,
    rst: bool,
    p: AxiStreamTransmitterPorts,
)
    ensures
        ({
            let t = s.clocked(rst, p);
            let held = s.t_valid && !p.tready@.truth();
            let next = !rst && !held && !skips(s.lfsr, s.stall) && s.beats.len() > 0;
            &&& t.t_valid == (!rst && (held || next))
            &&& t.cur == (if next {
                s.beats[0]
            } else {
                s.cur
            })
            &&& t.beats == (if rst {
                Seq::<BeatView>::empty()
            } else if next {
                s.beats.drop_first()
            } else {
                s.beats
            })
            &&& t.lfsr == (if rst {
                s.lfsr
            } else {
                advances(s.lfsr, s.stall)
            })
            &&& t.traffic_lfsr == s.traffic_lfsr && t.width == s.width && t.stall == s.stall
        }),
{
    if let Some(w) = s.stall {
        lemma_stall_extremes(s.lfsr, w);
    }
}

/// The ports show the beat presented, with every lane kept and strobed and no other,
/// and with no ID, destination or user bits. TREADY stays.
pub proof fn lemma_source_ports_show_beat(
    s: Axi4StreamSourceView,
    before: AxiStreamTransmitterPorts,
    after: AxiStreamTransmitterPorts,
    i: int,
)
    requires
        source::drives(s, before, after),
        0 <= i,
    ensures
        after.tvalid == s.t_valid && after.tdata@ == s.cur.data && after.tlast == s.cur.last,
        lane_active(after.tkeep@, i) <==> i < byte_lanes(s.width),
        lane_active(after.tstrb@, i) <==> i < byte_lanes(s.width),
        after.tid == 0 && after.tdest == 0 && after.tuser == 0,
        after.tready == before.tready,
{
    lemma_full_strobe_has_every_lane(s.width, i);
}

/// A beat that is queued goes behind those that wait, and nothing else changes.
pub proof fn lemma_sending_is_local(s: Axi4StreamSourceView, data: Seq<u64>, last: bool)
    ensures
        ({
            let t = s.sending(data, last);
            &&& t.beats.drop_last() == s.beats
            &&& t.beats.last().data == data && t.beats.last().last == last
            &&& t.t_valid == s.t_valid && t.cur == s.cur && t.lfsr == s.lfsr
            &&& t.traffic_lfsr == s.traffic_lfsr && t.width == s.width
        }),
{
    assert(s.sending(data, last).beats.drop_last() =~= s.beats);
}

/// A made-up beat has one draw for each word of the stream, from where the beat before
/// it left off. Every `len`-th ends a packet, and so does the last of all.
pub proof fn lemma_beats_are_drawn(
    s: Axi4StreamSourceView,
    n: nat,
    count: u64,
    len: u64,
    i: int,
    k: int,
)
    requires
        len > 0,
        0 <= i < n,
        0 <= k < bus_words(s.width),
    ensures
        ({
            let t = s.random_beats(n, count, len);
            let b = t.beats[s.beats.len() + i];
            let start = (i * bus_words(s.width)) as nat;
            &&& t.beats.len() == s.beats.len() + n
            &&& t.beats.take(s.beats.len() as int) == s.beats
            &&& b.data.len() == bus_words(s.width)
            &&& b.data[k] == bus_word(
                xorshift_nth(s.traffic_lfsr, start + (k + 1) as nat),
                k,
                s.width,
            )
            &&& b.last <==> (i + 1) % (len as int) == 0 || i + 1 == count
            &&& t.traffic_lfsr == xorshift_nth(s.traffic_lfsr, n * bus_words(s.width))
            &&& t.t_valid == s.t_valid && t.cur == s.cur && t.width == s.width
        }),
    decreases n,
{
    let m = (n - 1) as nat;
    let w = bus_words(s.width);
    let u = s.random_beats(m, count, len);
    let t = s.random_beats(n, count, len);
    lemma_beats_so_far(s, m, count, len);
    lemma_beats_so_far(s, n, count, len);
    lemma_data_is_drawn(u.traffic_lfsr, s.width, k);
    crate::common::random::lemma_rand_steps_add_up(s.traffic_lfsr, m * w, (k + 1) as nat);
    if i < m {
        lemma_beats_are_drawn(s, m, count, len, i, k);
        assert(t.beats[s.beats.len() + i] == u.beats[s.beats.len() + i]);
    }
}

proof fn lemma_beats_so_far(s: Axi4StreamSourceView, n: nat, count: u64, len: u64)
    ensures
        ({
            let t = s.random_beats(n, count, len);
            &&& t.beats.len() == s.beats.len() + n
            &&& t.beats.take(s.beats.len() as int) == s.beats
            &&& t.traffic_lfsr == xorshift_nth(s.traffic_lfsr, n * bus_words(s.width))
            &&& t.t_valid == s.t_valid && t.cur == s.cur && t.width == s.width
        }),
    decreases n,
{
    let t = s.random_beats(n, count, len);
    let w = bus_words(s.width);
    if n == 0 {
        assert(s.beats.take(s.beats.len() as int) =~= s.beats);
        assert(0 * w == 0);
    } else {
        let m = (n - 1) as nat;
        let u = s.random_beats(m, count, len);
        lemma_beats_so_far(s, m, count, len);
        lemma_data_is_drawn(u.traffic_lfsr, s.width, 0);
        crate::common::random::lemma_rand_steps_add_up(s.traffic_lfsr, m * w, w);
        assert(m * w + w == n * w) by (nonlinear_arith)
            requires
                n == m + 1,
        ;
        assert(t.beats.take(s.beats.len() as int) =~= u.beats.take(s.beats.len() as int));
    }
}

/// A source starts with nothing to send and nothing presented, and is idle exactly
/// where nothing waits and nothing is presented.
pub proof fn lemma_source_starts_idle(
    s: Axi4StreamSourceView,
    width: u32,
    stall: Option<u64>,
    seed: u64,
)
    ensures
        ({
            let t = Axi4StreamSourceView::fresh(width, stall, seed);
            &&& t.beats.len() == 0 && !t.t_valid && t.width == width && t.stall == stall
            &&& t.cur.data == Seq::new(bus_words(width), |i: int| 0u64) && !t.cur.last
        }),
        s.idle() <==> s.beats.len() == 0 && !s.t_valid,
{
    let t = Axi4StreamSourceView::fresh(width, stall, seed);
    assert(t.cur.data =~= Seq::new(bus_words(width), |i: int| 0u64));
}

/// What a sink does in a cycle. A beat handed over is counted, and with TLAST so is a
/// packet; it answers the oldest expectation where there is one, and is kept where
/// there is none. TREADY is offered but for a cycle that is skipped. In reset what is
/// kept and expected is dropped.
pub proof fn lemma_sink_captures(s: Axi4StreamSinkView, rst: bool, p: AxiStreamReceiverPorts)
    requires
        s.can_clock(rst, p),
    ensures
        ({
            let t = s.clocked(rst, p);
            let takes = !rst && s.t_ready && p.tvalid@.truth();
            &&& t.beats == s.beats + (if takes {
                1int
            } else {
                0
            })
            &&& t.packets == s.packets + (if takes && p.tlast@.truth() {
                1int
            } else {
                0
            })
            &&& t.expect == (if rst {
                Seq::<Seq<u64>>::empty()
            } else if takes && s.expect.len() > 0 {
                s.expect.drop_first()
            } else {
                s.expect
            })
            &&& t.received == (if rst {
                Seq::<Seq<u64>>::empty()
            } else if takes && s.expect.len() == 0 {
                s.received.push(shown_data(s, p))
            } else {
                s.received
            })
            &&& t.t_ready == (!rst && !skips(s.lfsr, s.stall))
            &&& t.lfsr == (if rst {
                s.lfsr
            } else {
                advances(s.lfsr, s.stall)
            })
            &&& t.width == s.width && t.stall == s.stall
        }),
{
    if let Some(w) = s.stall {
        lemma_stall_extremes(s.lfsr, w);
    }
    assert(s.data(p) =~= shown_data(s, p));
}

/// A sink reports a beat exactly where it is handed over and is not the one expected
/// next, by its number counted from one, with what was expected and what came.
pub proof fn lemma_sink_reports(s: Axi4StreamSinkView, rst: bool, p: AxiStreamReceiverPorts)
    requires
        s.can_clock(rst, p),
    ensures
        ({
            let got = shown_data(s, p);
            let wrong = !rst && s.t_ready && p.tvalid@.truth() && s.expect.len() > 0
                && s.expect[0] != got;
            match s.mismatch(rst, p) {
                Some(m) => wrong && m.beat == s.beats + 1 && m.want == s.expect[0] && m.got == got,
                None => !wrong,
            }
        }),
{
    assert(s.data(p) =~= shown_data(s, p));
}

/// A sink drives TREADY alone, starts ready with nothing kept, expected or counted.
pub proof fn lemma_sink_starts_ready(
    s: Axi4StreamSinkView,
    before: AxiStreamReceiverPorts,
    after: AxiStreamReceiverPorts,
    width: u32,
    stall: Option<u64>,
    seed: u64,
)
    requires
        sink::drives(s, before, after),
    ensures
        after.tready == s.t_ready && after.tvalid == before.tvalid && after.tdata == before.tdata
            && after.tlast == before.tlast,
        ({
            let t = Axi4StreamSinkView::fresh(width, stall, seed);
            &&& t.t_ready && t.received.len() == 0 && t.expect.len() == 0
            &&& t.beats == 0 && t.packets == 0 && t.width == width && t.stall == stall
        }),
{
}

/// A sink takes every cycle while its beats and packets can be counted, and no other
/// that it would count.
pub proof fn lemma_sink_takes_cycles(s: Axi4StreamSinkView, rst: bool, p: AxiStreamReceiverPorts)
    ensures
        s.can_clock(rst, p) <==> rst || !s.t_ready || !p.tvalid@.truth() || s.beats < u64::MAX && (
        p.tlast@.truth() ==> s.packets < u64::MAX),
{
}

/// A stream checker takes every cycle while its beats, packets and stalls can be
/// counted.
pub proof fn lemma_checker_takes_cycles(
    c: Axi4StreamCheckerView,
    rst: bool,
    p: AxiStreamMonitorPorts,
)
    ensures
        c.beats < u64::MAX && c.packets < u64::MAX && c.ch.stall_cycles < u64::MAX ==> c.can_clock(
            rst,
            p,
        ),
        c.can_clock(true, p),
{
}

/// A beat is taken where its data is, and is then queued last; else nothing changes.
pub proof fn lemma_beat_is_queued(
    r: Result<(), ArgError>,
    before: Axi4StreamSourceView,
    after: Axi4StreamSourceView,
    data: &Value,
    last: bool,
)
    requires
        send_answer(r, before, after, data, last),
    ensures
        r is Ok <==> arg_result(data@, before.width) is Ok,
        r is Err ==> after == before,
        r is Ok ==> {
            &&& after.beats.drop_last() == before.beats
            &&& after.beats.last().data == arg_result(data@, before.width)->Ok_0
            &&& after.beats.last().last == last
            &&& after.t_valid == before.t_valid && after.cur == before.cur
        },
{
    if r is Ok {
        lemma_sending_is_local(before, arg_result(data@, before.width)->Ok_0, last);
    }
}

} // verus!
