//! What a source and a sink on one stream keep.

use crate::axi4_stream::checker::{Axi4StreamCheckerView, Axi4StreamFault, AxiStreamMonitorPorts};
use crate::axi4_stream::sink::{self, Axi4StreamSinkView, AxiStreamReceiverPorts};
use crate::axi4_stream::source::{
    self, pending, Axi4StreamSourceView, AxiStreamTransmitterPorts, BeatView,
};
use crate::common::shown::{bit_of, goes_on, lemma_shown_channel, shown, shows};
use crate::common::stimulus::full_strobe;
use crate::common::words::extended;
use crate::value::{word_count, ValueView};
use vstd::prelude::*;

verus! {

/// One cycle of a stream, at its two ends.
pub ghost struct Link {
    pub at_source: AxiStreamTransmitterPorts,
    pub at_sink: AxiStreamReceiverPorts,
}

/// Whether the wires carry what the two ends drive.
pub open spec fn connected(src: Axi4StreamSourceView, snk: Axi4StreamSinkView, l: Link) -> bool {
    &&& l.at_source.tready@.truth() == snk.t_ready
    &&& l.at_sink.tvalid@.truth() == src.t_valid
    &&& l.at_sink.tdata@ == src.cur.data
    &&& l.at_sink.tlast@.truth() == src.cur.last
}

/// The source's side of some cycles.
pub open spec fn source_side(cycles: Seq<Link>) -> Seq<AxiStreamTransmitterPorts> {
    cycles.map_values(|l: Link| l.at_source)
}

/// The sink's side of some cycles.
pub open spec fn sink_side(cycles: Seq<Link>) -> Seq<AxiStreamReceiverPorts> {
    cycles.map_values(|l: Link| l.at_sink)
}

/// Whether the two ends stay connected over some cycles.
pub open spec fn linked(
    src: Axi4StreamSourceView,
    snk: Axi4StreamSinkView,
    cycles: Seq<Link>,
) -> bool
    decreases cycles.len(),
{
    cycles.len() == 0 || {
        &&& linked(src, snk, cycles.drop_last())
        &&& connected(
            source::run(src, source_side(cycles.drop_last())),
            sink::run(snk, sink_side(cycles.drop_last())),
            cycles.last(),
        )
    }
}

/// The data of some beats.
pub open spec fn data_of(beats: Seq<BeatView>) -> Seq<Seq<u64>> {
    beats.map_values(|b: BeatView| b.data)
}

/// Whether every beat is as wide as the stream.
pub open spec fn as_wide(beats: Seq<BeatView>, width: u32) -> bool {
    forall|i: int| 0 <= i < beats.len() ==> (#[trigger] beats[i]).data.len() == word_count(width)
}

proof fn lemma_sides(cycles: Seq<Link>)
    requires
        cycles.len() > 0,
    ensures
        source_side(cycles).drop_last() == source_side(cycles.drop_last()),
        source_side(cycles).last() == cycles.last().at_source,
        sink_side(cycles).drop_last() == sink_side(cycles.drop_last()),
        sink_side(cycles).last() == cycles.last().at_sink,
{
    assert(source_side(cycles).drop_last() =~= source_side(cycles.drop_last()));
    assert(sink_side(cycles).drop_last() =~= sink_side(cycles.drop_last()));
}

/// A stream delivers what is sent: over any run of a connected source and
/// sink, the beats that leave the source are the beats that reach the sink, in
/// the same order and with the same data.
pub proof fn lemma_stream_is_delivered(
    src: Axi4StreamSourceView,
    snk: Axi4StreamSinkView,
    cycles: Seq<Link>,
)
    requires
        src.width == snk.width,
        as_wide(pending(src), src.width),
        linked(src, snk, cycles),
    ensures
        sink::handed_over(snk, sink_side(cycles)) == data_of(
            source::handed_over(src, source_side(cycles)),
        ),
    decreases cycles.len(),
{
    if cycles.len() == 0 {
        assert(sink::handed_over(snk, sink_side(cycles)) =~= data_of(
            source::handed_over(src, source_side(cycles)),
        ));
    } else {
        lemma_sides(cycles);
        let rest = cycles.drop_last();
        lemma_stream_is_delivered(src, snk, rest);
        let s = source::run(src, source_side(rest));
        let t = sink::run(snk, sink_side(rest));
        lemma_sink_keeps_width(snk, sink_side(rest));
        source::lemma_beats_go_out_in_order(src, source_side(rest));
        let done = source::handed_over(src, source_side(rest));
        if s.fires(cycles.last().at_source) {
            let all = pending(src);
            assert(all[done.len() as int] == s.cur);
            let data = s.cur.data;
            assert(extended(data, word_count(src.width)) =~= data);
            assert(data_of(done.push(s.cur)) =~= data_of(done).push(data));
        }
    }
}

proof fn lemma_sink_keeps_width(snk: Axi4StreamSinkView, cycles: Seq<AxiStreamReceiverPorts>)
    ensures
        sink::run(snk, cycles).width == snk.width,
    decreases cycles.len(),
{
    if cycles.len() > 0 {
        lemma_sink_keeps_width(snk, cycles.drop_last());
    }
}

/// The widths of the signals of a stream.
pub ghost struct Widths {
    pub data: u32,
    pub lanes: u32,
    pub id: u32,
    pub dest: u32,
}

/// The payload that a source shows.
pub open spec fn source_payload(s: Axi4StreamSourceView, w: Widths) -> Seq<ValueView> {
    seq![
        shown(s.cur.data, w.data),
        shown(full_strobe(s.width), w.lanes),
        shown(full_strobe(s.width), w.lanes),
        shown(seq![bit_of(s.cur.last)], 1),
        shown(seq![0], w.id),
        shown(seq![0], w.dest),
    ]
}

/// A cycle of a source, as the source and a monitor see it.
pub ghost struct SourceCycle {
    pub at_source: AxiStreamTransmitterPorts,
    pub at_monitor: AxiStreamMonitorPorts,
}

/// Whether a monitor sees what a source and the other end of its stream drive.
pub open spec fn watched(s: Axi4StreamSourceView, w: Widths, k: SourceCycle) -> bool {
    shows(
        k.at_monitor.channel(),
        s.t_valid,
        k.at_source.tready@.truth(),
        source_payload(s, w),
    )
}

/// A source and a checker after some cycles without reset.
pub open spec fn run_watched(
    s: Axi4StreamSourceView,
    c: Axi4StreamCheckerView,
    cycles: Seq<SourceCycle>,
) -> (Axi4StreamSourceView, Axi4StreamCheckerView)
    decreases cycles.len(),
{
    if cycles.len() == 0 {
        (s, c)
    } else {
        let (t, d) = run_watched(s, c, cycles.drop_last());
        let k = cycles.last();
        (t.clocked(false, k.at_source), d.clocked(false, k.at_monitor))
    }
}

/// A source keeps the rules of a stream, whatever the other end does: a checker
/// without a time limit that watches it has nothing to report in any cycle.
pub proof fn lemma_source_is_legal(
    s: Axi4StreamSourceView,
    c: Axi4StreamCheckerView,
    w: Widths,
    cycles: Seq<SourceCycle>,
    i: int,
    four_state: bool,
)
    requires
        !c.ch.stalled,
        c.timeout is None,
        forall|j: int|
            0 <= j < cycles.len() ==> watched(
                run_watched(s, c, cycles.take(j)).0,
                w,
                #[trigger] cycles[j],
            ),
        0 <= i < cycles.len(),
    ensures
        run_watched(s, c, cycles.take(i)).1.faults(false, cycles[i].at_monitor, four_state)
            == Seq::<Axi4StreamFault>::empty(),
{
    lemma_checker_follows(s, c, w, cycles, i);
    let (t, d) = run_watched(s, c, cycles.take(i));
    let k = cycles[i];
    let l = k.at_monitor.channel();
    assert(watched(t, w, k));
    lemma_shown_channel(l, t.t_valid, k.at_source.tready@.truth(), source_payload(t, w));
    assert(d.faults(false, k.at_monitor, four_state) =~= Seq::<Axi4StreamFault>::empty());
}

proof fn lemma_checker_follows(
    s: Axi4StreamSourceView,
    c: Axi4StreamCheckerView,
    w: Widths,
    cycles: Seq<SourceCycle>,
    i: int,
)
    requires
        !c.ch.stalled,
        forall|j: int|
            0 <= j < cycles.len() ==> watched(
                run_watched(s, c, cycles.take(j)).0,
                w,
                #[trigger] cycles[j],
            ),
        0 <= i <= cycles.len(),
    ensures
        ({
            let (t, d) = run_watched(s, c, cycles.take(i));
            goes_on(d.ch, t.t_valid, source_payload(t, w)) && d.timeout == c.timeout
        }),
    decreases i,
{
    if i > 0 {
        lemma_checker_follows(s, c, w, cycles, i - 1);
        let (t, d) = run_watched(s, c, cycles.take(i - 1));
        let k = cycles[i - 1];
        let l = k.at_monitor.channel();
        assert(watched(t, w, k));
        assert(cycles.take(i).drop_last() =~= cycles.take(i - 1));
        lemma_shown_channel(l, t.t_valid, k.at_source.tready@.truth(), source_payload(t, w));
        if l.valid.high() && !l.ready.high() {
            source::lemma_beat_is_stable(t, k.at_source);
        }
    }
}

} // verus!
