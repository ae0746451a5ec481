//! Golden AXI4-Stream sink (receiver).

use crate::collections::Fifo;
use crate::common::counting::{bump, bumped};
use crate::common::random::{after_stall, seed_lfsr, seeded, stall_now, stalls};
use crate::common::stimulus::sized;
use crate::common::words::{
    answers, arg_result, arg_words, data_value, data_view, extended, is_set, ArgError,
};
use crate::text::{dec, hex_list, push_dec, push_hex_list};
use crate::value::{same_words, word_count, Value};
use vstd::prelude::*;
use vstd::string::*;

verus! {

/// The signals of a stream in one cycle, as a sink drives and sees them.
pub struct AxiStreamReceiverPorts {
    pub tvalid: Value,
    pub tready: bool,
    pub tdata: Vec<u64>,
    pub tlast: Value,
}

/// A received beat that is not the one expected.
pub struct StreamMismatch {
    /// The number of the beat, counted from one.
    pub beat: u64,
    pub want: Vec<u64>,
    pub got: Vec<u64>,
}

/// What a [`StreamMismatch`] says.
#[verifier::ext_equal]
pub ghost struct StreamMismatchView {
    pub beat: u64,
    pub want: Seq<u64>,
    pub got: Seq<u64>,
}

impl View for StreamMismatch {
    type V = StreamMismatchView;

    open spec fn view(&self) -> StreamMismatchView {
        StreamMismatchView { beat: self.beat, want: self.want@, got: self.got@ }
    }
}

impl StreamMismatchView {
    /// The mismatch in words.
    pub open spec fn text(self) -> Seq<char> {
        "stream beat "@ + dec(self.beat) + ": expected "@ + hex_list(self.want) + ", got "@
            + hex_list(self.got)
    }
}

impl StreamMismatch {
    /// The mismatch in words.
    pub fn message(&self) -> (r: String)
        ensures
            r@ == self@.text(),
    {
        let mut r = String::new();
        r.append("stream beat ");
        push_dec(&mut r, self.beat);
        r.append(": expected ");
        push_hex_list(&mut r, &self.want);
        r.append(", got ");
        push_hex_list(&mut r, &self.got);
        assert(r@ =~= self@.text());
        r
    }
}

/// The refusal to hand out a beat where none was received.
#[derive(Clone, Copy, Debug, PartialEq, Eq, Structural)]
pub struct NoBeat;

impl NoBeat {
    /// The refusal in words.
    pub fn message(&self) -> (r: &'static str)
        ensures
            r@ == "no beat received"@,
    {
        "no beat received"
    }
}

/// What an [`Axi4StreamSink`] holds.
#[verifier::ext_equal]
pub ghost struct Axi4StreamSinkView {
    /// The data width of the stream.
    pub width: u32,
    /// The weight out of 256 of a cycle without `TREADY`.
    pub stall: Option<u64>,
    /// The received beats that were not expected, oldest first.
    pub received: Seq<Seq<u64>>,
    /// The beats expected next.
    pub expect: Seq<Seq<u64>>,
    pub lfsr: u64,
    /// The beats accepted so far.
    pub beats: u64,
    /// The packets accepted so far.
    pub packets: u64,
    pub t_ready: bool,
}

impl Axi4StreamSinkView {
    /// A sink that has received nothing.
    pub open spec fn fresh(width: u32, stall: Option<u64>, seed: u64) -> Self {
        Axi4StreamSinkView {
            width,
            stall,
            received: seq![],
            expect: seq![],
            lfsr: seeded(seed),
            beats: 0,
            packets: 0,
            t_ready: true,
        }
    }

    /// Whether a beat is handed over.
    pub open spec fn fires(self, p: AxiStreamReceiverPorts) -> bool {
        self.t_ready && p.tvalid@.truth()
    }

    /// The data on the bus.
    pub open spec fn data(self, p: AxiStreamReceiverPorts) -> Seq<u64> {
        extended(p.tdata@, word_count(self.width))
    }

    /// After a beat, or none. A beat answers the oldest expectation, if there
    /// is one; else it is kept.
    pub open spec fn captured(self, p: AxiStreamReceiverPorts) -> Self {
        if !self.fires(p) {
            self
        } else {
            Axi4StreamSinkView {
                beats: (self.beats + 1) as u64,
                packets: bumped(self.packets, p.tlast@.truth()),
                expect: if self.expect.len() > 0 {
                    self.expect.drop_first()
                } else {
                    self.expect
                },
                received: if self.expect.len() > 0 {
                    self.received
                } else {
                    self.received.push(self.data(p))
                },
                ..self
            }
        }
    }

    /// After a cycle.
    pub open spec fn clocked(self, rst: bool, p: AxiStreamReceiverPorts) -> Self {
        if rst {
            Axi4StreamSinkView { received: seq![], expect: seq![], t_ready: false, ..self }
        } else {
            Axi4StreamSinkView {
                lfsr: after_stall(self.lfsr, self.stall),
                t_ready: !stalls(self.lfsr, self.stall),
                ..self.captured(p)
            }
        }
    }

    /// What a cycle reports.
    pub open spec fn mismatch(self, rst: bool, p: AxiStreamReceiverPorts) -> Option<
        StreamMismatchView,
    > {
        if !rst && self.fires(p) && self.expect.len() > 0 && self.expect[0] != self.data(p) {
            Some(
                StreamMismatchView {
                    beat: (self.beats + 1) as u64,
                    want: self.expect[0],
                    got: self.data(p),
                },
            )
        } else {
            None
        }
    }

    /// Whether the beats of a cycle can be counted in 64 bits.
    pub open spec fn can_clock(self, rst: bool, p: AxiStreamReceiverPorts) -> bool {
        !rst && self.fires(p) ==> {
            &&& self.beats < u64::MAX
            &&& p.tlast@.truth() ==> self.packets < u64::MAX
        }
    }
}

/// Whether `after` is `before` with the output of a sink in state `s`.
pub open spec fn drives(
    s: Axi4StreamSinkView,
    before: AxiStreamReceiverPorts,
    after: AxiStreamReceiverPorts,
) -> bool {
    &&& after.tready == s.t_ready
    &&& after.tvalid == before.tvalid
    &&& after.tdata == before.tdata
    &&& after.tlast == before.tlast
}

/// Golden AXI4-Stream sink. It drives `TREADY`, with random backpressure if
/// asked for, and captures the beats handed over: [`Axi4StreamSink::recv`]
/// takes them out, and [`Axi4StreamSink::expect`] has them checked.
pub struct Axi4StreamSink {
    width: u32,
    stall: Option<u64>,
    received: Fifo<Vec<u64>>,
    expect: Fifo<Vec<u64>>,
    lfsr: u64,
    beats: u64,
    packets: u64,
    t_ready: bool,
}

impl View for Axi4StreamSink {
    type V = Axi4StreamSinkView;

    closed spec fn view(&self) -> Axi4StreamSinkView {
        Axi4StreamSinkView {
            width: self.width,
            stall: self.stall,
            received: self.received@,
            expect: self.expect@,
            lfsr: self.lfsr,
            beats: self.beats,
            packets: self.packets,
            t_ready: self.t_ready,
        }
    }
}

impl Axi4StreamSink {
    /// A sink of a stream of this data width.
    pub fn on_build(width: u32, stall: Option<u64>, seed: u64) -> (r: Axi4StreamSink)
        ensures
            r@ == Axi4StreamSinkView::fresh(width, stall, seed),
    {
        Axi4StreamSink {
            width,
            stall,
            received: Fifo::new(),
            expect: Fifo::new(),
            lfsr: seed_lfsr(seed),
            beats: 0,
            packets: 0,
            t_ready: true,
        }
    }

    /// Whether the beats of a cycle can be counted in 64 bits.
    pub fn in_range(&self, rst: &Value, axi: &AxiStreamReceiverPorts) -> (r: bool)
        ensures
            r == self@.can_clock(rst@.truth(), *axi),
    {
        if is_set(rst) || !self.t_ready || !is_set(&axi.tvalid) {
            true
        } else {
            self.beats < u64::MAX && (!is_set(&axi.tlast) || self.packets < u64::MAX)
        }
    }

    fn capture(&mut self, axi: &AxiStreamReceiverPorts) -> (r: Option<StreamMismatch>)
        requires
            old(self)@.fires(*axi),
            old(self)@.can_clock(false, *axi),
        ensures
            final(self)@ == old(self)@.captured(*axi),
            match r {
                Some(m) => old(self)@.mismatch(false, *axi) == Some(m@),
                None => old(self)@.mismatch(false, *axi) is None,
            },
    {
        let data: Vec<u64> = sized(&axi.tdata, self.width);
        self.beats = self.beats + 1;
        self.packets = bump(self.packets, is_set(&axi.tlast));
        let r = match self.expect.pop_front() {
            Some(want) => {
                if same_words(&want, &data) {
                    None
                } else {
                    Some(StreamMismatch { beat: self.beats, want, got: data })
                }
            },
            None => {
                self.received.push_back(data);
                None
            },
        };
        assert(self@ =~= old(self)@.captured(*axi));
        r
    }

    /// Moves the sink on by a cycle and drives `TREADY`; the result is the
    /// mismatch that the cycle shows.
    pub fn on_clock(&mut self, rst: &Value, axi: &mut AxiStreamReceiverPorts) -> (r: Option<
        StreamMismatch,
    >)
        requires
            old(self)@.can_clock(rst@.truth(), *old(axi)),
        ensures
            final(self)@ == old(self)@.clocked(rst@.truth(), *old(axi)),
            match r {
                Some(m) => old(self)@.mismatch(rst@.truth(), *old(axi)) == Some(m@),
                None => old(self)@.mismatch(rst@.truth(), *old(axi)) is None,
            },
            drives(final(self)@, *old(axi), *final(axi)),
    {
        if is_set(rst) {
            self.received.clear();
            self.expect.clear();
            self.t_ready = false;
            axi.tready = false;
            return None;
        }
        let r = if self.t_ready && is_set(&axi.tvalid) {
            self.capture(axi)
        } else {
            None
        };
        self.t_ready = !stall_now(&mut self.lfsr, self.stall);
        axi.tready = self.t_ready;
        r
    }

    /// Takes the oldest received beat out, at full bus width.
    pub fn recv(&mut self) -> (r: Result<Value, NoBeat>)
        ensures
            match r {
                Ok(v) => old(self)@.received.len() > 0 && v@ == data_view(
                    old(self)@.received[0],
                    old(self)@.width,
                ) && final(self)@ == (Axi4StreamSinkView {
                    received: old(self)@.received.drop_first(),
                    ..old(self)@
                }),
                Err(_) => old(self)@.received.len() == 0 && final(self)@ == old(self)@,
            },
    {
        match self.received.pop_front() {
            Some(words) => Ok(data_value(&words, self.width)),
            None => Err(NoBeat),
        }
    }

    /// Has a beat checked against `data`, after the expectations before it.
    pub fn expect(&mut self, data: &Value) -> (r: Result<(), ArgError>)
        ensures
            match r {
                Ok(_) => arg_result(data@, old(self)@.width) is Ok && final(self)@ == (
                Axi4StreamSinkView {
                    expect: old(self)@.expect.push(arg_result(data@, old(self)@.width)->Ok_0),
                    ..old(self)@
                }),
                Err(e) => final(self)@ == old(self)@ && answers(
                    Err(e),
                    data@,
                    old(self)@.width,
                    "expected beat data"@,
                ),
            },
    {
        match arg_words(data, self.width, "expected beat data") {
            Ok(want) => {
                self.expect.push_back(want);
                Ok(())
            },
            Err(e) => Err(e),
        }
    }

    /// The number of received beats that wait.
    pub fn num_received(&self) -> (r: u64)
        ensures
            r == self@.received.len(),
    {
        self.received.len() as u64
    }

    /// The beats accepted so far.
    pub fn beats(&self) -> (r: u64)
        ensures
            r == self@.beats,
    {
        self.beats
    }

    /// The packets accepted so far.
    pub fn packets(&self) -> (r: u64)
        ensures
            r == self@.packets,
    {
        self.packets
    }

    /// 1 when no expectation is open, else 0.
    pub fn idle(&self) -> (r: u64)
        ensures
            r == (if self@.expect.len() == 0 {
                1u64
            } else {
                0u64
            }),
    {
        if self.expect.is_empty() {
            1
        } else {
            0
        }
    }
}

/// A run of cycles without reset.
pub open spec fn run(s: Axi4StreamSinkView, cycles: Seq<AxiStreamReceiverPorts>) ->
    Axi4StreamSinkView
    decreases cycles.len(),
{
    if cycles.len() == 0 {
        s
    } else {
        run(s, cycles.drop_last()).clocked(false, cycles.last())
    }
}

/// The data handed over in a run, in order.
pub open spec fn handed_over(s: Axi4StreamSinkView, cycles: Seq<AxiStreamReceiverPorts>) -> Seq<
    Seq<u64>,
>
    decreases cycles.len(),
{
    if cycles.len() == 0 {
        seq![]
    } else {
        let before = run(s, cycles.drop_last());
        let done = handed_over(s, cycles.drop_last());
        if before.fires(cycles.last()) {
            done.push(before.data(cycles.last()))
        } else {
            done
        }
    }
}

/// How many of the beats of a run end a packet.
pub open spec fn packets_ended(s: Axi4StreamSinkView, cycles: Seq<AxiStreamReceiverPorts>) -> nat
    decreases cycles.len(),
{
    if cycles.len() == 0 {
        0
    } else {
        packets_ended(s, cycles.drop_last()) + (if run(s, cycles.drop_last()).fires(
            cycles.last(),
        ) && cycles.last().tlast@.truth() {
            1nat
        } else {
            0nat
        })
    }
}

/// The mismatches that a run reports, in order.
pub open spec fn mismatches(s: Axi4StreamSinkView, cycles: Seq<AxiStreamReceiverPorts>) -> Seq<
    StreamMismatchView,
>
    decreases cycles.len(),
{
    if cycles.len() == 0 {
        seq![]
    } else {
        let before = mismatches(s, cycles.drop_last());
        match run(s, cycles.drop_last()).mismatch(false, cycles.last()) {
            Some(m) => before.push(m),
            None => before,
        }
    }
}

/// No beat is lost: the first beats of a run answer the expectations in
/// order, the later ones are kept in order, and the counts grow by what was
/// handed over.
pub proof fn lemma_beats_are_accounted_for(
    s: Axi4StreamSinkView,
    cycles: Seq<AxiStreamReceiverPorts>,
)
    requires
        s.beats + cycles.len() <= u64::MAX,
        s.packets + cycles.len() <= u64::MAX,
    ensures
        ({
            let t = run(s, cycles);
            let got = handed_over(s, cycles);
            let n = s.expect.len();
            &&& t.beats == s.beats + got.len()
            &&& t.packets == s.packets + packets_ended(s, cycles)
            &&& packets_ended(s, cycles) <= got.len() <= cycles.len()
            &&& t.width == s.width
            &&& got.len() <= n ==> t.expect == s.expect.skip(got.len() as int) && t.received
                == s.received
            &&& got.len() > n ==> t.expect.len() == 0 && t.received == s.received + got.skip(
                n as int,
            )
        }),
    decreases cycles.len(),
{
    let n = s.expect.len();
    if cycles.len() == 0 {
        assert(s.expect.skip(0) =~= s.expect);
    } else {
        let rest = cycles.drop_last();
        lemma_beats_are_accounted_for(s, rest);
        let before = run(s, rest);
        let t = run(s, cycles);
        let old_got = handed_over(s, rest);
        let got = handed_over(s, cycles);
        if before.fires(cycles.last()) {
            if old_got.len() < n {
                assert(s.expect.skip(old_got.len() as int).drop_first() =~= s.expect.skip(
                    got.len() as int,
                ));
            } else {
                assert(s.expect.skip(old_got.len() as int).len() == 0 || old_got.len() > n);
                assert(got.skip(n as int) =~= old_got.skip(n as int).push(got.last()));
                assert(s.received + got.skip(n as int) =~= (s.received + old_got.skip(
                    n as int,
                )).push(got.last()));
                assert(old_got.len() == n ==> s.received + old_got.skip(n as int)
                    =~= s.received);
            }
        }
    }
}

/// The check is exact: a run reports nothing if and only if the beats handed
/// over are the expected ones as far as there are expectations.
pub proof fn lemma_mismatches_are_reported(
    s: Axi4StreamSinkView,
    cycles: Seq<AxiStreamReceiverPorts>,
)
    requires
        s.beats + cycles.len() <= u64::MAX,
        s.packets + cycles.len() <= u64::MAX,
    ensures
        ({
            let got = handed_over(s, cycles);
            mismatches(s, cycles).len() == 0 <==> forall|i: int|
                0 <= i < got.len() && i < s.expect.len() ==> #[trigger] got[i] == s.expect[i]
        }),
    decreases cycles.len(),
{
    if cycles.len() > 0 {
        let rest = cycles.drop_last();
        lemma_mismatches_are_reported(s, rest);
        lemma_beats_are_accounted_for(s, rest);
        let before = run(s, rest);
        let old_got = handed_over(s, rest);
        let got = handed_over(s, cycles);
        if before.fires(cycles.last()) {
            let k = old_got.len() as int;
            assert(forall|i: int| 0 <= i < k ==> got[i] == old_got[i]);
            assert(got[k] == before.data(cycles.last()));
            if k < s.expect.len() {
                assert(before.expect[0] == s.expect[k]);
            }
        }
    }
}

/// A reset drops what was received and what is expected, keeps the counts,
/// and reports nothing.
pub proof fn lemma_reset_clears_queues(s: Axi4StreamSinkView, p: AxiStreamReceiverPorts)
    ensures
        ({
            let t = s.clocked(true, p);
            &&& t.received.len() == 0 && t.expect.len() == 0 && !t.t_ready
            &&& t.beats == s.beats && t.packets == s.packets
            &&& s.mismatch(true, p) is None
        }),
{
}

} // verus!
