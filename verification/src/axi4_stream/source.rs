//! Active AXI4-Stream source (transmitter).

use crate::collections::Fifo;
use crate::common::random::{
    after_stall, seed_lfsr, seed_traffic, seeded, stall_now, stalls, traffic_seeded,
};
use crate::common::stimulus::{after_data, full_strb, full_strobe, rand_data, random_data};
use crate::common::words::{
    answers, arg_result, arg_words, is_set, words_for, zero_words, zeros, ArgError,
};
use crate::value::{copy_words, word_count, Value};
use vstd::prelude::*;

verus! {

/// The signals of a stream in one cycle, as a source drives and sees them.
pub struct AxiStreamTransmitterPorts {
    pub tvalid: bool,
    pub tready: Value,
    pub tdata: Vec<u64>,
    pub tstrb: Vec<u64>,
    pub tkeep: Vec<u64>,
    pub tlast: bool,
    pub tid: u64,
    pub tdest: u64,
    pub tuser: u64,
}

/// A stream beat.
pub struct Beat {
    pub data: Vec<u64>,
    pub last: bool,
}

/// What a [`Beat`] holds.
#[verifier::ext_equal]
pub ghost struct BeatView {
    pub data: Seq<u64>,
    pub last: bool,
}

impl View for Beat {
    type V = BeatView;

    open spec fn view(&self) -> BeatView {
        BeatView { data: self.data@, last: self.last }
    }
}

/// What an [`Axi4StreamSource`] holds.
#[verifier::ext_equal]
pub ghost struct Axi4StreamSourceView {
    /// The data width of the stream.
    pub width: u32,
    /// The weight out of 256 of an idle cycle between beats.
    pub stall: Option<u64>,
    /// The beats that wait, oldest first.
    pub beats: Seq<BeatView>,
    pub lfsr: u64,
    pub traffic_lfsr: u64,
    pub t_valid: bool,
    /// The beat presented last.
    pub cur: BeatView,
}

impl Axi4StreamSourceView {
    /// A source that has nothing to send.
    pub open spec fn fresh(width: u32, stall: Option<u64>, seed: u64) -> Self {
        Axi4StreamSourceView {
            width,
            stall,
            beats: seq![],
            lfsr: seeded(seed),
            traffic_lfsr: traffic_seeded(seed),
            t_valid: false,
            cur: BeatView { data: zeros(word_count(width)), last: false },
        }
    }

    /// Whether a beat is handed over.
    pub open spec fn fires(self, p: AxiStreamTransmitterPorts) -> bool {
        self.t_valid && p.tready@.truth()
    }

    /// Whether a new beat is presented in a cycle.
    pub open spec fn presents(self, p: AxiStreamTransmitterPorts) -> bool {
        &&& !self.t_valid || p.tready@.truth()
        &&& !stalls(self.lfsr, self.stall)
        &&& self.beats.len() > 0
    }

    /// After a cycle. A beat that was handed over makes way for the next one,
    /// unless a gap is drawn; a reset drops everything that waits.
    pub open spec fn clocked(self, rst: bool, p: AxiStreamTransmitterPorts) -> Self {
        if rst {
            Axi4StreamSourceView { beats: seq![], t_valid: false, ..self }
        } else if self.presents(p) {
            Axi4StreamSourceView {
                lfsr: after_stall(self.lfsr, self.stall),
                beats: self.beats.drop_first(),
                t_valid: true,
                cur: self.beats[0],
                ..self
            }
        } else {
            Axi4StreamSourceView {
                lfsr: after_stall(self.lfsr, self.stall),
                t_valid: self.t_valid && !p.tready@.truth(),
                ..self
            }
        }
    }

    /// With a beat queued last.
    pub open spec fn sending(self, data: Seq<u64>, last: bool) -> Self {
        Axi4StreamSourceView { beats: self.beats.push(BeatView { data, last }), ..self }
    }

    /// With the first `n` of `count` random beats queued; every `len`-th one
    /// and the last of all end a packet.
    pub open spec fn random_beats(self, n: nat, count: u64, len: u64) -> Self
        decreases n,
    {
        if n == 0 {
            self
        } else {
            let s = self.random_beats((n - 1) as nat, count, len);
            Axi4StreamSourceView {
                traffic_lfsr: after_data(s.traffic_lfsr, s.width),
                ..s.sending(
                    random_data(s.traffic_lfsr, s.width),
                    n as int % len as int == 0 || n == count,
                )
            }
        }
    }

    /// Whether every queued beat has been handed over.
    pub open spec fn idle(self) -> bool {
        self.beats.len() == 0 && !self.t_valid
    }
}

/// Whether `after` is `before` with the outputs of a source in state `s`.
pub open spec fn drives(
    s: Axi4StreamSourceView,
    before: AxiStreamTransmitterPorts,
    after: AxiStreamTransmitterPorts,
) -> bool {
    &&& after.tvalid == s.t_valid
    &&& after.tdata@ == s.cur.data
    &&& after.tstrb@ == full_strobe(s.width)
    &&& after.tkeep@ == full_strobe(s.width)
    &&& after.tlast == s.cur.last
    &&& after.tid == 0
    &&& after.tdest == 0
    &&& after.tuser == 0
    &&& after.tready == before.tready
}

/// Whether `r` answers a request to queue a beat.
pub open spec fn send_answer(
    r: Result<(), ArgError>,
    before: Axi4StreamSourceView,
    after: Axi4StreamSourceView,
    data: &Value,
    last: bool,
) -> bool {
    match r {
        Ok(_) => arg_result(data@, before.width) is Ok && after == before.sending(
            arg_result(data@, before.width)->Ok_0,
            last,
        ),
        Err(e) => after == before && answers(Err(e), data@, before.width, "beat data"@),
    }
}

/// Active AXI4-Stream source. Queued beats are driven onto the bus one per
/// handshake; `TLAST` marks the end of a packet. `TKEEP` and `TSTRB` have
/// every lane active. `TVALID` is never dropped before `TREADY`.
pub struct Axi4StreamSource {
    width: u32,
    stall: Option<u64>,
    beats: Fifo<Beat>,
    lfsr: u64,
    traffic_lfsr: u64,
    t_valid: bool,
    cur: Beat,
}

impl View for Axi4StreamSource {
    type V = Axi4StreamSourceView;

    closed spec fn view(&self) -> Axi4StreamSourceView {
        Axi4StreamSourceView {
            width: self.width,
            stall: self.stall,
            beats: self.beats@,
            lfsr: self.lfsr,
            traffic_lfsr: self.traffic_lfsr,
            t_valid: self.t_valid,
            cur: self.cur@,
        }
    }
}

impl Axi4StreamSource {
    /// A source of a stream of this data width.
    pub fn on_build(width: u32, stall: Option<u64>, seed: u64) -> (r: Axi4StreamSource)
        ensures
            r@ == Axi4StreamSourceView::fresh(width, stall, seed),
    {
        Axi4StreamSource {
            width,
            stall,
            beats: Fifo::new(),
            lfsr: seed_lfsr(seed),
            traffic_lfsr: seed_traffic(seed),
            t_valid: false,
            cur: Beat { data: zero_words(words_for(width)), last: false },
        }
    }

    fn drive(&self, axi: &mut AxiStreamTransmitterPorts)
        ensures
            drives(self@, *old(axi), *final(axi)),
    {
        axi.tvalid = self.t_valid;
        axi.tdata = copy_words(&self.cur.data);
        axi.tstrb = full_strb(self.width);
        axi.tkeep = full_strb(self.width);
        axi.tlast = self.cur.last;
        axi.tid = 0;
        axi.tdest = 0;
        axi.tuser = 0;
    }

    /// Moves the source on by a cycle and drives the outputs.
    pub fn on_clock(&mut self, rst: &Value, axi: &mut AxiStreamTransmitterPorts)
        ensures
            final(self)@ == old(self)@.clocked(rst@.truth(), *old(axi)),
            drives(final(self)@, *old(axi), *final(axi)),
    {
        if is_set(rst) {
            self.beats.clear();
            self.t_valid = false;
        } else {
            let stall = stall_now(&mut self.lfsr, self.stall);
            if self.t_valid && is_set(&axi.tready) {
                self.t_valid = false;
            }
            if !self.t_valid && !stall {
                if let Some(beat) = self.beats.pop_front() {
                    self.cur = beat;
                    self.t_valid = true;
                }
            }
        }
        assert(self@ =~= old(self)@.clocked(rst@.truth(), *axi));
        self.drive(axi);
    }

    fn queue(&mut self, data: &Value, last: bool) -> (r: Result<(), ArgError>)
        ensures
            send_answer(r, old(self)@, final(self)@, data, last),
    {
        match arg_words(data, self.width, "beat data") {
            Ok(data) => {
                self.beats.push_back(Beat { data, last });
                Ok(())
            },
            Err(e) => Err(e),
        }
    }

    /// Queues a beat that does not end a packet.
    pub fn send(&mut self, data: &Value) -> (r: Result<(), ArgError>)
        ensures
            send_answer(r, old(self)@, final(self)@, data, false),
    {
        self.queue(data, false)
    }

    /// Queues the last beat of a packet.
    pub fn send_last(&mut self, data: &Value) -> (r: Result<(), ArgError>)
        ensures
            send_answer(r, old(self)@, final(self)@, data, true),
    {
        self.queue(data, true)
    }

    /// Queues `count` random beats in packets of `packet_len` beats, where
    /// zero counts as one; the last packet may be shorter.
    pub fn random_traffic(&mut self, count: u64, packet_len: u64)
        ensures
            final(self)@ == old(self)@.random_beats(
                count as nat,
                count,
                if packet_len == 0 {
                    1
                } else {
                    packet_len
                },
            ),
    {
        let len: u64 = if packet_len == 0 {
            1
        } else {
            packet_len
        };
        let mut i: u64 = 0;
        while i < count
            invariant
                i <= count,
                len > 0,
                self@ == old(self)@.random_beats(i as nat, count, len),
            decreases count - i,
        {
            let data: Vec<u64> = rand_data(&mut self.traffic_lfsr, self.width);
            i = i + 1;
            let last = i % len == 0 || i == count;
            self.beats.push_back(Beat { data, last });
            assert(self@ =~= old(self)@.random_beats(i as nat, count, len));
        }
    }

    /// 1 when every queued beat has been handed over, else 0.
    pub fn idle(&self) -> (r: u64)
        ensures
            r == (if self@.idle() {
                1u64
            } else {
                0u64
            }),
    {
        if self.beats.is_empty() && !self.t_valid {
            1
        } else {
            0
        }
    }

    /// The number of beats that wait.
    pub fn queued(&self) -> (r: u64)
        ensures
            r == self@.beats.len(),
    {
        self.beats.len() as u64
    }
}

/// `TVALID` stays high and the beat does not change until `TREADY`.
pub proof fn lemma_beat_is_stable(s: Axi4StreamSourceView, p: AxiStreamTransmitterPorts)
    requires
        s.t_valid,
        !p.tready@.truth(),
    ensures
        s.clocked(false, p).t_valid,
        s.clocked(false, p).cur == s.cur,
        s.clocked(false, p).beats == s.beats,
{
}

/// The beats not handed over yet, oldest first: the one presented and those
/// that wait.
pub open spec fn pending(s: Axi4StreamSourceView) -> Seq<BeatView> {
    if s.t_valid {
        seq![s.cur] + s.beats
    } else {
        s.beats
    }
}

/// The source after some cycles without reset.
pub open spec fn run(s: Axi4StreamSourceView, cycles: Seq<AxiStreamTransmitterPorts>) ->
    Axi4StreamSourceView
    decreases cycles.len(),
{
    if cycles.len() == 0 {
        s
    } else {
        run(s, cycles.drop_last()).clocked(false, cycles.last())
    }
}

/// The beats handed over in some cycles, in order.
pub open spec fn handed_over(s: Axi4StreamSourceView, cycles: Seq<AxiStreamTransmitterPorts>) ->
    Seq<BeatView>
    decreases cycles.len(),
{
    if cycles.len() == 0 {
        seq![]
    } else {
        let before = run(s, cycles.drop_last());
        let done = handed_over(s, cycles.drop_last());
        if before.fires(cycles.last()) {
            done.push(before.cur)
        } else {
            done
        }
    }
}

/// Every queued beat goes out once and in order: what has been handed over,
/// followed by what is still pending, is always what was pending at first.
pub proof fn lemma_beats_go_out_in_order(
    s: Axi4StreamSourceView,
    cycles: Seq<AxiStreamTransmitterPorts>,
)
    ensures
        handed_over(s, cycles) + pending(run(s, cycles)) == pending(s),
    decreases cycles.len(),
{
    if cycles.len() == 0 {
        assert(handed_over(s, cycles) + pending(s) =~= pending(s));
    } else {
        let rest = cycles.drop_last();
        let p = cycles.last();
        lemma_beats_go_out_in_order(s, rest);
        let t = run(s, rest);
        let u = t.clocked(false, p);
        if t.fires(p) {
            assert(handed_over(s, rest).push(t.cur) + pending(u) =~= handed_over(s, rest)
                + pending(t));
        } else {
            assert(pending(u) =~= pending(t));
        }
    }
}

/// A sent beat waits behind everything sent before it.
pub proof fn lemma_sent_beat_is_last(s: Axi4StreamSourceView, data: Seq<u64>, last: bool)
    ensures
        pending(s.sending(data, last)) == pending(s).push(BeatView { data, last }),
{
    assert(pending(s.sending(data, last)) =~= pending(s).push(BeatView { data, last }));
}

/// Without gaps drawn and with `TREADY` high, a beat is handed over in every
/// cycle as long as one is presented.
pub proof fn lemma_full_throughput(s: Axi4StreamSourceView, p: AxiStreamTransmitterPorts)
    requires
        s.stall is None,
        p.tready@.truth(),
        s.beats.len() > 0,
    ensures
        s.clocked(false, p).t_valid,
        s.clocked(false, p).cur == s.beats[0],
{
}

/// Random traffic queues `count` beats; a beat ends a packet exactly at every
/// `len`-th one and at the end, so that all traffic is made of whole packets.
pub proof fn lemma_random_packets(s: Axi4StreamSourceView, n: nat, count: u64, len: u64, i: int)
    requires
        n <= count,
        len > 0,
    ensures
        ({
            let t = s.random_beats(n, count, len);
            &&& t.beats.len() == s.beats.len() + n
            &&& t.width == s.width
            &&& forall|j: int| 0 <= j < s.beats.len() ==> t.beats[j] == s.beats[j]
            &&& 0 <= i < n ==> t.beats[s.beats.len() + i].last == ((i + 1) % len as int == 0 || i
                + 1 == count)
        }),
    decreases n,
{
    if n > 0 {
        lemma_random_packets(s, (n - 1) as nat, count, len, i);
    }
}

} // verus!
