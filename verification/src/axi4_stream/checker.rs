//! Passive AXI4-Stream protocol checker.

use crate::common::channel::{views, Channel, ChannelView, Unstable};
use crate::common::counting::{bump, bumped, just_past, past};
use crate::common::monitor::{Lane, LaneView};
use crate::common::report::{only_if, report};
use crate::common::words::{fold_words, high, is_set, or_all, words_of};
use crate::text::{dec, hex, push_dec, push_hex};
use crate::value::Value;
use vstd::prelude::*;
use vstd::string::*;

verus! {

/// The signals of a stream in one cycle, as a monitor sees them.
pub struct AxiStreamMonitorPorts {
    pub tvalid: Value,
    pub tready: Value,
    pub tdata: Value,
    pub tstrb: Value,
    pub tkeep: Value,
    pub tlast: Value,
    pub tid: Value,
    pub tdest: Value,
    pub tuser: Value,
}

impl AxiStreamMonitorPorts {
    /// The stream as a channel. TUSER is ignored.
    pub open spec fn channel(self) -> LaneView {
        LaneView {
            valid: self.tvalid@,
            ready: self.tready@,
            payload: seq![
                self.tdata@,
                self.tstrb@,
                self.tkeep@,
                self.tlast@,
                self.tid@,
                self.tdest@,
            ],
        }
    }

    fn lane(&self) -> (r: Lane)
        ensures
            r@ == self.channel(),
    {
        let r = Lane {
            valid: self.tvalid.copy(),
            ready: self.tready.copy(),
            payload: vec![
                self.tdata.copy(),
                self.tstrb.copy(),
                self.tkeep.copy(),
                self.tlast.copy(),
                self.tid.copy(),
                self.tdest.copy(),
            ],
        };
        assert(views(r.payload@) =~= self.channel().payload);
        r
    }
}

/// A broken AXI4-Stream rule.
#[derive(Clone, Copy, Debug, PartialEq, Eq, Structural)]
pub enum Axi4StreamFault {
    /// `TVALID` high during reset.
    HighInReset,
    /// An X or Z bit in the payload of a valid beat.
    UnknownPayload,
    /// An X or Z bit in `TVALID` or `TREADY`.
    UnknownLine,
    Stability(Unstable),
    /// No `TREADY` within this many cycles.
    Timeout(u64),
}

impl Axi4StreamFault {
    /// The fault in words.
    pub open spec fn text(self) -> Seq<char> {
        match self {
            Axi4StreamFault::HighInReset => "AXI4-Stream: TVALID must be low during reset"@,
            Axi4StreamFault::UnknownPayload => "AXI4-Stream: payload is X/Z while TVALID"@,
            Axi4StreamFault::UnknownLine => "AXI4-Stream: TVALID/TREADY is X/Z"@,
            Axi4StreamFault::Stability(u) => "AXI4-Stream: "@ + u.text(),
            Axi4StreamFault::Timeout(limit) => "AXI4-Stream: no TREADY within "@ + dec(limit)
                + " cycles (timeout)"@,
        }
    }

    /// The fault in words.
    pub fn message(&self) -> (r: String)
        ensures
            r@ == self.text(),
    {
        let mut r = String::new();
        match *self {
            Axi4StreamFault::HighInReset => {
                r.append("AXI4-Stream: TVALID must be low during reset");
            },
            Axi4StreamFault::UnknownPayload => {
                r.append("AXI4-Stream: payload is X/Z while TVALID");
            },
            Axi4StreamFault::UnknownLine => {
                r.append("AXI4-Stream: TVALID/TREADY is X/Z");
            },
            Axi4StreamFault::Stability(u) => {
                r.append("AXI4-Stream: ");
                r.append(u.message());
            },
            Axi4StreamFault::Timeout(limit) => {
                r.append("AXI4-Stream: no TREADY within ");
                push_dec(&mut r, limit);
                r.append(" cycles (timeout)");
            },
        }
        assert(r@ =~= self.text());
        r
    }
}

/// What an [`Axi4StreamChecker`] knows.
#[verifier::ext_equal]
pub ghost struct Axi4StreamCheckerView {
    /// The cycles the stream may stall.
    pub timeout: Option<u64>,
    pub ch: ChannelView,
    pub beats: u64,
    pub packets: u64,
    /// A set bit for each `TKEEP` lane that was active.
    pub keep_seen: u64,
    /// A set bit for each `TSTRB` lane that was active.
    pub strb_seen: u64,
}

impl Axi4StreamCheckerView {
    /// The state of a checker that has seen no cycle.
    pub open spec fn fresh(timeout: Option<u64>) -> Self {
        Axi4StreamCheckerView {
            timeout,
            ch: ChannelView::fresh(),
            beats: 0,
            packets: 0,
            keep_seen: 0,
            strb_seen: 0,
        }
    }

    /// The handshake memory after a cycle.
    pub open spec fn ch_after(self, l: LaneView) -> ChannelView {
        self.ch.after(l.valid.high(), l.ready.high(), l.payload)
    }

    /// The state after a cycle.
    pub open spec fn clocked(self, rst: bool, p: AxiStreamMonitorPorts) -> Self {
        let l = p.channel();
        if rst {
            Axi4StreamCheckerView { ch: self.ch.cleared(), ..self }
        } else if l.fires() {
            Axi4StreamCheckerView {
                ch: self.ch_after(l),
                beats: (self.beats + 1) as u64,
                packets: bumped(self.packets, p.tlast@.high()),
                keep_seen: self.keep_seen | or_all(words_of(p.tkeep@)),
                strb_seen: self.strb_seen | or_all(words_of(p.tstrb@)),
                ..self
            }
        } else {
            Axi4StreamCheckerView { ch: self.ch_after(l), ..self }
        }
    }

    /// The rules that a cycle breaks, in the order they are reported.
    pub open spec fn faults(self, rst: bool, p: AxiStreamMonitorPorts, four_state: bool) -> Seq<
        Axi4StreamFault,
    > {
        let l = p.channel();
        if rst {
            only_if(l.valid.truth(), Axi4StreamFault::HighInReset)
        } else {
            only_if(
                four_state && l.valid.high() && l.unknown_payload(),
                Axi4StreamFault::UnknownPayload,
            ) + only_if(
                four_state && (l.valid.unknown() || l.ready.unknown()),
                Axi4StreamFault::UnknownLine,
            ) + self.unstable(l) + self.late(l)
        }
    }

    /// The stability rule that a cycle breaks.
    pub open spec fn unstable(self, l: LaneView) -> Seq<Axi4StreamFault> {
        match self.ch.violation(l.valid.high(), l.payload) {
            Some(u) => seq![Axi4StreamFault::Stability(u)],
            None => seq![],
        }
    }

    /// The timeout that a cycle completes.
    pub open spec fn late(self, l: LaneView) -> Seq<Axi4StreamFault> {
        match self.timeout {
            Some(limit) => only_if(
                self.ch_after(l).stall_cycles == past(limit),
                Axi4StreamFault::Timeout(limit),
            ),
            None => seq![],
        }
    }

    /// Whether the counts of a cycle fit in 64 bits.
    pub open spec fn can_clock(self, rst: bool, p: AxiStreamMonitorPorts) -> bool {
        let l = p.channel();
        !rst ==> {
            &&& self.ch.can_follow(l.valid.high(), l.ready.high())
            &&& l.fires() ==> self.beats < u64::MAX
            &&& l.fires() && p.tlast@.high() ==> self.packets < u64::MAX
        }
    }

    /// The report of what was seen.
    pub open spec fn text(self) -> Seq<char> {
        "AXI4-Stream checker: "@ + dec(self.beats) + " beat(s), "@ + dec(self.packets)
            + " packet(s); keep lanes=0x"@ + hex(self.keep_seen) + ", strb lanes=0x"@ + hex(
            self.strb_seen,
        ) + "; max stall="@ + dec(self.ch.max_stall) + " cyc"@
    }
}

/// Passive AXI4-Stream protocol checker. It drives nothing, holds every cycle
/// to the handshake rules and reports what it has seen.
pub struct Axi4StreamChecker {
    timeout: Option<u64>,
    ch: Channel,
    beats: u64,
    packets: u64,
    keep_seen: u64,
    strb_seen: u64,
}

impl View for Axi4StreamChecker {
    type V = Axi4StreamCheckerView;

    closed spec fn view(&self) -> Axi4StreamCheckerView {
        Axi4StreamCheckerView {
            timeout: self.timeout,
            ch: self.ch@,
            beats: self.beats,
            packets: self.packets,
            keep_seen: self.keep_seen,
            strb_seen: self.strb_seen,
        }
    }
}

impl Axi4StreamChecker {
    /// A checker of a stream that may stall for `timeout` cycles.
    pub fn on_build(timeout: Option<u64>) -> (r: Axi4StreamChecker)
        ensures
            r@ == Axi4StreamCheckerView::fresh(timeout),
    {
        Axi4StreamChecker {
            timeout,
            ch: Channel::new(),
            beats: 0,
            packets: 0,
            keep_seen: 0,
            strb_seen: 0,
        }
    }

    /// Whether the counts of a cycle fit in 64 bits.
    pub fn in_range(&self, rst: &Value, axi: &AxiStreamMonitorPorts) -> (r: bool)
        ensures
            r == self@.can_clock(rst@.truth(), *axi),
    {
        if is_set(rst) {
            return true;
        }
        let valid = high(&axi.tvalid);
        let ready = high(&axi.tready);
        self.ch.in_range(valid, ready) && (!(valid && ready) || (self.beats < u64::MAX && (!high(
            &axi.tlast,
        ) || self.packets < u64::MAX)))
    }

    /// Checks one cycle; the result is the rules it breaks.
    pub fn on_clock(&mut self, rst: &Value, axi: &AxiStreamMonitorPorts, four_state: bool) -> (r:
        Vec<Axi4StreamFault>)
        requires
            old(self)@.can_clock(rst@.truth(), *axi),
        ensures
            final(self)@ == old(self)@.clocked(rst@.truth(), *axi),
            r@ == old(self)@.faults(rst@.truth(), *axi, four_state),
    {
        let mut f: Vec<Axi4StreamFault> = Vec::new();
        if is_set(rst) {
            report(&mut f, is_set(&axi.tvalid), Axi4StreamFault::HighInReset);
            self.ch.clear();
            assert(f@ =~= old(self)@.faults(true, *axi, four_state));
            return f;
        }
        let l = axi.lane();
        let valid = high(&l.valid);
        let ready = high(&l.ready);
        report(
            &mut f,
            four_state && valid && l.unknown_payload(),
            Axi4StreamFault::UnknownPayload,
        );
        report(
            &mut f,
            four_state && (l.valid.has_unknown() || l.ready.has_unknown()),
            Axi4StreamFault::UnknownLine,
        );
        if let Some(u) = self.ch.check(valid, ready, l.payload) {
            f.push(Axi4StreamFault::Stability(u));
        }
        if let Some(limit) = self.timeout {
            report(
                &mut f,
                self.ch.stall_cycles() == just_past(limit),
                Axi4StreamFault::Timeout(limit),
            );
        }
        if valid && ready {
            self.beats = self.beats + 1;
            self.packets = bump(self.packets, high(&axi.tlast));
            self.keep_seen = self.keep_seen | fold_words(&axi.tkeep);
            self.strb_seen = self.strb_seen | fold_words(&axi.tstrb);
        }
        assert(f@ =~= old(self)@.faults(false, *axi, four_state));
        f
    }

    /// The beats seen so far.
    pub fn beats(&self) -> (r: u64)
        ensures
            r == self@.beats,
    {
        self.beats
    }

    /// The report of what was seen.
    pub fn summary(&self) -> (r: String)
        ensures
            r@ == self@.text(),
    {
        let mut r = String::new();
        r.append("AXI4-Stream checker: ");
        push_dec(&mut r, self.beats);
        r.append(" beat(s), ");
        push_dec(&mut r, self.packets);
        r.append(" packet(s); keep lanes=0x");
        push_hex(&mut r, self.keep_seen);
        r.append(", strb lanes=0x");
        push_hex(&mut r, self.strb_seen);
        r.append("; max stall=");
        push_dec(&mut r, self.ch.max_stall());
        r.append(" cyc");
        assert(r@ =~= self@.text());
        r
    }
}

/// The state after some cycles without reset.
pub open spec fn run(s: Axi4StreamCheckerView, cycles: Seq<AxiStreamMonitorPorts>) ->
    Axi4StreamCheckerView
    decreases cycles.len(),
{
    if cycles.len() == 0 {
        s
    } else {
        run(s, cycles.drop_last()).clocked(false, cycles.last())
    }
}

/// The number of cycles that hand a beat over, or of those that end a packet.
pub open spec fn handovers(cycles: Seq<AxiStreamMonitorPorts>, ends: bool) -> nat
    decreases cycles.len(),
{
    if cycles.len() == 0 {
        0
    } else {
        handovers(cycles.drop_last(), ends) + (if cycles.last().channel().fires() && (!ends
            || cycles.last().tlast@.high()) {
            1nat
        } else {
            0nat
        })
    }
}

/// The counts of a fresh checker are the beats and packets of the run.
pub proof fn lemma_beats_are_counted(timeout: Option<u64>, cycles: Seq<AxiStreamMonitorPorts>)
    requires
        cycles.len() <= u64::MAX,
    ensures
        run(Axi4StreamCheckerView::fresh(timeout), cycles).beats == handovers(cycles, false)
            <= cycles.len(),
        run(Axi4StreamCheckerView::fresh(timeout), cycles).packets == handovers(cycles, true)
            <= cycles.len(),
    decreases cycles.len(),
{
    if cycles.len() > 0 {
        lemma_beats_are_counted(timeout, cycles.drop_last());
    }
}

/// A cycle is faulted for instability exactly when the one before it had
/// `TVALID` without `TREADY`, and this one withdraws `TVALID` or shows another
/// payload.
pub proof fn lemma_stability_is_checked(
    s: Axi4StreamCheckerView,
    p: AxiStreamMonitorPorts,
    q: AxiStreamMonitorPorts,
)
    ensures
        s.clocked(false, p).unstable(q.channel()).len() > 0 <==> p.tvalid@.high()
            && !p.tready@.high() && (!q.tvalid@.high() || q.channel().payload
            != p.channel().payload),
{
}

/// A stalled stream times out once: after a cycle that is not stalled, the
/// fault comes in the cycle just past the limit and in no other of the run.
pub proof fn lemma_timeout_comes_once(
    s: Axi4StreamCheckerView,
    limit: u64,
    cycles: Seq<AxiStreamMonitorPorts>,
    next: AxiStreamMonitorPorts,
)
    requires
        s.timeout == Some(limit),
        s.ch.stall_cycles == 0,
        cycles.len() < u64::MAX,
        limit < u64::MAX,
        forall|i: int|
            0 <= i < cycles.len() ==> (#[trigger] cycles[i]).tvalid@.high()
                && !cycles[i].tready@.high(),
        next.tvalid@.high() && !next.tready@.high(),
    ensures
        run(s, cycles).late(next.channel()).len() > 0 <==> cycles.len() == limit,
{
    lemma_stalls_are_counted(s, cycles);
}

proof fn lemma_stalls_are_counted(s: Axi4StreamCheckerView, cycles: Seq<AxiStreamMonitorPorts>)
    requires
        s.ch.stall_cycles == 0,
        cycles.len() < u64::MAX,
        forall|i: int|
            0 <= i < cycles.len() ==> (#[trigger] cycles[i]).tvalid@.high()
                && !cycles[i].tready@.high(),
    ensures
        run(s, cycles).ch.stall_cycles == cycles.len(),
        run(s, cycles).timeout == s.timeout,
    decreases cycles.len(),
{
    if cycles.len() > 0 {
        let rest = cycles.drop_last();
        assert forall|i: int| 0 <= i < rest.len() implies (#[trigger] rest[i]).tvalid@.high()
            && !rest[i].tready@.high() by {
            assert(rest[i] == cycles[i]);
        }
        lemma_stalls_are_counted(s, rest);
        assert(cycles[cycles.len() - 1] == cycles.last());
    }
}

/// A stream on which nothing happens breaks no rule, and a reset forgets the
/// handshake but not what was seen.
pub proof fn lemma_idle_stream_is_quiet(
    s: Axi4StreamCheckerView,
    p: AxiStreamMonitorPorts,
    rst: bool,
)
    requires
        !p.tvalid@.truth(),
        !s.ch.stalled,
    ensures
        s.faults(rst, p, false) == Seq::<Axi4StreamFault>::empty(),
        !s.clocked(rst, p).ch.stalled,
        s.clocked(rst, p).beats == s.beats,
        s.clocked(rst, p).packets == s.packets,
        s.clocked(true, p).ch.max_stall == s.ch.max_stall,
{
    assert(s.faults(rst, p, false) =~= Seq::<Axi4StreamFault>::empty());
}

} // verus!
