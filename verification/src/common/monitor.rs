//! The handshake checks over the five channels of an AXI bus.

use crate::common::channel::{
    after_all, lemma_stalls_are_counted, Cycle, views, Channel, ChannelView, Unstable,
};
use crate::common::counting::{just_past, larger, max_of, past};
use crate::common::report::{only_if, report};
use crate::common::words::{high, is_set};
use crate::text::{dec, push_dec};
use crate::value::{Value, ValueView};
use vstd::prelude::*;
use vstd::string::*;

verus! {

/// A channel of the bus.
#[derive(Clone, Copy, Debug, PartialEq, Eq, Structural)]
pub enum Chan {
    Aw,
    W,
    B,
    Ar,
    R,
}

impl Chan {
    /// The channel's name.
    pub open spec fn text(self) -> Seq<char> {
        match self {
            Chan::Aw => "AW"@,
            Chan::W => "W"@,
            Chan::B => "B"@,
            Chan::Ar => "AR"@,
            Chan::R => "R"@,
        }
    }

    /// The channel's name.
    pub fn name(self) -> (r: &'static str)
        ensures
            r@ == self.text(),
    {
        match self {
            Chan::Aw => "AW",
            Chan::W => "W",
            Chan::B => "B",
            Chan::Ar => "AR",
            Chan::R => "R",
        }
    }
}

/// A handshake line of a channel.
#[derive(Clone, Copy, Debug, PartialEq, Eq, Structural)]
pub enum Wire {
    Valid(Chan),
    Ready(Chan),
}

impl Wire {
    /// The line's name.
    pub open spec fn text(self) -> Seq<char> {
        match self {
            Wire::Valid(c) => c.text() + "VALID"@,
            Wire::Ready(c) => c.text() + "READY"@,
        }
    }

    /// Appends the line's name.
    pub fn push_name(self, out: &mut String)
        ensures
            final(out)@ == old(out)@ + self.text(),
    {
        match self {
            Wire::Valid(c) => {
                out.append(c.name());
                out.append("VALID");
            },
            Wire::Ready(c) => {
                out.append(c.name());
                out.append("READY");
            },
        }
        assert(out@ =~= old(out)@ + self.text());
    }
}

/// A broken handshake rule.
#[derive(Clone, Copy, Debug, PartialEq, Eq, Structural)]
pub enum LineFault {
    HighInReset(Wire),
    Unknown(Wire),
    UnknownPayload(Chan),
    Unsteady(Chan, Unstable),
    Timeout(Chan, u64),
}

impl LineFault {
    /// The fault in words, for the protocol called `protocol`.
    pub open spec fn text(self, protocol: Seq<char>) -> Seq<char> {
        match self {
            LineFault::HighInReset(w) => protocol + ": "@ + w.text()
                + " must be low during reset"@,
            LineFault::Unknown(w) => protocol + ": "@ + w.text() + " is X/Z"@,
            LineFault::UnknownPayload(c) => protocol + " "@ + c.text()
                + ": payload is X/Z while VALID"@,
            LineFault::Unsteady(c, u) => protocol + " "@ + c.text() + ": "@ + u.text(),
            LineFault::Timeout(c, limit) => protocol + " "@ + c.text() + ": no READY within "@
                + dec(limit) + " cycles (timeout)"@,
        }
    }

    /// The fault in words.
    pub fn message(&self, protocol: &str) -> (r: String)
        ensures
            r@ == self.text(protocol@),
    {
        let mut r = String::new();
        r.append(protocol);
        match *self {
            LineFault::HighInReset(w) => {
                r.append(": ");
                w.push_name(&mut r);
                r.append(" must be low during reset");
            },
            LineFault::Unknown(w) => {
                r.append(": ");
                w.push_name(&mut r);
                r.append(" is X/Z");
            },
            LineFault::UnknownPayload(c) => {
                r.append(" ");
                r.append(c.name());
                r.append(": payload is X/Z while VALID");
            },
            LineFault::Unsteady(c, u) => {
                r.append(" ");
                r.append(c.name());
                r.append(": ");
                r.append(u.message());
            },
            LineFault::Timeout(c, limit) => {
                r.append(" ");
                r.append(c.name());
                r.append(": no READY within ");
                push_dec(&mut r, limit);
                r.append(" cycles (timeout)");
            },
        }
        assert(r@ =~= self.text(protocol@));
        r
    }
}

/// What one channel shows in a cycle.
pub struct Lane {
    pub valid: Value,
    pub ready: Value,
    pub payload: Vec<Value>,
}

/// What a [`Lane`] holds.
#[verifier::ext_equal]
pub ghost struct LaneView {
    pub valid: ValueView,
    pub ready: ValueView,
    pub payload: Seq<ValueView>,
}

impl View for Lane {
    type V = LaneView;

    open spec fn view(&self) -> LaneView {
        LaneView { valid: self.valid@, ready: self.ready@, payload: views(self.payload@) }
    }
}

impl LaneView {
    /// Whether the channel hands its payload over.
    pub open spec fn fires(self) -> bool {
        self.valid.high() && self.ready.high()
    }

    /// Whether the payload holds an X or Z bit.
    pub open spec fn unknown_payload(self) -> bool {
        exists|i: int| 0 <= i < self.payload.len() && #[trigger] self.payload[i].unknown()
    }
}

impl Lane {
    /// Whether the channel hands its payload over.
    pub fn fires(&self) -> (r: bool)
        ensures
            r == self@.fires(),
    {
        high(&self.valid) && high(&self.ready)
    }

    /// Whether the payload holds an X or Z bit.
    pub fn unknown_payload(&self) -> (r: bool)
        ensures
            r == self@.unknown_payload(),
    {
        let mut i: usize = 0;
        while i < self.payload.len()
            invariant
                i <= self.payload.len(),
                forall|j: int| 0 <= j < i ==> !self.payload[j]@.unknown(),
            decreases self.payload.len() - i,
        {
            if self.payload[i].has_unknown() {
                assert(self@.payload[i as int].unknown());
                return true;
            }
            i = i + 1;
        }
        assert forall|j: int| 0 <= j < self@.payload.len() implies !(#[trigger]
            self@.payload[j]).unknown() by {
            assert(!self.payload[j]@.unknown());
        }
        false
    }

    fn copy_payload(&self) -> (r: Vec<Value>)
        ensures
            views(r@) == self@.payload,
    {
        let mut r: Vec<Value> = Vec::new();
        let mut i: usize = 0;
        while i < self.payload.len()
            invariant
                i <= self.payload.len(),
                r.len() == i,
                forall|j: int| 0 <= j < i ==> r[j]@ == self.payload[j]@,
            decreases self.payload.len() - i,
        {
            r.push(self.payload[i].copy());
            i = i + 1;
        }
        assert(views(r@) =~= self@.payload);
        r
    }
}

/// What the five channels show in a cycle.
pub struct Lanes {
    pub aw: Lane,
    pub w: Lane,
    pub b: Lane,
    pub ar: Lane,
    pub r: Lane,
}

/// What [`Lanes`] hold.
#[verifier::ext_equal]
pub ghost struct LanesView {
    pub aw: LaneView,
    pub w: LaneView,
    pub b: LaneView,
    pub ar: LaneView,
    pub r: LaneView,
}

impl View for Lanes {
    type V = LanesView;

    open spec fn view(&self) -> LanesView {
        LanesView { aw: self.aw@, w: self.w@, b: self.b@, ar: self.ar@, r: self.r@ }
    }
}

/// The VALID lines that are high, which none may be during reset.
pub open spec fn high_in_reset(l: LanesView) -> Seq<LineFault> {
    only_if(l.aw.valid.truth(), LineFault::HighInReset(Wire::Valid(Chan::Aw))) + only_if(
        l.w.valid.truth(),
        LineFault::HighInReset(Wire::Valid(Chan::W)),
    ) + only_if(l.b.valid.truth(), LineFault::HighInReset(Wire::Valid(Chan::B))) + only_if(
        l.ar.valid.truth(),
        LineFault::HighInReset(Wire::Valid(Chan::Ar)),
    ) + only_if(l.r.valid.truth(), LineFault::HighInReset(Wire::Valid(Chan::R)))
}

/// The handshake lines that are X or Z.
pub open spec fn unknown_lines(l: LanesView) -> Seq<LineFault> {
    only_if(l.aw.valid.unknown(), LineFault::Unknown(Wire::Valid(Chan::Aw))) + only_if(
        l.aw.ready.unknown(),
        LineFault::Unknown(Wire::Ready(Chan::Aw)),
    ) + only_if(l.w.valid.unknown(), LineFault::Unknown(Wire::Valid(Chan::W))) + only_if(
        l.w.ready.unknown(),
        LineFault::Unknown(Wire::Ready(Chan::W)),
    ) + only_if(l.b.valid.unknown(), LineFault::Unknown(Wire::Valid(Chan::B))) + only_if(
        l.b.ready.unknown(),
        LineFault::Unknown(Wire::Ready(Chan::B)),
    ) + only_if(l.ar.valid.unknown(), LineFault::Unknown(Wire::Valid(Chan::Ar))) + only_if(
        l.ar.ready.unknown(),
        LineFault::Unknown(Wire::Ready(Chan::Ar)),
    ) + only_if(l.r.valid.unknown(), LineFault::Unknown(Wire::Valid(Chan::R))) + only_if(
        l.r.ready.unknown(),
        LineFault::Unknown(Wire::Ready(Chan::R)),
    )
}

/// The channels that present an X or Z payload with VALID high.
pub open spec fn unknown_payloads(l: LanesView) -> Seq<LineFault> {
    only_if(l.aw.valid.high() && l.aw.unknown_payload(), LineFault::UnknownPayload(Chan::Aw)) + only_if(
        l.w.valid.high() && l.w.unknown_payload(),
        LineFault::UnknownPayload(Chan::W),
    ) + only_if(l.b.valid.high() && l.b.unknown_payload(), LineFault::UnknownPayload(Chan::B))
        + only_if(l.ar.valid.high() && l.ar.unknown_payload(), LineFault::UnknownPayload(Chan::Ar))
        + only_if(l.r.valid.high() && l.r.unknown_payload(), LineFault::UnknownPayload(Chan::R))
}

/// Looks for VALID lines that are high during reset.
pub fn check_reset(l: &Lanes) -> (r: Vec<LineFault>)
    ensures
        r@ == high_in_reset(l@),
{
    let mut f: Vec<LineFault> = Vec::new();
    report(&mut f, is_set(&l.aw.valid), LineFault::HighInReset(Wire::Valid(Chan::Aw)));
    report(&mut f, is_set(&l.w.valid), LineFault::HighInReset(Wire::Valid(Chan::W)));
    report(&mut f, is_set(&l.b.valid), LineFault::HighInReset(Wire::Valid(Chan::B)));
    report(&mut f, is_set(&l.ar.valid), LineFault::HighInReset(Wire::Valid(Chan::Ar)));
    report(&mut f, is_set(&l.r.valid), LineFault::HighInReset(Wire::Valid(Chan::R)));
    assert(f@ =~= high_in_reset(l@));
    f
}

/// Looks for handshake lines that are X or Z.
pub fn check_lines(l: &Lanes) -> (r: Vec<LineFault>)
    ensures
        r@ == unknown_lines(l@),
{
    let mut f: Vec<LineFault> = Vec::new();
    report(&mut f, l.aw.valid.has_unknown(), LineFault::Unknown(Wire::Valid(Chan::Aw)));
    report(&mut f, l.aw.ready.has_unknown(), LineFault::Unknown(Wire::Ready(Chan::Aw)));
    report(&mut f, l.w.valid.has_unknown(), LineFault::Unknown(Wire::Valid(Chan::W)));
    report(&mut f, l.w.ready.has_unknown(), LineFault::Unknown(Wire::Ready(Chan::W)));
    report(&mut f, l.b.valid.has_unknown(), LineFault::Unknown(Wire::Valid(Chan::B)));
    report(&mut f, l.b.ready.has_unknown(), LineFault::Unknown(Wire::Ready(Chan::B)));
    report(&mut f, l.ar.valid.has_unknown(), LineFault::Unknown(Wire::Valid(Chan::Ar)));
    report(&mut f, l.ar.ready.has_unknown(), LineFault::Unknown(Wire::Ready(Chan::Ar)));
    report(&mut f, l.r.valid.has_unknown(), LineFault::Unknown(Wire::Valid(Chan::R)));
    report(&mut f, l.r.ready.has_unknown(), LineFault::Unknown(Wire::Ready(Chan::R)));
    assert(f@ =~= unknown_lines(l@));
    f
}

/// Looks for X or Z payloads.
pub fn check_payloads(l: &Lanes) -> (r: Vec<LineFault>)
    ensures
        r@ == unknown_payloads(l@),
{
    let mut f: Vec<LineFault> = Vec::new();
    report(
        &mut f,
        high(&l.aw.valid) && l.aw.unknown_payload(),
        LineFault::UnknownPayload(Chan::Aw),
    );
    report(
        &mut f,
        high(&l.w.valid) && l.w.unknown_payload(),
        LineFault::UnknownPayload(Chan::W),
    );
    report(
        &mut f,
        high(&l.b.valid) && l.b.unknown_payload(),
        LineFault::UnknownPayload(Chan::B),
    );
    report(
        &mut f,
        high(&l.ar.valid) && l.ar.unknown_payload(),
        LineFault::UnknownPayload(Chan::Ar),
    );
    report(
        &mut f,
        high(&l.r.valid) && l.r.unknown_payload(),
        LineFault::UnknownPayload(Chan::R),
    );
    assert(f@ =~= unknown_payloads(l@));
    f
}

/// The fault of a channel that broke the stability rule.
pub open spec fn unsteady(c: Chan, violation: Option<Unstable>) -> Seq<LineFault> {
    match violation {
        Some(u) => seq![LineFault::Unsteady(c, u)],
        None => seq![],
    }
}

fn report_unsteady(fails: &mut Vec<LineFault>, c: Chan, violation: Option<Unstable>)
    ensures
        final(fails)@ == old(fails)@ + unsteady(c, violation),
{
    match violation {
        Some(u) => fails.push(LineFault::Unsteady(c, u)),
        None => {},
    }
    assert(fails@ =~= old(fails)@ + unsteady(c, violation));
}

/// The five handshake monitors of a bus.
pub struct Monitor {
    aw: Channel,
    w: Channel,
    b: Channel,
    ar: Channel,
    r: Channel,
}

/// What a [`Monitor`] remembers.
#[verifier::ext_equal]
pub ghost struct MonitorView {
    pub aw: ChannelView,
    pub w: ChannelView,
    pub b: ChannelView,
    pub ar: ChannelView,
    pub r: ChannelView,
}

impl View for Monitor {
    type V = MonitorView;

    closed spec fn view(&self) -> MonitorView {
        MonitorView { aw: self.aw@, w: self.w@, b: self.b@, ar: self.ar@, r: self.r@ }
    }
}

impl MonitorView {
    /// The memory of monitors that have seen no cycle.
    pub open spec fn fresh() -> MonitorView {
        let c = ChannelView::fresh();
        MonitorView { aw: c, w: c, b: c, ar: c, r: c }
    }

    /// The memory after a reset.
    pub open spec fn cleared(self) -> MonitorView {
        MonitorView {
            aw: self.aw.cleared(),
            w: self.w.cleared(),
            b: self.b.cleared(),
            ar: self.ar.cleared(),
            r: self.r.cleared(),
        }
    }

    /// The memory after a cycle.
    pub open spec fn after(self, l: LanesView) -> MonitorView {
        MonitorView {
            aw: self.aw.after(l.aw.valid.high(), l.aw.ready.high(), l.aw.payload),
            w: self.w.after(l.w.valid.high(), l.w.ready.high(), l.w.payload),
            b: self.b.after(l.b.valid.high(), l.b.ready.high(), l.b.payload),
            ar: self.ar.after(l.ar.valid.high(), l.ar.ready.high(), l.ar.payload),
            r: self.r.after(l.r.valid.high(), l.r.ready.high(), l.r.payload),
        }
    }

    /// The stability rules that a cycle breaks.
    pub open spec fn violations(self, l: LanesView) -> Seq<LineFault> {
        unsteady(Chan::Aw, self.aw.violation(l.aw.valid.high(), l.aw.payload)) + unsteady(
            Chan::W,
            self.w.violation(l.w.valid.high(), l.w.payload),
        ) + unsteady(Chan::B, self.b.violation(l.b.valid.high(), l.b.payload)) + unsteady(
            Chan::Ar,
            self.ar.violation(l.ar.valid.high(), l.ar.payload),
        ) + unsteady(Chan::R, self.r.violation(l.r.valid.high(), l.r.payload))
    }

    /// The channels whose stall has just passed the limit.
    pub open spec fn timeouts(self, timeout: Option<u64>) -> Seq<LineFault> {
        match timeout {
            Some(limit) => only_if(
                self.aw.stall_cycles == past(limit),
                LineFault::Timeout(Chan::Aw, limit),
            ) + only_if(self.w.stall_cycles == past(limit), LineFault::Timeout(Chan::W, limit))
                + only_if(self.b.stall_cycles == past(limit), LineFault::Timeout(Chan::B, limit))
                + only_if(self.ar.stall_cycles == past(limit), LineFault::Timeout(Chan::Ar, limit))
                + only_if(self.r.stall_cycles == past(limit), LineFault::Timeout(Chan::R, limit)),
            None => seq![],
        }
    }

    /// The longest stall of any channel.
    pub open spec fn max_stall(self) -> u64 {
        larger(
            larger(
                larger(larger(self.aw.max_stall, self.w.max_stall), self.b.max_stall),
                self.ar.max_stall,
            ),
            self.r.max_stall,
        )
    }

    /// Whether the stalls of a cycle can be counted in 64 bits.
    pub open spec fn can_follow(self, l: LanesView) -> bool {
        &&& self.aw.can_follow(l.aw.valid.high(), l.aw.ready.high())
        &&& self.w.can_follow(l.w.valid.high(), l.w.ready.high())
        &&& self.b.can_follow(l.b.valid.high(), l.b.ready.high())
        &&& self.ar.can_follow(l.ar.valid.high(), l.ar.ready.high())
        &&& self.r.can_follow(l.r.valid.high(), l.r.ready.high())
    }
}

impl Monitor {
    /// Monitors that have seen no cycle.
    pub fn new() -> (r: Monitor)
        ensures
            r@ == MonitorView::fresh(),
    {
        Monitor {
            aw: Channel::new(),
            w: Channel::new(),
            b: Channel::new(),
            ar: Channel::new(),
            r: Channel::new(),
        }
    }

    /// Whether the stalls of a cycle can be counted in 64 bits.
    pub fn in_range(&self, l: &Lanes) -> (r: bool)
        ensures
            r == self@.can_follow(l@),
    {
        self.aw.in_range(high(&l.aw.valid), high(&l.aw.ready)) && self.w.in_range(
            high(&l.w.valid),
            high(&l.w.ready),
        ) && self.b.in_range(high(&l.b.valid), high(&l.b.ready)) && self.ar.in_range(
            high(&l.ar.valid),
            high(&l.ar.ready),
        ) && self.r.in_range(high(&l.r.valid), high(&l.r.ready))
    }

    /// Forgets the handshakes but keeps the longest stalls.
    pub fn clear(&mut self)
        ensures
            final(self)@ == old(self)@.cleared(),
    {
        self.aw.clear();
        self.w.clear();
        self.b.clear();
        self.ar.clear();
        self.r.clear();
    }

    /// Holds a cycle to the stability rules and remembers it.
    pub fn check(&mut self, l: &Lanes) -> (r: Vec<LineFault>)
        requires
            old(self)@.can_follow(l@),
        ensures
            r@ == old(self)@.violations(l@),
            final(self)@ == old(self)@.after(l@),
    {
        let mut f: Vec<LineFault> = Vec::new();
        let aw = self.aw.check(high(&l.aw.valid), high(&l.aw.ready), l.aw.copy_payload());
        let w = self.w.check(high(&l.w.valid), high(&l.w.ready), l.w.copy_payload());
        let b = self.b.check(high(&l.b.valid), high(&l.b.ready), l.b.copy_payload());
        let ar = self.ar.check(high(&l.ar.valid), high(&l.ar.ready), l.ar.copy_payload());
        let r = self.r.check(high(&l.r.valid), high(&l.r.ready), l.r.copy_payload());
        report_unsteady(&mut f, Chan::Aw, aw);
        report_unsteady(&mut f, Chan::W, w);
        report_unsteady(&mut f, Chan::B, b);
        report_unsteady(&mut f, Chan::Ar, ar);
        report_unsteady(&mut f, Chan::R, r);
        assert(f@ =~= old(self)@.violations(l@));
        f
    }

    /// Looks for channels whose stall has just passed the limit.
    pub fn check_timeout(&self, timeout: Option<u64>) -> (r: Vec<LineFault>)
        ensures
            r@ == self@.timeouts(timeout),
    {
        let mut f: Vec<LineFault> = Vec::new();
        if let Some(limit) = timeout {
            let n: u64 = just_past(limit);
            report(&mut f, self.aw.stall_cycles() == n, LineFault::Timeout(Chan::Aw, limit));
            report(&mut f, self.w.stall_cycles() == n, LineFault::Timeout(Chan::W, limit));
            report(&mut f, self.b.stall_cycles() == n, LineFault::Timeout(Chan::B, limit));
            report(&mut f, self.ar.stall_cycles() == n, LineFault::Timeout(Chan::Ar, limit));
            report(&mut f, self.r.stall_cycles() == n, LineFault::Timeout(Chan::R, limit));
        }
        assert(f@ =~= self@.timeouts(timeout));
        f
    }

    /// The longest stall of any channel.
    pub fn max_stall(&self) -> (r: u64)
        ensures
            r == self@.max_stall(),
    {
        let n: u64 = max_of(self.aw.max_stall(), self.w.max_stall());
        let n: u64 = max_of(n, self.b.max_stall());
        let n: u64 = max_of(n, self.ar.max_stall());
        max_of(n, self.r.max_stall())
    }
}

/// Whether every VALID line is low.
pub open spec fn quiet(l: LanesView) -> bool {
    !l.aw.valid.high() && !l.w.valid.high() && !l.b.valid.high() && !l.ar.valid.high()
        && !l.r.valid.high()
}

/// Whether no channel was stalled in the last cycle.
pub open spec fn unstalled(m: MonitorView) -> bool {
    !m.aw.stalled && !m.w.stalled && !m.b.stalled && !m.ar.stalled && !m.r.stalled
}

/// A stalled channel is reported once: in a run of cycles that stall it, the
/// timeout comes with the cycle just past the limit and with no other.
pub proof fn lemma_timeout_comes_once(m: MonitorView, cycles: Seq<Cycle>, limit: u64)
    requires
        m.aw.stall_cycles == 0,
        forall|i: int|
            0 <= i < cycles.len() ==> (#[trigger] cycles[i]).valid && !cycles[i].ready,
        cycles.len() <= u64::MAX,
        limit < u64::MAX,
    ensures
        ({
            let t = MonitorView { aw: after_all(m.aw, cycles), ..m };
            t.timeouts(Some(limit)).contains(LineFault::Timeout(Chan::Aw, limit)) <==> cycles.len()
                == limit + 1
        }),
{
    let none = Cycle { valid: false, ready: false, payload: seq![] };
    lemma_stalls_are_counted(m.aw, cycles, none);
    let t = MonitorView { aw: after_all(m.aw, cycles), ..m };
    let f = t.timeouts(Some(limit));
    if t.aw.stall_cycles == past(limit) {
        assert(f[0] == LineFault::Timeout(Chan::Aw, limit));
    }
}

} // verus!
