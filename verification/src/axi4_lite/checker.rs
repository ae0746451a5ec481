//! Passive AXI4-Lite protocol checker.

use crate::axi4_lite::coverage::LiteCoverage;
use crate::axi4_lite::fault::{lines, report_lines, Axi4LiteFault};
use crate::collections::{Fifo, KeySet};
use crate::common::channel::views;
use crate::common::counting::{bump, bumped, just_past, past};
use crate::common::lanes::{align, aligned, bytes_for, lane_count};
use crate::common::latency::{latency_fits, latency_in_range, timed};
use crate::common::monitor::{
    check_lines, check_payloads, check_reset, high_in_reset, quiet, unknown_lines, unknown_payloads,
    unstalled, Chan, Lane, LaneView, Lanes, LanesView, LineFault, Monitor, MonitorView,
};
use crate::common::report::{only_if, report};
use crate::common::resp::EXOKAY;
use crate::common::setup::{find_too_wide, too_wide, BuildError};
use crate::common::words::{fold_words, high, is_set, number, or_all, words_of};
use crate::value::Value;
use vstd::prelude::*;

verus! {

/// The signals of an AXI4-Lite bus in one cycle, as a monitor sees them.
pub struct Axi4LiteMonitorPorts {
    pub awvalid: Value,
    pub awready: Value,
    pub awaddr: Value,
    pub awprot: Value,
    pub wvalid: Value,
    pub wready: Value,
    pub wdata: Value,
    pub wstrb: Value,
    pub bvalid: Value,
    pub bready: Value,
    pub bresp: Value,
    pub arvalid: Value,
    pub arready: Value,
    pub araddr: Value,
    pub arprot: Value,
    pub rvalid: Value,
    pub rready: Value,
    pub rdata: Value,
    pub rresp: Value,
}

impl Axi4LiteMonitorPorts {
    /// The five channels. AxPROT is ignored.
    pub open spec fn channels(self) -> LanesView {
        LanesView {
            aw: LaneView {
                valid: self.awvalid@,
                ready: self.awready@,
                payload: seq![self.awaddr@],
            },
            w: LaneView {
                valid: self.wvalid@,
                ready: self.wready@,
                payload: seq![self.wdata@, self.wstrb@],
            },
            b: LaneView { valid: self.bvalid@, ready: self.bready@, payload: seq![self.bresp@] },
            ar: LaneView {
                valid: self.arvalid@,
                ready: self.arready@,
                payload: seq![self.araddr@],
            },
            r: LaneView {
                valid: self.rvalid@,
                ready: self.rready@,
                payload: seq![self.rdata@, self.rresp@],
            },
        }
    }

    fn lanes(&self) -> (r: Lanes)
        ensures
            r@ == self.channels(),
    {
        let r = Lanes {
            aw: Lane {
                valid: self.awvalid.copy(),
                ready: self.awready.copy(),
                payload: vec![self.awaddr.copy()],
            },
            w: Lane {
                valid: self.wvalid.copy(),
                ready: self.wready.copy(),
                payload: vec![self.wdata.copy(), self.wstrb.copy()],
            },
            b: Lane {
                valid: self.bvalid.copy(),
                ready: self.bready.copy(),
                payload: vec![self.bresp.copy()],
            },
            ar: Lane {
                valid: self.arvalid.copy(),
                ready: self.arready.copy(),
                payload: vec![self.araddr.copy()],
            },
            r: Lane {
                valid: self.rvalid.copy(),
                ready: self.rready.copy(),
                payload: vec![self.rdata.copy(), self.rresp.copy()],
            },
        };
        assert(views(r.aw.payload@) =~= self.channels().aw.payload);
        assert(views(r.w.payload@) =~= self.channels().w.payload);
        assert(views(r.b.payload@) =~= self.channels().b.payload);
        assert(views(r.ar.payload@) =~= self.channels().ar.payload);
        assert(views(r.r.payload@) =~= self.channels().r.payload);
        r
    }
}

/// The handshakes of each channel since the last reset.
#[derive(Clone, Copy, Debug, PartialEq, Eq, Structural)]
pub struct Handshakes {
    pub aw: u64,
    pub w: u64,
    pub b: u64,
    pub ar: u64,
    pub r: u64,
}

impl Handshakes {
    /// None.
    pub open spec fn zero() -> Handshakes {
        Handshakes { aw: 0, w: 0, b: 0, ar: 0, r: 0 }
    }

    /// Whether the handshakes of a cycle can be counted.
    pub open spec fn can_follow(self, l: LanesView) -> bool {
        &&& l.aw.fires() ==> self.aw < u64::MAX
        &&& l.w.fires() ==> self.w < u64::MAX
        &&& l.b.fires() ==> self.b < u64::MAX
        &&& l.ar.fires() ==> self.ar < u64::MAX
        &&& l.r.fires() ==> self.r < u64::MAX
    }

    /// After a cycle.
    pub open spec fn after(self, l: LanesView) -> Handshakes {
        Handshakes {
            aw: bumped(self.aw, l.aw.fires()),
            w: bumped(self.w, l.w.fires()),
            b: bumped(self.b, l.b.fires()),
            ar: bumped(self.ar, l.ar.fires()),
            r: bumped(self.r, l.r.fires()),
        }
    }

    /// The writes whose address and data have both been handed over.
    pub open spec fn requested_writes(self) -> u64 {
        if self.aw < self.w {
            self.aw
        } else {
            self.w
        }
    }

    /// The transactions requested and not answered.
    pub open spec fn outstanding(self) -> int {
        (if self.requested_writes() > self.b {
            self.requested_writes() - self.b
        } else {
            0
        }) + (if self.ar > self.r {
            self.ar - self.r
        } else {
            0
        })
    }

    fn in_range(&self, l: &Lanes) -> (r: bool)
        ensures
            r == self.can_follow(l@),
    {
        (!l.aw.fires() || self.aw < u64::MAX) && (!l.w.fires() || self.w < u64::MAX) && (
        !l.b.fires() || self.b < u64::MAX) && (!l.ar.fires() || self.ar < u64::MAX) && (
        !l.r.fires() || self.r < u64::MAX)
    }

    fn count(&mut self, l: &Lanes)
        requires
            old(self).can_follow(l@),
        ensures
            *final(self) == old(self).after(l@),
    {
        self.aw = bump(self.aw, l.aw.fires());
        self.w = bump(self.w, l.w.fires());
        self.b = bump(self.b, l.b.fires());
        self.ar = bump(self.ar, l.ar.fires());
        self.r = bump(self.r, l.r.fires());
    }

    fn writes(&self) -> (r: u64)
        ensures
            r == self.requested_writes(),
    {
        if self.aw < self.w {
            self.aw
        } else {
            self.w
        }
    }

    fn pending(&self) -> (r: Option<u64>)
        ensures
            r is Some <==> self.outstanding() <= u64::MAX,
            r matches Some(n) ==> n == self.outstanding(),
    {
        let w: u64 = self.writes().saturating_sub(self.b);
        let r: u64 = self.ar.saturating_sub(self.r);
        w.checked_add(r)
    }
}

/// What an [`Axi4LiteChecker`] knows.
#[verifier::ext_equal]
pub ghost struct Axi4LiteCheckerView {
    /// The data width of the bus.
    pub width: u32,
    /// The cycles a channel may stall.
    pub timeout: Option<u64>,
    /// The cycles the bus may idle with work outstanding.
    pub liveness: Option<u64>,
    pub lines: MonitorView,
    pub done: Handshakes,
    pub seen: LiteCoverage,
    /// The addresses seen.
    pub distinct: Set<u64>,
    /// The cycles in which the unanswered writes were requested.
    pub aw_cycles: Seq<u64>,
    /// The cycles in which the unanswered reads were requested.
    pub ar_cycles: Seq<u64>,
    pub idle_cycles: u64,
}

/// The first item of a queue.
pub open spec fn first(q: Seq<u64>) -> Option<u64> {
    if q.len() > 0 {
        Some(q[0])
    } else {
        None
    }
}

/// A queue of request cycles after a cycle with or without a request and a
/// response.
pub open spec fn requests(q: Seq<u64>, request: bool, response: bool, now: u64) -> Seq<u64> {
    let asked = if request {
        q.push(now)
    } else {
        q
    };
    if response && asked.len() > 0 {
        asked.drop_first()
    } else {
        asked
    }
}

/// The request that a response in this cycle answers.
pub open spec fn answers(q: Seq<u64>, request: bool, response: bool, now: u64) -> Option<u64> {
    if !response {
        None
    } else if q.len() == 0 && request {
        Some(now)
    } else {
        first(q)
    }
}

fn track(q: &mut Fifo<u64>, request: bool, response: bool, now: u64) -> (r: Option<u64>)
    ensures
        final(q)@ == requests(old(q)@, request, response, now),
        r == answers(old(q)@, request, response, now),
{
    if request {
        q.push_back(now);
    }
    if response {
        q.pop_front()
    } else {
        None
    }
}

fn answered(q: &Fifo<u64>, request: bool, response: bool, now: u64) -> (r: Option<u64>)
    ensures
        r == answers(q@, request, response, now),
{
    if !response {
        None
    } else if !q.is_empty() {
        Some(*q.at(0))
    } else if request {
        Some(now)
    } else {
        None
    }
}

/// What was seen, with the payloads of a cycle.
pub open spec fn noted(seen: LiteCoverage, p: Axi4LiteMonitorPorts) -> LiteCoverage {
    let l = p.channels();
    let s1 = if l.aw.fires() {
        seen.with_addr(p.awaddr@.number_or_zero())
    } else {
        seen
    };
    let s2 = if l.ar.fires() {
        s1.with_addr(p.araddr@.number_or_zero())
    } else {
        s1
    };
    let s3 = if l.w.fires() {
        s2.with_strobe(or_all(words_of(p.wstrb@)))
    } else {
        s2
    };
    let s4 = if l.b.fires() {
        s3.with_resp(p.bresp@.number_or_zero())
    } else {
        s3
    };
    if l.r.fires() {
        s4.with_resp(p.rresp@.number_or_zero())
    } else {
        s4
    }
}

/// Whether the payloads of a cycle can be counted.
pub open spec fn can_note(seen: LiteCoverage, p: Axi4LiteMonitorPorts) -> bool {
    let l = p.channels();
    &&& l.w.fires() ==> seen.takes_strobe(or_all(words_of(p.wstrb@)))
    &&& l.b.fires() ==> seen.takes_resp(p.bresp@.number_or_zero())
    &&& l.r.fires() ==> (if l.b.fires() {
        seen.with_resp(p.bresp@.number_or_zero())
    } else {
        seen
    }).takes_resp(p.rresp@.number_or_zero())
}

impl Axi4LiteCheckerView {
    /// The state of a checker that has seen no cycle.
    pub open spec fn fresh(width: u32, timeout: Option<u64>, liveness: Option<u64>) -> Self {
        Axi4LiteCheckerView {
            width,
            timeout,
            liveness,
            lines: MonitorView::fresh(),
            done: Handshakes::zero(),
            seen: LiteCoverage::empty(),
            distinct: Set::empty(),
            aw_cycles: seq![],
            ar_cycles: seq![],
            idle_cycles: 0,
        }
    }

    /// The state after a reset: in-flight transactions are dropped, so that
    /// they do not count as outstanding, and what was seen stays.
    pub open spec fn reset(self) -> Self {
        Axi4LiteCheckerView {
            lines: self.lines.cleared(),
            done: Handshakes::zero(),
            aw_cycles: seq![],
            ar_cycles: seq![],
            idle_cycles: 0,
            ..self
        }
    }

    /// What was seen, with the latencies of a cycle.
    pub open spec fn seen_timed(self, l: LanesView, now: u64) -> LiteCoverage {
        LiteCoverage {
            write_lat: timed(
                self.seen.write_lat,
                answers(self.aw_cycles, l.aw.fires(), l.b.fires(), now),
                now,
            ),
            read_lat: timed(
                self.seen.read_lat,
                answers(self.ar_cycles, l.ar.fires(), l.r.fires(), now),
                now,
            ),
            ..self.seen
        }
    }

    /// What was seen, after a cycle.
    pub open spec fn seen_after(self, p: Axi4LiteMonitorPorts, now: u64) -> LiteCoverage {
        let l = p.channels();
        noted(self.seen_timed(l, now), p).with_outstanding(
            self.done.after(l).outstanding() as u64,
        )
    }

    /// The addresses seen, after a cycle.
    pub open spec fn distinct_after(self, p: Axi4LiteMonitorPorts) -> Set<u64> {
        let l = p.channels();
        let d = if l.aw.fires() {
            self.distinct.insert(p.awaddr@.number_or_zero())
        } else {
            self.distinct
        };
        if l.ar.fires() {
            d.insert(p.araddr@.number_or_zero())
        } else {
            d
        }
    }

    /// Whether a cycle has no handshake at all while work is outstanding.
    pub open spec fn idles(self, l: LanesView) -> bool {
        self.done.after(l).outstanding() > 0 && !l.aw.fires() && !l.w.fires() && !l.b.fires()
            && !l.ar.fires() && !l.r.fires()
    }

    /// The cycles in a row without any handshake while work is outstanding.
    pub open spec fn idle_after(self, l: LanesView) -> u64 {
        if self.idles(l) {
            (self.idle_cycles + 1) as u64
        } else {
            0
        }
    }

    /// The state after a cycle.
    pub open spec fn clocked(self, rst: bool, p: Axi4LiteMonitorPorts, now: u64) -> Self {
        let l = p.channels();
        if rst {
            self.reset()
        } else {
            Axi4LiteCheckerView {
                lines: self.lines.after(l),
                done: self.done.after(l),
                seen: self.seen_after(p, now),
                distinct: self.distinct_after(p),
                aw_cycles: requests(self.aw_cycles, l.aw.fires(), l.b.fires(), now),
                ar_cycles: requests(self.ar_cycles, l.ar.fires(), l.r.fires(), now),
                idle_cycles: self.idle_after(l),
                ..self
            }
        }
    }

    /// The faults of the transactions in a cycle.
    pub open spec fn order_faults(self, p: Axi4LiteMonitorPorts) -> Seq<Axi4LiteFault> {
        let l = p.channels();
        let lanes = lane_count(self.width);
        let aw = p.awaddr@.number_or_zero();
        let ar = p.araddr@.number_or_zero();
        let done = self.done.after(l);
        only_if(l.aw.fires() && aligned(aw, lanes) != aw, Axi4LiteFault::Unaligned(Chan::Aw, aw))
            + only_if(
            l.ar.fires() && aligned(ar, lanes) != ar,
            Axi4LiteFault::Unaligned(Chan::Ar, ar),
        ) + only_if(done.b > done.requested_writes(), Axi4LiteFault::EarlyWriteResponse) + only_if(
            done.r > done.ar,
            Axi4LiteFault::EarlyReadResponse,
        )
    }

    /// The EXOKAY responses in a cycle, none of which is legal.
    pub open spec fn exokay_faults(self, p: Axi4LiteMonitorPorts) -> Seq<Axi4LiteFault> {
        only_if(
            p.bvalid@.high() && p.bresp@.number_or_zero() == EXOKAY,
            Axi4LiteFault::Exokay(Chan::B),
        ) + only_if(
            p.rvalid@.high() && p.rresp@.number_or_zero() == EXOKAY,
            Axi4LiteFault::Exokay(Chan::R),
        )
    }

    /// The deadlock that a cycle completes.
    pub open spec fn deadlock(self, l: LanesView) -> Seq<Axi4LiteFault> {
        match self.liveness {
            Some(limit) => only_if(
                self.idle_after(l) == past(limit),
                Axi4LiteFault::Deadlock(limit),
            ),
            None => seq![],
        }
    }

    /// The rules that a cycle breaks, in the order they are reported.
    pub open spec fn faults(self, rst: bool, p: Axi4LiteMonitorPorts, four_state: bool) -> Seq<
        Axi4LiteFault,
    > {
        let l = p.channels();
        if rst {
            lines(high_in_reset(l))
        } else {
            lines(
                if four_state {
                    unknown_payloads(l)
                } else {
                    seq![]
                },
            ) + lines(self.lines.violations(l)) + self.exokay_faults(p) + lines(
                if four_state {
                    unknown_lines(l)
                } else {
                    seq![]
                },
            ) + self.order_faults(p) + lines(self.lines.after(l).timeouts(self.timeout))
                + self.deadlock(l)
        }
    }

    /// Whether the counts of a cycle fit in 64 bits.
    pub open spec fn can_clock(self, rst: bool, p: Axi4LiteMonitorPorts, now: u64) -> bool {
        let l = p.channels();
        !rst ==> {
            &&& self.lines.can_follow(l)
            &&& self.done.can_follow(l)
            &&& self.done.after(l).outstanding() <= u64::MAX
            &&& self.idles(l) ==> self.idle_cycles < u64::MAX
            &&& can_note(self.seen, p)
            &&& latency_fits(
                answers(self.aw_cycles, l.aw.fires(), l.b.fires(), now),
                now,
                self.seen.write_lat,
            )
            &&& latency_fits(
                answers(self.ar_cycles, l.ar.fires(), l.r.fires(), now),
                now,
                self.seen.read_lat,
            )
        }
    }
}

/// Passive AXI4-Lite protocol checker. It holds every cycle to the handshake
/// and response rules and reports what it has seen.
pub struct Axi4LiteChecker {
    width: u32,
    timeout: Option<u64>,
    liveness: Option<u64>,
    lines: Monitor,
    done: Handshakes,
    seen: LiteCoverage,
    distinct: KeySet,
    aw_cycles: Fifo<u64>,
    ar_cycles: Fifo<u64>,
    idle_cycles: u64,
}

impl View for Axi4LiteChecker {
    type V = Axi4LiteCheckerView;

    closed spec fn view(&self) -> Axi4LiteCheckerView {
        Axi4LiteCheckerView {
            width: self.width,
            timeout: self.timeout,
            liveness: self.liveness,
            lines: self.lines@,
            done: self.done,
            seen: self.seen,
            distinct: self.distinct@,
            aw_cycles: self.aw_cycles@,
            ar_cycles: self.ar_cycles@,
            idle_cycles: self.idle_cycles,
        }
    }
}

impl Axi4LiteChecker {
    /// A checker of a bus with these port widths. An address port wider than
    /// 64 bits is refused.
    pub fn on_build(
        awaddr: u32,
        araddr: u32,
        width: u32,
        timeout: Option<u64>,
        liveness: Option<u64>,
    ) -> (r: Result<Axi4LiteChecker, BuildError>)
        ensures
            match r {
                Ok(c) => too_wide("axi4_lite_checker", awaddr, araddr) is None && c@
                    == Axi4LiteCheckerView::fresh(width, timeout, liveness),
                Err(e) => too_wide("axi4_lite_checker", awaddr, araddr) == Some(e),
            },
    {
        match find_too_wide("axi4_lite_checker", awaddr, araddr) {
            Some(e) => Err(e),
            None => Ok(
                Axi4LiteChecker {
                    width,
                    timeout,
                    liveness,
                    lines: Monitor::new(),
                    done: Handshakes { aw: 0, w: 0, b: 0, ar: 0, r: 0 },
                    seen: LiteCoverage::new(),
                    distinct: KeySet::new(),
                    aw_cycles: Fifo::new(),
                    ar_cycles: Fifo::new(),
                    idle_cycles: 0,
                },
            ),
        }
    }

    /// Whether the counts of a cycle fit in 64 bits.
    pub fn in_range(&self, rst: &Value, axi: &Axi4LiteMonitorPorts, now: u64) -> (r: bool)
        ensures
            r == self@.can_clock(rst@.truth(), *axi, now),
    {
        if is_set(rst) {
            return true;
        }
        let l = axi.lanes();
        if !self.lines.in_range(&l) || !self.done.in_range(&l) || !self.payloads_in_range(axi, &l) {
            return false;
        }
        let mut done = self.done;
        done.count(&l);
        let idles = match done.pending() {
            Some(n) => n > 0 && !l.aw.fires() && !l.w.fires() && !l.b.fires() && !l.ar.fires()
                && !l.r.fires(),
            None => {
                return false;
            },
        };
        (!idles || self.idle_cycles < u64::MAX) && latency_in_range(
            answered(&self.aw_cycles, l.aw.fires(), l.b.fires(), now),
            now,
            &self.seen.write_lat,
        ) && latency_in_range(
            answered(&self.ar_cycles, l.ar.fires(), l.r.fires(), now),
            now,
            &self.seen.read_lat,
        )
    }

    fn payloads_in_range(&self, p: &Axi4LiteMonitorPorts, l: &Lanes) -> (r: bool)
        requires
            l@ == p.channels(),
        ensures
            r == can_note(self@.seen, *p),
    {
        let mut seen = self.seen;
        if l.w.fires() && fold_words(&p.wstrb) == 0 && seen.noop_writes == u64::MAX {
            return false;
        }
        if l.b.fires() {
            let code: u64 = number(&p.bresp);
            if !seen.resp_in_range(code) {
                return false;
            }
            seen.note_resp(code);
        }
        !l.r.fires() || seen.resp_in_range(number(&p.rresp))
    }

    fn clear(&mut self)
        ensures
            final(self)@ == old(self)@.reset(),
    {
        self.lines.clear();
        self.done = Handshakes { aw: 0, w: 0, b: 0, ar: 0, r: 0 };
        self.aw_cycles.clear();
        self.ar_cycles.clear();
        self.idle_cycles = 0;
    }

    fn check_exokay(&self, p: &Axi4LiteMonitorPorts, f: &mut Vec<Axi4LiteFault>)
        ensures
            final(f)@ == old(f)@ + self@.exokay_faults(*p),
    {
        report(
            f,
            high(&p.bvalid) && number(&p.bresp) == EXOKAY,
            Axi4LiteFault::Exokay(Chan::B),
        );
        report(
            f,
            high(&p.rvalid) && number(&p.rresp) == EXOKAY,
            Axi4LiteFault::Exokay(Chan::R),
        );
        assert(f@ =~= old(f)@ + self@.exokay_faults(*p));
    }

    fn check_order(&mut self, p: &Axi4LiteMonitorPorts, l: &Lanes, f: &mut Vec<Axi4LiteFault>)
        requires
            l@ == p.channels(),
            old(self)@.done.can_follow(l@),
        ensures
            final(self)@ == (Axi4LiteCheckerView { done: old(self)@.done.after(l@), ..old(self)@ }),
            final(f)@ == old(f)@ + old(self)@.order_faults(*p),
    {
        let lanes: u64 = bytes_for(self.width);
        let aw: u64 = number(&p.awaddr);
        let ar: u64 = number(&p.araddr);
        report(
            f,
            l.aw.fires() && align(aw, lanes) != aw,
            Axi4LiteFault::Unaligned(Chan::Aw, aw),
        );
        report(
            f,
            l.ar.fires() && align(ar, lanes) != ar,
            Axi4LiteFault::Unaligned(Chan::Ar, ar),
        );
        self.done.count(l);
        report(f, self.done.b > self.done.writes(), Axi4LiteFault::EarlyWriteResponse);
        report(f, self.done.r > self.done.ar, Axi4LiteFault::EarlyReadResponse);
        assert(f@ =~= old(f)@ + old(self)@.order_faults(*p));
    }

    fn note_latency(&mut self, l: &Lanes, now: u64)
        requires
            latency_fits(
                answers(old(self)@.aw_cycles, l@.aw.fires(), l@.b.fires(), now),
                now,
                old(self)@.seen.write_lat,
            ),
            latency_fits(
                answers(old(self)@.ar_cycles, l@.ar.fires(), l@.r.fires(), now),
                now,
                old(self)@.seen.read_lat,
            ),
        ensures
            final(self)@ == (Axi4LiteCheckerView {
                aw_cycles: requests(old(self)@.aw_cycles, l@.aw.fires(), l@.b.fires(), now),
                ar_cycles: requests(old(self)@.ar_cycles, l@.ar.fires(), l@.r.fires(), now),
                seen: old(self)@.seen_timed(l@, now),
                ..old(self)@
            }),
    {
        let w = track(&mut self.aw_cycles, l.aw.fires(), l.b.fires(), now);
        let r = track(&mut self.ar_cycles, l.ar.fires(), l.r.fires(), now);
        if let Some(s) = w {
            self.seen.write_lat.record(now - s);
        }
        if let Some(s) = r {
            self.seen.read_lat.record(now - s);
        }
    }

    fn note_payloads(&mut self, p: &Axi4LiteMonitorPorts, l: &Lanes)
        requires
            l@ == p.channels(),
            can_note(old(self)@.seen, *p),
        ensures
            final(self)@ == (Axi4LiteCheckerView {
                seen: noted(old(self)@.seen, *p),
                distinct: old(self)@.distinct_after(*p),
                ..old(self)@
            }),
    {
        if l.aw.fires() {
            self.distinct.insert(number(&p.awaddr));
            self.seen.note_addr(number(&p.awaddr));
        }
        if l.ar.fires() {
            self.distinct.insert(number(&p.araddr));
            self.seen.note_addr(number(&p.araddr));
        }
        if l.w.fires() {
            self.seen.note_strobe(fold_words(&p.wstrb));
        }
        if l.b.fires() {
            self.seen.note_resp(number(&p.bresp));
        }
        if l.r.fires() {
            self.seen.note_resp(number(&p.rresp));
        }
    }

    /// Checks one cycle; the result is the rules it breaks.
    pub fn on_clock(
        &mut self,
        rst: &Value,
        axi: &Axi4LiteMonitorPorts,
        four_state: bool,
        now: u64,
    ) -> (r: Vec<Axi4LiteFault>)
        requires
            old(self)@.can_clock(rst@.truth(), *axi, now),
        ensures
            final(self)@ == old(self)@.clocked(rst@.truth(), *axi, now),
            final(self)@.done.outstanding() <= u64::MAX,
            r@ == old(self)@.faults(rst@.truth(), *axi, four_state),
    {
        let l = axi.lanes();
        let mut f: Vec<Axi4LiteFault> = Vec::new();
        if is_set(rst) {
            report_lines(&mut f, &check_reset(&l));
            self.clear();
            assert(f@ =~= lines(high_in_reset(l@)));
            return f;
        }
        assert(lines(Seq::<LineFault>::empty()) =~= Seq::<Axi4LiteFault>::empty());
        if four_state {
            report_lines(&mut f, &check_payloads(&l));
        }
        report_lines(&mut f, &self.lines.check(&l));
        self.check_exokay(axi, &mut f);
        if four_state {
            report_lines(&mut f, &check_lines(&l));
        }
        self.check_order(axi, &l, &mut f);
        report_lines(&mut f, &self.lines.check_timeout(self.timeout));
        self.note_latency(&l, now);
        self.note_payloads(axi, &l);
        let outstanding: u64 = self.outstanding();
        self.seen.note_outstanding(outstanding);
        if outstanding > 0 && !l.aw.fires() && !l.w.fires() && !l.b.fires() && !l.ar.fires()
            && !l.r.fires() {
            self.idle_cycles = self.idle_cycles + 1;
        } else {
            self.idle_cycles = 0;
        }
        if let Some(limit) = self.liveness {
            report(
                &mut f,
                self.idle_cycles == just_past(limit),
                Axi4LiteFault::Deadlock(limit),
            );
        }
        assert(f@ =~= old(self)@.faults(false, *axi, four_state));
        f
    }

    /// The transactions requested and not answered.
    pub fn outstanding(&self) -> (r: u64)
        requires
            self@.done.outstanding() <= u64::MAX,
        ensures
            r == self@.done.outstanding(),
    {
        match self.done.pending() {
            Some(n) => n,
            None => 0,
        }
    }

    /// The report of what was seen.
    pub fn summary(&self) -> (r: String)
        ensures
            r@ == self@.seen.text(
                self@.done.b,
                self@.done.r,
                self@.distinct.len() as u64,
                self@.lines.max_stall(),
            ),
    {
        self.seen.summary(
            self.done.b,
            self.done.r,
            self.distinct.len() as u64,
            self.lines.max_stall(),
        )
    }
}

/// A bus on which nothing happens, with nothing outstanding, breaks no rule,
/// and it never counts as idle.
pub proof fn lemma_idle_bus_is_quiet(s: Axi4LiteCheckerView, p: Axi4LiteMonitorPorts, now: u64)
    requires
        quiet(p.channels()),
        unstalled(s.lines),
        s.done.outstanding() == 0,
        s.done.b <= s.done.requested_writes(),
        s.done.r <= s.done.ar,
    ensures
        s.faults(false, p, false) == Seq::<Axi4LiteFault>::empty(),
        s.clocked(false, p, now).done == s.done,
        s.clocked(false, p, now).idle_cycles == 0,
        unstalled(s.clocked(false, p, now).lines),
{
    let l = p.channels();
    assert(s.lines.violations(l) =~= seq![]);
    assert(s.lines.after(l).timeouts(s.timeout) =~= seq![]) by {
        if let Some(limit) = s.timeout {
            assert(s.lines.after(l).aw.stall_cycles == 0);
        }
    }
    assert(s.faults(false, p, false) =~= Seq::<Axi4LiteFault>::empty());
}

/// A reset drops what is in flight: nothing is outstanding after it, no
/// cycle counts as idle, and the cycle after it breaks no stability rule.
pub proof fn lemma_reset_drops_transactions(
    s: Axi4LiteCheckerView,
    p: Axi4LiteMonitorPorts,
    q: Axi4LiteMonitorPorts,
    now: u64,
)
    ensures
        ({
            let t = s.clocked(true, p, now);
            &&& t.done.outstanding() == 0
            &&& t.idle_cycles == 0
            &&& t.aw_cycles.len() == 0 && t.ar_cycles.len() == 0
            &&& t.seen == s.seen
            &&& t.distinct == s.distinct
            &&& t.lines.violations(q.channels()) == Seq::<LineFault>::empty()
        }),
{
    let t = s.clocked(true, p, now);
    assert(t.lines.violations(q.channels()) =~= seq![]);
}

/// A run of cycles without reset.
pub open spec fn run(s: Axi4LiteCheckerView, cycles: Seq<(Axi4LiteMonitorPorts, u64)>) ->
    Axi4LiteCheckerView
    decreases cycles.len(),
{
    if cycles.len() == 0 {
        s
    } else {
        run(s, cycles.drop_last()).clocked(false, cycles.last().0, cycles.last().1)
    }
}

/// After a reset, a bus on which nothing happens is never reported, however
/// long it stays idle: dropped transactions do not read as a deadlock.
pub proof fn lemma_no_deadlock_after_reset(
    s: Axi4LiteCheckerView,
    p: Axi4LiteMonitorPorts,
    now: u64,
    cycles: Seq<(Axi4LiteMonitorPorts, u64)>,
    next: Axi4LiteMonitorPorts,
)
    requires
        forall|i: int| 0 <= i < cycles.len() ==> quiet((#[trigger] cycles[i]).0.channels()),
        quiet(next.channels()),
    ensures
        run(s.clocked(true, p, now), cycles).faults(false, next, false) == Seq::<
            Axi4LiteFault,
        >::empty(),
{
    lemma_quiet_run(s.clocked(true, p, now), cycles);
    lemma_idle_bus_is_quiet(run(s.clocked(true, p, now), cycles), next, 0);
}

proof fn lemma_quiet_run(s: Axi4LiteCheckerView, cycles: Seq<(Axi4LiteMonitorPorts, u64)>)
    requires
        forall|i: int| 0 <= i < cycles.len() ==> quiet((#[trigger] cycles[i]).0.channels()),
        unstalled(s.lines),
        s.done == Handshakes::zero(),
    ensures
        unstalled(run(s, cycles).lines),
        run(s, cycles).done == Handshakes::zero(),
    decreases cycles.len(),
{
    if cycles.len() > 0 {
        let rest = cycles.drop_last();
        assert forall|i: int| 0 <= i < rest.len() implies quiet(
            (#[trigger] rest[i]).0.channels(),
        ) by {
            assert(rest[i] == cycles[i]);
        }
        lemma_quiet_run(s, rest);
        let last = cycles[cycles.len() - 1];
        assert(quiet(last.0.channels()));
    }
}

/// Whether a channel hands its payload over.
pub open spec fn fires(l: LanesView, c: Chan) -> bool {
    match c {
        Chan::Aw => l.aw.fires(),
        Chan::W => l.w.fires(),
        Chan::B => l.b.fires(),
        Chan::Ar => l.ar.fires(),
        Chan::R => l.r.fires(),
    }
}

/// How many of the cycles hand over a payload on a channel.
pub open spec fn handovers(cycles: Seq<(Axi4LiteMonitorPorts, u64)>, c: Chan) -> nat
    decreases cycles.len(),
{
    if cycles.len() == 0 {
        0
    } else {
        handovers(cycles.drop_last(), c) + (if fires(cycles.last().0.channels(), c) {
            1nat
        } else {
            0nat
        })
    }
}

/// The counts of a run from a reset are the handovers of that run.
pub proof fn lemma_handovers_are_counted(
    s: Axi4LiteCheckerView,
    cycles: Seq<(Axi4LiteMonitorPorts, u64)>,
)
    requires
        s.done == Handshakes::zero(),
        cycles.len() <= u64::MAX,
    ensures
        run(s, cycles).done.aw == handovers(cycles, Chan::Aw) <= cycles.len(),
        run(s, cycles).done.w == handovers(cycles, Chan::W) <= cycles.len(),
        run(s, cycles).done.b == handovers(cycles, Chan::B) <= cycles.len(),
        run(s, cycles).done.ar == handovers(cycles, Chan::Ar) <= cycles.len(),
        run(s, cycles).done.r == handovers(cycles, Chan::R) <= cycles.len(),
    decreases cycles.len(),
{
    if cycles.len() > 0 {
        lemma_handovers_are_counted(s, cycles.drop_last());
    }
}

/// A response may not overtake its request: a cycle is faulted for one
/// exactly when, with it, more responses than requests have been handed over
/// since the reset. A write is requested by its address and its data.
pub proof fn lemma_early_responses_are_reported(
    s: Axi4LiteCheckerView,
    cycles: Seq<(Axi4LiteMonitorPorts, u64)>,
    p: Axi4LiteMonitorPorts,
    now: u64,
)
    requires
        s.done == Handshakes::zero(),
        cycles.len() < u64::MAX,
    ensures
        ({
            let all = cycles.push((p, now));
            let f = run(s, cycles).order_faults(p);
            &&& f.contains(Axi4LiteFault::EarlyWriteResponse) <==> handovers(all, Chan::B)
                > handovers(all, Chan::Aw) || handovers(all, Chan::B) > handovers(all, Chan::W)
            &&& f.contains(Axi4LiteFault::EarlyReadResponse) <==> handovers(all, Chan::R)
                > handovers(all, Chan::Ar)
        }),
{
    let all = cycles.push((p, now));
    assert(all.drop_last() =~= cycles);
    lemma_handovers_are_counted(s, cycles);
    let t = run(s, cycles);
    let l = p.channels();
    let lanes = lane_count(t.width);
    let (aw, ar) = (p.awaddr@.number_or_zero(), p.araddr@.number_or_zero());
    let done = t.done.after(l);
    let a = only_if(
        l.aw.fires() && aligned(aw, lanes) != aw,
        Axi4LiteFault::Unaligned(Chan::Aw, aw),
    );
    let b = only_if(
        l.ar.fires() && aligned(ar, lanes) != ar,
        Axi4LiteFault::Unaligned(Chan::Ar, ar),
    );
    let c = only_if(done.b > done.requested_writes(), Axi4LiteFault::EarlyWriteResponse);
    let d = only_if(done.r > done.ar, Axi4LiteFault::EarlyReadResponse);
    let f = t.order_faults(p);
    assert(f == a + b + c + d);
    if done.b > done.requested_writes() {
        assert(f[(a + b).len() as int] == Axi4LiteFault::EarlyWriteResponse);
    }
    if done.r > done.ar {
        assert(f[(a + b + c).len() as int] == Axi4LiteFault::EarlyReadResponse);
    }
}

/// A deadlock is reported once: in a run of cycles without any handshake while
/// work is outstanding, it comes with the cycle just past the limit and with no
/// other.
pub proof fn lemma_deadlock_comes_once(
    s: Axi4LiteCheckerView,
    limit: u64,
    cycles: Seq<(Axi4LiteMonitorPorts, u64)>,
    next: Axi4LiteMonitorPorts,
)
    requires
        s.liveness == Some(limit),
        s.idle_cycles == 0,
        s.done.outstanding() > 0,
        cycles.len() < u64::MAX,
        limit < u64::MAX,
        forall|i: int| 0 <= i < cycles.len() ==> handless((#[trigger] cycles[i]).0.channels()),
        handless(next.channels()),
    ensures
        run(s, cycles).deadlock(next.channels()).len() > 0 <==> cycles.len() == limit,
{
    lemma_idle_cycles_are_counted(s, cycles);
}

/// Whether a cycle has no handshake.
pub open spec fn handless(l: LanesView) -> bool {
    !l.aw.fires() && !l.w.fires() && !l.b.fires() && !l.ar.fires() && !l.r.fires()
}

proof fn lemma_idle_cycles_are_counted(
    s: Axi4LiteCheckerView,
    cycles: Seq<(Axi4LiteMonitorPorts, u64)>,
)
    requires
        s.idle_cycles == 0,
        s.done.outstanding() > 0,
        cycles.len() < u64::MAX,
        forall|i: int| 0 <= i < cycles.len() ==> handless((#[trigger] cycles[i]).0.channels()),
    ensures
        run(s, cycles).idle_cycles == cycles.len(),
        run(s, cycles).done == s.done,
        run(s, cycles).liveness == s.liveness,
    decreases cycles.len(),
{
    if cycles.len() > 0 {
        let rest = cycles.drop_last();
        assert forall|i: int| 0 <= i < rest.len() implies handless(
            (#[trigger] rest[i]).0.channels(),
        ) by {
            assert(rest[i] == cycles[i]);
        }
        lemma_idle_cycles_are_counted(s, rest);
        assert(handless(cycles[cycles.len() - 1].0.channels()));
    }
}

} // verus!
