//! Passive AXI3 protocol checker.

use crate::axi3::coverage::Axi3Coverage;
use crate::axi3::fault::{lines, report_lines, Axi3Fault};
use crate::axi3::rules::Announced;
use crate::collections::{front_of, lemma_front_after_queued};
use crate::common::channel::views;
use crate::common::counting::{bump, bumped};
use crate::common::lanes::{bytes_for, lane_count};
use crate::common::latency::{latency_fits, latency_in_range, timed};
use crate::common::monitor::{
    check_lines, check_payloads, check_reset, high_in_reset, quiet, unknown_lines, unknown_payloads,
    unstalled, Chan, Lane, LaneView, Lanes, LanesView, LineFault, Monitor, MonitorView,
};
use crate::common::report::{only_if, report, report_all};
use crate::common::resp::EXOKAY;
use crate::common::setup::{find_too_wide, too_wide, BuildError};
use crate::common::traffic::{count_of, Traffic, TrafficView};
use crate::common::words::{high, is_set, number};
use crate::value::Value;
use vstd::prelude::*;

verus! {

/// The signals of an AXI3 bus in one cycle, as a monitor sees them.
pub struct Axi3MonitorPorts {
    pub awvalid: Value,
    pub awready: Value,
    pub awaddr: Value,
    pub awlen: Value,
    pub awsize: Value,
    pub awburst: Value,
    pub awid: Value,
    pub awlock: Value,
    pub wvalid: Value,
    pub wready: Value,
    pub wdata: Value,
    pub wstrb: Value,
    pub wlast: Value,
    pub wid: Value,
    pub bvalid: Value,
    pub bready: Value,
    pub bresp: Value,
    pub bid: Value,
    pub arvalid: Value,
    pub arready: Value,
    pub araddr: Value,
    pub arlen: Value,
    pub arsize: Value,
    pub arburst: Value,
    pub arid: Value,
    pub arlock: Value,
    pub rvalid: Value,
    pub rready: Value,
    pub rdata: Value,
    pub rresp: Value,
    pub rid: Value,
    pub rlast: Value,
}

impl Axi3MonitorPorts {
    /// The five channels.
    pub open spec fn channels(self) -> LanesView {
        LanesView {
            aw: LaneView {
                valid: self.awvalid@,
                ready: self.awready@,
                payload: seq![
                    self.awaddr@,
                    self.awlen@,
                    self.awsize@,
                    self.awburst@,
                    self.awid@,
                    self.awlock@,
                ],
            },
            w: LaneView {
                valid: self.wvalid@,
                ready: self.wready@,
                payload: seq![self.wdata@, self.wstrb@, self.wlast@, self.wid@],
            },
            b: LaneView {
                valid: self.bvalid@,
                ready: self.bready@,
                payload: seq![self.bresp@, self.bid@],
            },
            ar: LaneView {
                valid: self.arvalid@,
                ready: self.arready@,
                payload: seq![
                    self.araddr@,
                    self.arlen@,
                    self.arsize@,
                    self.arburst@,
                    self.arid@,
                    self.arlock@,
                ],
            },
            r: LaneView {
                valid: self.rvalid@,
                ready: self.rready@,
                payload: seq![self.rdata@, self.rresp@, self.rid@, self.rlast@],
            },
        }
    }

    /// The burst on the write address channel.
    pub open spec fn aw_burst(self) -> Announced {
        Announced {
            addr: self.awaddr@.number_or_zero(),
            len: self.awlen@.number_or_zero(),
            size: self.awsize@.number_or_zero(),
            kind: self.awburst@.number_or_zero(),
            lock: self.awlock@.number_or_zero(),
        }
    }

    /// The burst on the read address channel.
    pub open spec fn ar_burst(self) -> Announced {
        Announced {
            addr: self.araddr@.number_or_zero(),
            len: self.arlen@.number_or_zero(),
            size: self.arsize@.number_or_zero(),
            kind: self.arburst@.number_or_zero(),
            lock: self.arlock@.number_or_zero(),
        }
    }

    fn lanes(&self) -> (r: Lanes)
        ensures
            r@ == self.channels(),
    {
        let r = Lanes {
            aw: Lane {
                valid: self.awvalid.copy(),
                ready: self.awready.copy(),
                payload: vec![
                    self.awaddr.copy(),
                    self.awlen.copy(),
                    self.awsize.copy(),
                    self.awburst.copy(),
                    self.awid.copy(),
                    self.awlock.copy(),
                ],
            },
            w: Lane {
                valid: self.wvalid.copy(),
                ready: self.wready.copy(),
                payload: vec![
                    self.wdata.copy(),
                    self.wstrb.copy(),
                    self.wlast.copy(),
                    self.wid.copy(),
                ],
            },
            b: Lane {
                valid: self.bvalid.copy(),
                ready: self.bready.copy(),
                payload: vec![self.bresp.copy(), self.bid.copy()],
            },
            ar: Lane {
                valid: self.arvalid.copy(),
                ready: self.arready.copy(),
                payload: vec![
                    self.araddr.copy(),
                    self.arlen.copy(),
                    self.arsize.copy(),
                    self.arburst.copy(),
                    self.arid.copy(),
                    self.arlock.copy(),
                ],
            },
            r: Lane {
                valid: self.rvalid.copy(),
                ready: self.rready.copy(),
                payload: vec![
                    self.rdata.copy(),
                    self.rresp.copy(),
                    self.rid.copy(),
                    self.rlast.copy(),
                ],
            },
        };
        assert(views(r.aw.payload@) =~= self.channels().aw.payload);
        assert(views(r.w.payload@) =~= self.channels().w.payload);
        assert(views(r.b.payload@) =~= self.channels().b.payload);
        assert(views(r.ar.payload@) =~= self.channels().ar.payload);
        assert(views(r.r.payload@) =~= self.channels().r.payload);
        r
    }

    fn announced_write(&self) -> (r: Announced)
        ensures
            r == self.aw_burst(),
    {
        Announced {
            addr: number(&self.awaddr),
            len: number(&self.awlen),
            size: number(&self.awsize),
            kind: number(&self.awburst),
            lock: number(&self.awlock),
        }
    }

    fn announced_read(&self) -> (r: Announced)
        ensures
            r == self.ar_burst(),
    {
        Announced {
            addr: number(&self.araddr),
            len: number(&self.arlen),
            size: number(&self.arsize),
            kind: number(&self.arburst),
            lock: number(&self.arlock),
        }
    }
}

/// What an [`Axi3Checker`] knows.
#[verifier::ext_equal]
pub ghost struct Axi3CheckerView {
    /// The data width of the bus.
    pub width: u32,
    /// The cycles a channel may stall.
    pub timeout: Option<u64>,
    pub lines: MonitorView,
    pub writes: TrafficView,
    pub reads: TrafficView,
    pub seen: Axi3Coverage,
}

/// The EXOKAY `f` where the transaction is not exclusive.
pub open spec fn exokay_fault(code: u64, excl: bool, f: Axi3Fault) -> Seq<Axi3Fault> {
    only_if(code == EXOKAY && !excl, f)
}

/// The beat count that differs from the announced one.
pub open spec fn length_fault(announced: Option<u64>, count: u64, f: Axi3Fault) -> Seq<Axi3Fault> {
    only_if(announced is Some && announced != Some(count), f)
}

impl Axi3CheckerView {
    /// The state of a checker that has seen no cycle.
    pub open spec fn fresh(width: u32, timeout: Option<u64>) -> Axi3CheckerView {
        Axi3CheckerView {
            width,
            timeout,
            lines: MonitorView::fresh(),
            writes: TrafficView::none(),
            reads: TrafficView::none(),
            seen: Axi3Coverage::empty(),
        }
    }

    /// The state after a reset: what was seen stays, what is outstanding is
    /// forgotten.
    pub open spec fn reset(self) -> Axi3CheckerView {
        Axi3CheckerView {
            lines: self.lines.cleared(),
            writes: TrafficView::none(),
            reads: TrafficView::none(),
            ..self
        }
    }

    /// After the handshakes of a cycle.
    pub open spec fn after_lines(self, p: Axi3MonitorPorts) -> Axi3CheckerView {
        Axi3CheckerView { lines: self.lines.after(p.channels()), ..self }
    }

    /// After the write address phase.
    pub open spec fn after_aw(self, p: Axi3MonitorPorts, now: u64) -> Axi3CheckerView {
        let a = p.aw_burst();
        if p.channels().aw.fires() {
            Axi3CheckerView {
                seen: self.seen.with_burst(a),
                writes: self.writes.announced(
                    p.awid@.number_or_zero(),
                    (a.len + 1) as u64,
                    now,
                    a.lock == 1,
                ),
                ..self
            }
        } else {
            self
        }
    }

    /// After the read address phase.
    pub open spec fn after_ar(self, p: Axi3MonitorPorts, now: u64) -> Axi3CheckerView {
        let a = p.ar_burst();
        if p.channels().ar.fires() {
            Axi3CheckerView {
                seen: self.seen.with_burst(a),
                reads: self.reads.announced(
                    p.arid@.number_or_zero(),
                    (a.len + 1) as u64,
                    now,
                    a.lock == 1,
                ),
                ..self
            }
        } else {
            self
        }
    }

    /// After the write data phase.
    pub open spec fn after_w(self, p: Axi3MonitorPorts) -> Axi3CheckerView {
        if p.channels().w.fires() {
            Axi3CheckerView {
                seen: Axi3Coverage { beats: (self.seen.beats + 1) as u64, ..self.seen },
                writes: self.writes.beat(p.wid@.number_or_zero(), p.wlast@.high()),
                ..self
            }
        } else {
            self
        }
    }

    /// What the write data phase breaks.
    pub open spec fn w_faults(self, p: Axi3MonitorPorts) -> Seq<Axi3Fault> {
        let id = p.wid@.number_or_zero();
        let count = (count_of(self.writes.count, id) + 1) as u64;
        let announced = front_of(self.writes.expect, id);
        if p.channels().w.fires() {
            only_if(announced is None, Axi3Fault::DataWithoutWrite(id)) + if p.wlast@.high() {
                length_fault(
                    announced,
                    count,
                    Axi3Fault::WriteLength { id, count, expected: announced->0 },
                )
            } else {
                seq![]
            }
        } else {
            seq![]
        }
    }

    /// After the read data phase.
    pub open spec fn after_r(self, p: Axi3MonitorPorts, now: u64) -> Axi3CheckerView {
        let id = p.rid@.number_or_zero();
        let code = p.rresp@.number_or_zero();
        let seen = Axi3Coverage { beats: (self.seen.beats + 1) as u64, ..self.seen.with_resp(code)
        };
        if !p.channels().r.fires() {
            self
        } else if p.rlast@.high() {
            Axi3CheckerView {
                seen: Axi3Coverage {
                    read_lat: timed(seen.read_lat, front_of(self.reads.cycles, id), now),
                    exclusive_ok: bumped(
                        seen.exclusive_ok,
                        code == EXOKAY && self.reads.exclusive(id),
                    ),
                    reads: (seen.reads + 1) as u64,
                    ..seen
                },
                reads: self.reads.beat(id, true).answered(id),
                ..self
            }
        } else {
            Axi3CheckerView { seen, reads: self.reads.beat(id, false), ..self }
        }
    }

    /// What the read data phase breaks.
    pub open spec fn r_faults(self, p: Axi3MonitorPorts) -> Seq<Axi3Fault> {
        let id = p.rid@.number_or_zero();
        let count = (count_of(self.reads.count, id) + 1) as u64;
        let announced = front_of(self.reads.expect, id);
        if p.channels().r.fires() {
            only_if(announced is None, Axi3Fault::DataWithoutRead(id)) + (if p.rlast@.high() {
                length_fault(
                    announced,
                    count,
                    Axi3Fault::ReadLength { id, count, expected: announced->0 },
                )
            } else {
                seq![]
            }) + exokay_fault(
                p.rresp@.number_or_zero(),
                self.reads.exclusive(id),
                Axi3Fault::ExokayRead(id),
            )
        } else {
            seq![]
        }
    }

    /// After the write response phase.
    pub open spec fn after_b(self, p: Axi3MonitorPorts, now: u64) -> Axi3CheckerView {
        let id = p.bid@.number_or_zero();
        let code = p.bresp@.number_or_zero();
        let seen = self.seen.with_resp(code);
        if p.channels().b.fires() {
            Axi3CheckerView {
                seen: Axi3Coverage {
                    write_lat: timed(seen.write_lat, front_of(self.writes.cycles, id), now),
                    exclusive_ok: bumped(
                        seen.exclusive_ok,
                        code == EXOKAY && self.writes.exclusive(id),
                    ),
                    writes: (seen.writes + 1) as u64,
                    ..seen
                },
                writes: self.writes.answered(id),
                ..self
            }
        } else {
            self
        }
    }

    /// What the write response phase breaks.
    pub open spec fn b_faults(self, p: Axi3MonitorPorts) -> Seq<Axi3Fault> {
        let id = p.bid@.number_or_zero();
        if p.channels().b.fires() {
            only_if(
                front_of(self.writes.cycles, id) is None,
                Axi3Fault::ResponseWithoutWrite(id),
            ) + exokay_fault(
                p.bresp@.number_or_zero(),
                self.writes.exclusive(id),
                Axi3Fault::ExokayWrite(id),
            )
        } else {
            seq![]
        }
    }

    /// The state after a cycle.
    pub open spec fn clocked(self, rst: bool, p: Axi3MonitorPorts, now: u64) -> Axi3CheckerView {
        if rst {
            self.reset()
        } else {
            self.after_lines(p).after_aw(p, now).after_ar(p, now).after_w(p).after_r(
                p,
                now,
            ).after_b(p, now)
        }
    }

    /// The rules that a cycle breaks, in the order they are reported.
    pub open spec fn faults(
        self,
        rst: bool,
        p: Axi3MonitorPorts,
        four_state: bool,
        now: u64,
    ) -> Seq<Axi3Fault> {
        let s3 = self.after_lines(p).after_aw(p, now).after_ar(p, now);
        let s4 = s3.after_w(p);
        if rst {
            lines(high_in_reset(p.channels()))
        } else {
            self.early_faults(p, four_state, now) + s4.r_faults(p) + s4.after_r(p, now).b_faults(p)
        }
    }

    /// What the handshakes, the address phases and the write data phase break.
    pub open spec fn early_faults(
        self,
        p: Axi3MonitorPorts,
        four_state: bool,
        now: u64,
    ) -> Seq<Axi3Fault> {
        let l = p.channels();
        let s1 = self.after_lines(p);
        let s3 = s1.after_aw(p, now).after_ar(p, now);
        lines(
            if four_state {
                unknown_lines(l)
            } else {
                seq![]
            },
        ) + lines(
            if four_state {
                unknown_payloads(l)
            } else {
                seq![]
            },
        ) + lines(self.lines.violations(l)) + lines(s1.lines.timeouts(self.timeout)) + (
        if l.aw.fires() {
            p.aw_burst().faults(Chan::Aw, lane_count(self.width))
        } else {
            seq![]
        }) + (if l.ar.fires() {
            p.ar_burst().faults(Chan::Ar, lane_count(self.width))
        } else {
            seq![]
        }) + s3.w_faults(p)
    }

    /// Whether the counts of the read data phase fit in 64 bits.
    pub open spec fn can_take_r(self, p: Axi3MonitorPorts, now: u64) -> bool {
        let id = p.rid@.number_or_zero();
        let code = p.rresp@.number_or_zero();
        &&& self.seen.beats < u64::MAX
        &&& self.seen.takes_resp(code)
        &&& count_of(self.reads.count, id) < u64::MAX
        &&& p.rlast@.high() ==> {
            &&& self.seen.reads < u64::MAX
            &&& latency_fits(front_of(self.reads.cycles, id), now, self.seen.read_lat)
            &&& code == EXOKAY && self.reads.exclusive(id) ==> self.seen.exclusive_ok < u64::MAX
        }
    }

    /// Whether the counts of the write response phase fit in 64 bits.
    pub open spec fn can_take_b(self, p: Axi3MonitorPorts, now: u64) -> bool {
        let id = p.bid@.number_or_zero();
        let code = p.bresp@.number_or_zero();
        &&& self.seen.takes_resp(code)
        &&& self.seen.writes < u64::MAX
        &&& latency_fits(front_of(self.writes.cycles, id), now, self.seen.write_lat)
        &&& code == EXOKAY && self.writes.exclusive(id) ==> self.seen.exclusive_ok < u64::MAX
    }

    /// Whether the counts and sizes of a cycle fit in 64 bits.
    pub open spec fn can_clock(self, rst: bool, p: Axi3MonitorPorts, now: u64) -> bool {
        let l = p.channels();
        let s1 = self.after_lines(p);
        let s2 = s1.after_aw(p, now);
        let s3 = s2.after_ar(p, now);
        let s4 = s3.after_w(p);
        let s5 = s4.after_r(p, now);
        !rst ==> {
            &&& self.lines.can_follow(l)
            &&& l.aw.fires() ==> p.aw_burst().fits() && s1.seen.takes_burst(p.aw_burst())
            &&& l.ar.fires() ==> p.ar_burst().fits() && s2.seen.takes_burst(p.ar_burst())
            &&& l.w.fires() ==> s3.seen.beats < u64::MAX && count_of(
                s3.writes.count,
                p.wid@.number_or_zero(),
            ) < u64::MAX
            &&& l.r.fires() ==> s4.can_take_r(p, now)
            &&& l.b.fires() ==> s5.can_take_b(p, now)
        }
    }
}

/// When the oldest unanswered transaction of `id` was announced, and whether
/// it is exclusive, with the announcement of this cycle counted in.
fn oldest(t: &Traffic, id: u64, announced: Option<(u64, bool)>, now: u64) -> (r: (
    Option<u64>,
    bool,
))
    ensures
        ({
            let s = match announced {
                Some(a) => t@.announced(a.0, 0, now, a.1),
                None => t@,
            };
            r.0 == front_of(s.cycles, id) && r.1 == s.exclusive(id)
        }),
{
    proof {
        if let Some(a) = announced {
            lemma_front_after_queued(t@.cycles, a.0, now, id);
            lemma_front_after_queued(t@.excl, a.0, a.1, id);
        }
    }
    let late = match announced {
        Some(a) => if a.0 == id {
            Some(a.1)
        } else {
            None
        },
        None => None,
    };
    let start = match t.started(id) {
        Some(c) => Some(c),
        None => if late.is_some() {
            Some(now)
        } else {
            None
        },
    };
    let excl = match t.is_exclusive(id) {
        Some(e) => e,
        None => match late {
            Some(e) => e,
            None => false,
        },
    };
    (start, excl)
}

/// Passive AXI3 protocol checker. It holds every cycle to the handshake
/// stability rules and the burst rules, counts `WLAST` per `WID` (write data
/// may interleave), tracks responses per ID, accepts `EXOKAY` only as the
/// answer to an exclusive access, and reports what it has seen.
pub struct Axi3Checker {
    width: u32,
    timeout: Option<u64>,
    lines: Monitor,
    writes: Traffic,
    reads: Traffic,
    seen: Axi3Coverage,
}

impl View for Axi3Checker {
    type V = Axi3CheckerView;

    closed spec fn view(&self) -> Axi3CheckerView {
        Axi3CheckerView {
            width: self.width,
            timeout: self.timeout,
            lines: self.lines@,
            writes: self.writes@,
            reads: self.reads@,
            seen: self.seen,
        }
    }
}

impl Axi3Checker {
    /// A checker of a bus with these port widths. An address port wider than
    /// 64 bits is refused.
    pub fn on_build(awaddr: u32, araddr: u32, width: u32, timeout: Option<u64>) -> (r: Result<
        Axi3Checker,
        BuildError,
    >)
        ensures
            match r {
                Ok(c) => too_wide("axi3_checker", awaddr, araddr) is None && c@
                    == Axi3CheckerView::fresh(width, timeout),
                Err(e) => too_wide("axi3_checker", awaddr, araddr) == Some(e),
            },
    {
        match find_too_wide("axi3_checker", awaddr, araddr) {
            Some(e) => Err(e),
            None => Ok(
                Axi3Checker {
                    width,
                    timeout,
                    lines: Monitor::new(),
                    writes: Traffic::new(),
                    reads: Traffic::new(),
                    seen: Axi3Coverage::new(),
                },
            ),
        }
    }

    /// Whether the counts and sizes of a cycle fit in 64 bits.
    pub fn in_range(&self, rst: &Value, axi: &Axi3MonitorPorts, now: u64) -> (r: bool)
        ensures
            r == self@.can_clock(rst@.truth(), *axi, now),
    {
        if is_set(rst) {
            return true;
        }
        let l = axi.lanes();
        let mut seen = self.seen;
        let aw = axi.announced_write();
        let ar = axi.announced_read();
        if !self.lines.in_range(&l) {
            return false;
        }
        if l.aw.fires() {
            if !aw.in_range() || !seen.burst_in_range(&aw) {
                return false;
            }
            seen.note_burst(&aw);
        }
        if l.ar.fires() {
            if !ar.in_range() || !seen.burst_in_range(&ar) {
                return false;
            }
            seen.note_burst(&ar);
        }
        if l.w.fires() {
            if seen.beats == u64::MAX || self.writes.count(number(&axi.wid)) == u64::MAX {
                return false;
            }
            seen.beats = seen.beats + 1;
        }
        if l.r.fires() {
            let asked = if l.ar.fires() {
                Some((number(&axi.arid), ar.lock == 1))
            } else {
                None
            };
            match self.read_data_in_range(axi, asked, seen, now) {
                Some(after) => {
                    seen = after;
                },
                None => {
                    return false;
                },
            }
        }
        if l.b.fires() {
            let id: u64 = number(&axi.bid);
            let code: u64 = number(&axi.bresp);
            let asked = if l.aw.fires() {
                Some((number(&axi.awid), aw.lock == 1))
            } else {
                None
            };
            let (start, excl) = oldest(&self.writes, id, asked, now);
            seen.resp_in_range(code) && seen.writes < u64::MAX && latency_in_range(
                start,
                now,
                &seen.write_lat,
            ) && (code != EXOKAY || !excl || seen.exclusive_ok < u64::MAX)
        } else {
            true
        }
    }

    /// What was seen after the read data phase, if its counts fit in 64 bits.
    fn read_data_in_range(
        &self,
        p: &Axi3MonitorPorts,
        asked: Option<(u64, bool)>,
        seen: Axi3Coverage,
        now: u64,
    ) -> (r: Option<Axi3Coverage>)
        requires
            p.channels().r.fires(),
        ensures
            ({
                let s = Axi3CheckerView {
                    seen,
                    reads: match asked {
                        Some(a) => self@.reads.announced(a.0, 0, now, a.1),
                        None => self@.reads,
                    },
                    ..self@
                };
                match r {
                    Some(after) => s.can_take_r(*p, now) && after == s.after_r(*p, now).seen,
                    None => !s.can_take_r(*p, now),
                }
            }),
    {
        let id: u64 = number(&p.rid);
        let code: u64 = number(&p.rresp);
        if seen.beats == u64::MAX || !seen.resp_in_range(code) || self.reads.count(id)
            == u64::MAX {
            return None;
        }
        let mut after = seen;
        after.note_resp(code);
        after.beats = after.beats + 1;
        if high(&p.rlast) {
            let (start, excl) = oldest(&self.reads, id, asked, now);
            let ok = code == EXOKAY && excl;
            if seen.reads == u64::MAX || !latency_in_range(start, now, &seen.read_lat) || (ok
                && seen.exclusive_ok == u64::MAX) {
                return None;
            }
            if let Some(s) = start {
                after.read_lat.record(now - s);
            }
            after.exclusive_ok = bump(after.exclusive_ok, ok);
            after.reads = after.reads + 1;
        }
        Some(after)
    }

    fn clear(&mut self)
        ensures
            final(self)@ == old(self)@.reset(),
    {
        self.lines.clear();
        self.writes.clear();
        self.reads.clear();
    }

    fn write_address(&mut self, p: &Axi3MonitorPorts, now: u64) -> (r: Vec<Axi3Fault>)
        requires
            p.aw_burst().fits(),
            p.channels().aw.fires(),
            old(self)@.seen.takes_burst(p.aw_burst()),
        ensures
            final(self)@ == old(self)@.after_aw(*p, now),
            r@ == p.aw_burst().faults(Chan::Aw, lane_count(old(self)@.width)),
    {
        let a = p.announced_write();
        let f = a.check_burst(Chan::Aw, bytes_for(self.width));
        self.seen.note_burst(&a);
        self.writes.announce(number(&p.awid), a.len + 1, now, a.lock == 1);
        f
    }

    fn read_address(&mut self, p: &Axi3MonitorPorts, now: u64) -> (r: Vec<Axi3Fault>)
        requires
            p.ar_burst().fits(),
            p.channels().ar.fires(),
            old(self)@.seen.takes_burst(p.ar_burst()),
        ensures
            final(self)@ == old(self)@.after_ar(*p, now),
            r@ == p.ar_burst().faults(Chan::Ar, lane_count(old(self)@.width)),
    {
        let a = p.announced_read();
        let f = a.check_burst(Chan::Ar, bytes_for(self.width));
        self.seen.note_burst(&a);
        self.reads.announce(number(&p.arid), a.len + 1, now, a.lock == 1);
        f
    }

    fn write_data(&mut self, p: &Axi3MonitorPorts) -> (r: Vec<Axi3Fault>)
        requires
            p.channels().w.fires(),
            old(self)@.seen.beats < u64::MAX,
            count_of(old(self)@.writes.count, p.wid@.number_or_zero()) < u64::MAX,
        ensures
            final(self)@ == old(self)@.after_w(*p),
            r@ == old(self)@.w_faults(*p),
    {
        let mut f: Vec<Axi3Fault> = Vec::new();
        let id: u64 = number(&p.wid);
        self.seen.beats = self.seen.beats + 1;
        report(&mut f, self.writes.is_idle(id), Axi3Fault::DataWithoutWrite(id));
        let count: u64 = self.writes.count(id) + 1;
        let last = high(&p.wlast);
        match self.writes.note_beat(id, last) {
            Some(expected) => report(
                &mut f,
                count != expected,
                Axi3Fault::WriteLength { id, count, expected },
            ),
            None => {},
        }
        assert(f@ =~= old(self)@.w_faults(*p));
        f
    }

    fn read_data(&mut self, p: &Axi3MonitorPorts, now: u64) -> (r: Vec<Axi3Fault>)
        requires
            p.channels().r.fires(),
            old(self)@.can_take_r(*p, now),
        ensures
            final(self)@ == old(self)@.after_r(*p, now),
            r@ == old(self)@.r_faults(*p),
    {
        let mut f: Vec<Axi3Fault> = Vec::new();
        let id: u64 = number(&p.rid);
        let code: u64 = number(&p.rresp);
        self.seen.note_resp(code);
        self.seen.beats = self.seen.beats + 1;
        report(&mut f, self.reads.is_idle(id), Axi3Fault::DataWithoutRead(id));
        let count: u64 = self.reads.count(id) + 1;
        let last = high(&p.rlast);
        let excl = match self.reads.is_exclusive(id) {
            Some(e) => e,
            None => false,
        };
        match self.reads.note_beat(id, last) {
            Some(expected) => report(
                &mut f,
                count != expected,
                Axi3Fault::ReadLength { id, count, expected },
            ),
            None => {},
        }
        report(&mut f, code == EXOKAY && !excl, Axi3Fault::ExokayRead(id));
        if last {
            let (start, _) = self.reads.answer(id);
            if let Some(s) = start {
                self.seen.read_lat.record(now - s);
            }
            self.seen.exclusive_ok = bump(self.seen.exclusive_ok, code == EXOKAY && excl);
            self.seen.reads = self.seen.reads + 1;
        }
        assert(f@ =~= old(self)@.r_faults(*p));
        f
    }

    fn write_response(&mut self, p: &Axi3MonitorPorts, now: u64) -> (r: Vec<Axi3Fault>)
        requires
            p.channels().b.fires(),
            old(self)@.can_take_b(*p, now),
        ensures
            final(self)@ == old(self)@.after_b(*p, now),
            r@ == old(self)@.b_faults(*p),
    {
        let mut f: Vec<Axi3Fault> = Vec::new();
        let id: u64 = number(&p.bid);
        let code: u64 = number(&p.bresp);
        self.seen.note_resp(code);
        let (start, excl) = self.writes.answer(id);
        report(&mut f, start.is_none(), Axi3Fault::ResponseWithoutWrite(id));
        if let Some(s) = start {
            self.seen.write_lat.record(now - s);
        }
        report(&mut f, code == EXOKAY && !excl, Axi3Fault::ExokayWrite(id));
        self.seen.exclusive_ok = bump(self.seen.exclusive_ok, code == EXOKAY && excl);
        self.seen.writes = self.seen.writes + 1;
        assert(f@ =~= old(self)@.b_faults(*p));
        f
    }

    /// Checks one cycle; the result is the rules it breaks.
    pub fn on_clock(
        &mut self,
        rst: &Value,
        axi: &Axi3MonitorPorts,
        four_state: bool,
        now: u64,
    ) -> (r: Vec<Axi3Fault>)
        requires
            old(self)@.can_clock(rst@.truth(), *axi, now),
        ensures
            final(self)@ == old(self)@.clocked(rst@.truth(), *axi, now),
            r@ == old(self)@.faults(rst@.truth(), *axi, four_state, now),
    {
        let l = axi.lanes();
        let mut f: Vec<Axi3Fault> = Vec::new();
        if is_set(rst) {
            report_lines(&mut f, &check_reset(&l));
            self.clear();
            assert(f@ =~= lines(high_in_reset(l@)));
            return f;
        }
        if four_state {
            report_lines(&mut f, &check_lines(&l));
            report_lines(&mut f, &check_payloads(&l));
        }
        report_lines(&mut f, &self.lines.check(&l));
        report_lines(&mut f, &self.lines.check_timeout(self.timeout));
        let ghost s1 = self@;
        let ghost f1 = f@;
        proof {
            let none = Seq::<LineFault>::empty();
            assert(lines(none) =~= Seq::<Axi3Fault>::empty());
            let a = lines(
                if four_state {
                    unknown_lines(l@)
                } else {
                    seq![]
                },
            );
            let b = lines(
                if four_state {
                    unknown_payloads(l@)
                } else {
                    seq![]
                },
            );
            assert(f1 =~= a + b + lines(old(self)@.lines.violations(l@)) + lines(
                s1.lines.timeouts(old(self)@.timeout),
            ));
        }
        if l.aw.fires() {
            report_all(&mut f, self.write_address(axi, now));
        }
        if l.ar.fires() {
            report_all(&mut f, self.read_address(axi, now));
        }
        if l.w.fires() {
            report_all(&mut f, self.write_data(axi));
        }
        if l.r.fires() {
            report_all(&mut f, self.read_data(axi, now));
        }
        if l.b.fires() {
            report_all(&mut f, self.write_response(axi, now));
        }
        assert(f@ =~= old(self)@.faults(false, *axi, four_state, now));
        f
    }

    /// The number of data beats seen.
    pub fn beats(&self) -> (r: u64)
        ensures
            r == self@.seen.beats,
    {
        self.seen.beats
    }

    /// The report of what was seen.
    pub fn summary(&self) -> (r: String)
        ensures
            r@ == self@.seen.text(self@.lines.max_stall()),
    {
        self.seen.summary(self.lines.max_stall())
    }
}

/// A bus on which nothing happens breaks no rule, and nothing about it is
/// counted.
pub proof fn lemma_idle_bus_is_quiet(s: Axi3CheckerView, p: Axi3MonitorPorts, now: u64)
    requires
        quiet(p.channels()),
        unstalled(s.lines),
    ensures
        s.faults(false, p, false, now) == Seq::<Axi3Fault>::empty(),
        s.clocked(false, p, now).seen == s.seen,
        s.clocked(false, p, now).writes == s.writes,
        s.clocked(false, p, now).reads == s.reads,
        unstalled(s.clocked(false, p, now).lines),
{
    let l = p.channels();
    let t = s.after_lines(p);
    assert(s.lines.violations(l) =~= seq![]);
    assert(t.lines.timeouts(s.timeout) =~= seq![]) by {
        if let Some(limit) = s.timeout {
            assert(t.lines.aw.stall_cycles == 0);
        }
    }
    assert(s.faults(false, p, false, now) =~= Seq::<Axi3Fault>::empty());
}

/// A reset forgets what is outstanding and keeps what was seen. The cycle
/// after it breaks no stability rule, whatever it shows.
pub proof fn lemma_reset_forgets(s: Axi3CheckerView, p: Axi3MonitorPorts, q: Axi3MonitorPorts, now: u64)
    ensures
        ({
            let t = s.clocked(true, p, now);
            &&& t.writes == TrafficView::none()
            &&& t.reads == TrafficView::none()
            &&& t.seen == s.seen
            &&& t.lines.max_stall() == s.lines.max_stall()
            &&& t.lines.violations(q.channels()) == Seq::<LineFault>::empty()
        }),
{
    let t = s.clocked(true, p, now);
    assert(t.lines.violations(q.channels()) =~= seq![]);
}

/// EXOKAY only answers an exclusive access: in a cycle with a write response
/// or a beat of read data, it is reported exactly where the oldest unanswered
/// transaction of the ID is not exclusive.
#[verifier::spinoff_prover]
#[verifier::rlimit(50)]
pub proof fn lemma_exokay_needs_exclusive(
    s: Axi3CheckerView,
    p: Axi3MonitorPorts,
    four_state: bool,
    now: u64,
)
    ensures
        exokay_is_reported(
            s.faults(false, p, four_state, now),
            s.after_aw(p, now).after_w(p).writes,
            s.after_ar(p, now).reads,
            p,
        ),
{
    let s4 = s.after_lines(p).after_aw(p, now).after_ar(p, now).after_w(p);
    let s5 = s4.after_r(p, now);
    lemma_early_faults_are_no_exokay(s, p, four_state, now);
    lemma_late_exokay_is_reported(s.early_faults(p, four_state, now), s4, s5, p);
    lemma_phases_keep_to_their_side(s, p, now);
    assert(s.faults(false, p, four_state, now) == s.early_faults(p, four_state, now) + s4.r_faults(
        p,
    ) + s5.b_faults(p));
}

/// Read data leaves the writes alone, and writes leave the reads alone.
proof fn lemma_phases_keep_to_their_side(s: Axi3CheckerView, p: Axi3MonitorPorts, now: u64)
    ensures
        ({
            let s4 = s.after_lines(p).after_aw(p, now).after_ar(p, now).after_w(p);
            &&& s4.after_r(p, now).writes == s.after_aw(p, now).after_w(p).writes
            &&& s4.reads == s.after_ar(p, now).reads
        }),
{
}

/// Whether `f` holds an EXOKAY fault exactly where a response in `p` answers a
/// transaction that is not exclusive.
pub open spec fn exokay_is_reported(
    f: Seq<Axi3Fault>,
    writes: TrafficView,
    reads: TrafficView,
    p: Axi3MonitorPorts,
) -> bool {
    let bid = p.bid@.number_or_zero();
    let rid = p.rid@.number_or_zero();
    &&& p.channels().b.fires() ==> (f.contains(Axi3Fault::ExokayWrite(bid)) <==> (
    p.bresp@.number_or_zero() == EXOKAY && !writes.exclusive(bid)))
    &&& p.channels().r.fires() ==> (f.contains(Axi3Fault::ExokayRead(rid)) <==> (
    p.rresp@.number_or_zero() == EXOKAY && !reads.exclusive(rid)))
}

proof fn lemma_late_exokay_is_reported(
    rest: Seq<Axi3Fault>,
    s4: Axi3CheckerView,
    s5: Axi3CheckerView,
    p: Axi3MonitorPorts,
)
    requires
        no_exokay(rest),
    ensures
        exokay_is_reported(rest + s4.r_faults(p) + s5.b_faults(p), s5.writes, s4.reads, p),
{
    reveal(no_exokay);
    let b = s5.b_faults(p);
    let r = s4.r_faults(p);
    let f = rest + r + b;
    let bid = p.bid@.number_or_zero();
    let rid = p.rid@.number_or_zero();
    if p.channels().b.fires() && p.bresp@.number_or_zero() == EXOKAY && !s5.writes.exclusive(bid) {
        assert(b[b.len() - 1] == Axi3Fault::ExokayWrite(bid));
        assert(f[f.len() - 1] == b[b.len() - 1]);
    }
    if p.channels().r.fires() && p.rresp@.number_or_zero() == EXOKAY && !s4.reads.exclusive(rid) {
        assert(r[r.len() - 1] == Axi3Fault::ExokayRead(rid));
        assert(f[f.len() - b.len() - 1] == r[r.len() - 1]);
    }
}

/// Whether no fault is about EXOKAY.
#[verifier::opaque]
spec fn no_exokay(faults: Seq<Axi3Fault>) -> bool {
    forall|i: int|
        0 <= i < faults.len() ==> !((#[trigger] faults[i]) is ExokayWrite || faults[i] is ExokayRead)
}

broadcast proof fn lemma_no_exokay_together(a: Seq<Axi3Fault>, b: Seq<Axi3Fault>)
    ensures
        no_exokay(a) && no_exokay(b) ==> #[trigger] no_exokay(a + b),
{
    reveal(no_exokay);
}

broadcast proof fn lemma_no_exokay_alone(c: bool, f: Axi3Fault)
    ensures
        !(f is ExokayWrite || f is ExokayRead) ==> #[trigger] no_exokay(only_if(c, f)),
{
    reveal(no_exokay);
}

broadcast proof fn lemma_no_exokay_lines(faults: Seq<LineFault>)
    ensures
        #[trigger] no_exokay(lines(faults)),
{
    reveal(no_exokay);
}

proof fn lemma_burst_faults_are_no_exokay(fires: bool, a: Announced, c: Chan, lanes: u64)
    ensures
        no_exokay(
            if fires {
                a.faults(c, lanes)
            } else {
                seq![]
            },
        ),
{
    broadcast use {lemma_no_exokay_together, lemma_no_exokay_alone};

    assert(no_exokay(seq![])) by {
        reveal(no_exokay);
    }
    assert(no_exokay(a.faults(c, lanes)));
}

proof fn lemma_w_faults_are_no_exokay(s: Axi3CheckerView, p: Axi3MonitorPorts)
    ensures
        no_exokay(s.w_faults(p)),
{
    reveal(no_exokay);
}

proof fn lemma_early_faults_are_no_exokay(
    s: Axi3CheckerView,
    p: Axi3MonitorPorts,
    four_state: bool,
    now: u64,
)
    ensures
        no_exokay(s.early_faults(p, four_state, now)),
{
    broadcast use {lemma_no_exokay_together, lemma_no_exokay_lines};

    let l = p.channels();
    let lanes = lane_count(s.width);
    let s3 = s.after_lines(p).after_aw(p, now).after_ar(p, now);
    lemma_burst_faults_are_no_exokay(l.aw.fires(), p.aw_burst(), Chan::Aw, lanes);
    lemma_burst_faults_are_no_exokay(l.ar.fires(), p.ar_burst(), Chan::Ar, lanes);
    lemma_w_faults_are_no_exokay(s3, p);
}

} // verus!
