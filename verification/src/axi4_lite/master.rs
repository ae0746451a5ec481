//! Active AXI4-Lite master.

use crate::axi4_lite::op::{
    apply, apply_all, fault_views, left_by, left_by_all, lemma_left_by_all_len, lemma_left_by_len,
    modified, modify, next_issuable, next_op, LiteMasterFault, LiteMasterFaultView, Op, OpView,
    PendingWrite, ReadMeta, ReadView,
};
use crate::collections::{lists_keys, Fifo, KeySet, Table};
use crate::common::lanes::{
    align, aligned, bytes_for, lane_count, lemma_lanes_fit, lemma_merged_len, merge_lanes, merged,
};
use crate::common::random::{
    after_stall, next_rand, seed_lfsr, seed_traffic, seeded, stall_now, stalls, traffic_seeded,
    xorshift, xorshift_nth,
};
use crate::common::resp::OKAY;
use crate::common::setup::{find_too_wide, too_wide, BuildError};
use crate::common::stimulus::{
    after_data, full_strb, full_strobe, place, placed, rand_data, rand_strobe, random_data,
    random_strobe, sized, span_of, window,
};
use crate::common::words::{
    answers, arg_result, arg_words, data_value, data_view, extended, is_set, words_for, zero_words,
    zeros, ArgError,
};
use crate::value::{copy_words, same_words, word_count, Value};
use vstd::prelude::*;

verus! {

/// The signals of an AXI4-Lite bus in one cycle, as a master drives and sees
/// them.
pub struct Axi4LiteMasterPorts {
    pub awvalid: bool,
    pub awready: Value,
    pub awaddr: u64,
    pub awprot: u64,
    pub wvalid: bool,
    pub wready: Value,
    pub wdata: Vec<u64>,
    pub wstrb: Vec<u64>,
    pub bvalid: Value,
    pub bready: bool,
    pub bresp: u64,
    pub arvalid: bool,
    pub arready: Value,
    pub araddr: u64,
    pub arprot: u64,
    pub rvalid: Value,
    pub rready: bool,
    pub rdata: Vec<u64>,
}

/// How a master is set up.
#[derive(Clone, Copy, Debug, PartialEq, Eq, Structural)]
pub struct LiteMasterConfig {
    /// The width of the write data port.
    pub width: u32,
    /// The width of the read data port.
    pub rwidth: u32,
    /// The weight, of 256, for delaying BREADY and RREADY.
    pub stall: Option<u64>,
    /// The responses that may be in flight per direction.
    pub max_outstanding: Option<u64>,
    /// The cycles that WVALID is held back after AWVALID.
    pub w_delay: Option<u64>,
}

impl LiteMasterConfig {
    /// The responses that may be in flight per direction.
    pub open spec fn max(self) -> u64 {
        match self.max_outstanding {
            Some(n) => n,
            None => u64::MAX,
        }
    }
}

/// What an [`Axi4LiteMaster`] holds.
#[verifier::ext_equal]
pub ghost struct Axi4LiteMasterView {
    pub config: LiteMasterConfig,
    /// The accesses that are not issued, in program order.
    pub ops: Seq<OpView>,
    /// The addresses with an access in flight.
    pub inflight: Set<u64>,
    /// The issued writes that await their response.
    pub b_expect: Seq<PendingWrite>,
    /// The issued reads that await their data.
    pub r_expect: Seq<ReadView>,
    /// The data of completed reads.
    pub reads: Seq<Seq<u64>>,
    pub last_bresp: u64,
    pub lfsr: u64,
    pub traffic_lfsr: u64,
    /// What is to be read back, by address: the values of made-up writes and of
    /// completed read-modify-writes.
    pub shadow: Map<u64, Seq<u64>>,
    /// What the accesses queued so far leave in each word they change, in
    /// program order, by aligned address.
    pub latest: Map<u64, Seq<u64>>,
    pub aw_valid: bool,
    pub w_valid: bool,
    pub ar_valid: bool,
    pub b_ready: bool,
    pub r_ready: bool,
    pub aw_addr: u64,
    pub w_data: Seq<u64>,
    pub w_strb: Seq<u64>,
    pub ar_addr: u64,
    /// Whether the address of the write being issued was taken.
    pub aw_acked: bool,
    /// Whether the data of the write being issued was taken.
    pub w_acked: bool,
    /// The write being issued.
    pub cur_w: PendingWrite,
    /// The read being issued.
    pub cur_ar: ReadView,
    /// The cycles left before WVALID follows AWVALID.
    pub w_delay: Option<u64>,
}

/// Whether `after` is `before` with the outputs of a master in state `s`.
pub open spec fn drives(
    s: Axi4LiteMasterView,
    before: Axi4LiteMasterPorts,
    after: Axi4LiteMasterPorts,
) -> bool {
    &&& after.awvalid == s.aw_valid
    &&& after.awaddr == s.aw_addr
    &&& after.awprot == 0
    &&& after.wvalid == s.w_valid
    &&& after.wdata@ == s.w_data
    &&& after.wstrb@ == s.w_strb
    &&& after.bready == s.b_ready
    &&& after.arvalid == s.ar_valid
    &&& after.araddr == s.ar_addr
    &&& after.arprot == 0
    &&& after.rready == s.r_ready
    &&& after.awready == before.awready
    &&& after.wready == before.wready
    &&& after.bvalid == before.bvalid
    &&& after.bresp == before.bresp
    &&& after.arready == before.arready
    &&& after.rvalid == before.rvalid
    &&& after.rdata == before.rdata
}

impl Axi4LiteMasterView {
    /// The recorded values are as wide as the bus.
    pub open spec fn wf(self) -> bool {
        &&& forall|a: u64| #[trigger]
            self.shadow.contains_key(a) ==> self.shadow[a].len() == word_count(self.config.width)
        &&& forall|a: u64| #[trigger]
            self.latest.contains_key(a) ==> self.latest[a].len() == word_count(self.config.width)
    }

    /// A master that has nothing to do.
    pub open spec fn fresh(config: LiteMasterConfig, seed: u64) -> Self {
        Axi4LiteMasterView {
            config,
            ops: seq![],
            inflight: Set::empty(),
            b_expect: seq![],
            r_expect: seq![],
            reads: seq![],
            last_bresp: 0,
            lfsr: seeded(seed),
            traffic_lfsr: traffic_seeded(seed),
            shadow: Map::empty(),
            latest: Map::empty(),
            aw_valid: false,
            w_valid: false,
            ar_valid: false,
            b_ready: false,
            r_ready: false,
            aw_addr: 0,
            w_data: zeros(word_count(config.width)),
            w_strb: zeros(word_count(lane_count(config.width) as u32)),
            ar_addr: 0,
            aw_acked: false,
            w_acked: false,
            cur_w: PendingWrite { addr: 0, expect_ok: false },
            cur_ar: ReadView { addr: 0, expect: None, rmw: None },
            w_delay: None,
        }
    }

    /// After a reset: everything queued, in flight or recorded is dropped.
    pub open spec fn reset(self) -> Self {
        Axi4LiteMasterView {
            ops: seq![],
            inflight: Set::empty(),
            b_expect: seq![],
            r_expect: seq![],
            reads: seq![],
            shadow: Map::empty(),
            latest: Map::empty(),
            aw_valid: false,
            w_valid: false,
            ar_valid: false,
            b_ready: false,
            r_ready: false,
            aw_acked: false,
            w_acked: false,
            w_delay: None,
            w_data: zeros(word_count(self.config.width)),
            w_strb: zeros(word_count(lane_count(self.config.width) as u32)),
            ..self
        }
    }

    /// After the skew between AWVALID and WVALID moved on by a cycle.
    pub open spec fn skewed(self) -> Self {
        match self.w_delay {
            Some(n) => if n == 0 {
                Axi4LiteMasterView { w_valid: true, w_delay: None, ..self }
            } else {
                Axi4LiteMasterView { w_delay: Some((n - 1) as u64), ..self }
            },
            None => self,
        }
    }

    /// After the write address was taken, or not.
    pub open spec fn aw_taken(self, fire: bool) -> Self {
        if fire {
            Axi4LiteMasterView { aw_valid: false, aw_acked: true, ..self }
        } else {
            self
        }
    }

    /// After the write data was taken, or not.
    pub open spec fn w_taken(self, fire: bool) -> Self {
        if fire {
            Axi4LiteMasterView { w_valid: false, w_acked: true, ..self }
        } else {
            self
        }
    }

    /// After a write whose address and data were both taken began to await
    /// its response.
    pub open spec fn write_sent(self) -> Self {
        if self.aw_acked && self.w_acked {
            Axi4LiteMasterView {
                b_expect: self.b_expect.push(self.cur_w),
                aw_acked: false,
                w_acked: false,
                ..self
            }
        } else {
            self
        }
    }

    /// After a write response, or none.
    pub open spec fn b_received(self, fire: bool, bresp: u64) -> Self {
        if fire && self.b_expect.len() > 0 {
            Axi4LiteMasterView {
                b_expect: self.b_expect.drop_first(),
                last_bresp: bresp,
                inflight: self.inflight.remove(self.b_expect[0].addr),
                ..self
            }
        } else {
            self
        }
    }

    /// What is wrong with a write response.
    pub open spec fn b_faults(self, fire: bool, bresp: u64) -> Seq<LiteMasterFaultView> {
        if !fire {
            seq![]
        } else if self.b_expect.len() == 0 {
            seq![LiteMasterFaultView::ResponseWithoutWrite]
        } else if self.b_expect[0].expect_ok && bresp != OKAY {
            seq![LiteMasterFaultView::WriteResponse { addr: self.b_expect[0].addr, code: bresp }]
        } else {
            seq![]
        }
    }

    /// Whether a write can be issued, given one that may be.
    pub open spec fn write_idle(self) -> bool {
        &&& !self.aw_valid
        &&& !self.w_valid
        &&& !self.aw_acked
        &&& !self.w_acked
        &&& self.w_delay is None
        &&& self.b_expect.len() < self.config.max()
    }

    /// After the next write that may be issued, if any, was.
    pub open spec fn write_issued(self) -> Self {
        match next_issuable(self.ops, self.inflight, true, 0) {
            Some(i) => match self.ops[i] {
                OpView::Write { addr, data, strb, expect_ok } => if self.write_idle() {
                    let held_back = self.config.w_delay matches Some(d) && d > 0;
                    Axi4LiteMasterView {
                        ops: self.ops.remove(i),
                        aw_valid: true,
                        aw_addr: addr,
                        w_data: data,
                        w_strb: strb,
                        w_valid: !held_back,
                        w_delay: if held_back {
                            Some((self.config.w_delay->0 - 1) as u64)
                        } else {
                            None
                        },
                        cur_w: PendingWrite { addr, expect_ok },
                        inflight: self.inflight.insert(addr),
                        ..self
                    }
                } else {
                    self
                },
                OpView::Read(_) => self,
            },
            None => self,
        }
    }

    /// After the read address was taken, or not.
    pub open spec fn ar_taken(self, fire: bool) -> Self {
        if fire {
            Axi4LiteMasterView {
                ar_valid: false,
                r_expect: self.r_expect.push(self.cur_ar),
                ..self
            }
        } else {
            self
        }
    }

    /// After read data, or none. Data of a read that is not checked is kept;
    /// that of a read-modify-write is modified, recorded at its address to be
    /// read back, and written back first of all; what the queued accesses make of
    /// it is the latest value of its word.
    pub open spec fn r_received(self, fire: bool, data: Seq<u64>) -> Self {
        if fire && self.r_expect.len() > 0 {
            let read = self.r_expect[0];
            let s = Axi4LiteMasterView {
                r_expect: self.r_expect.drop_first(),
                inflight: self.inflight.remove(read.addr),
                ..self
            };
            match (read.expect, read.rmw) {
                (Some(_), _) => s,
                (None, Some(p)) => {
                    let width = self.config.width;
                    let key = aligned(read.addr, lane_count(width));
                    let new = modified(data, p.0, p.1);
                    let ops = seq![
                        OpView::Write {
                            addr: read.addr,
                            data: new,
                            strb: full_strobe(width),
                            expect_ok: true,
                        },
                    ] + s.ops;
                    Axi4LiteMasterView {
                        shadow: s.shadow.insert(read.addr, new),
                        latest: s.latest.insert(key, left_by_all(ops, key, data, width)),
                        ops,
                        ..s
                    }
                },
                (None, None) => Axi4LiteMasterView { reads: s.reads.push(data), ..s },
            }
        } else {
            self
        }
    }

    /// What is wrong with read data.
    pub open spec fn r_faults(self, fire: bool, data: Seq<u64>) -> Seq<LiteMasterFaultView> {
        if !fire {
            seq![]
        } else if self.r_expect.len() == 0 {
            seq![LiteMasterFaultView::ResponseWithoutRead]
        } else {
            match self.r_expect[0].expect {
                Some(want) => if want != data {
                    seq![
                        LiteMasterFaultView::ReadMismatch {
                            addr: self.r_expect[0].addr,
                            want,
                            got: data,
                        },
                    ]
                } else {
                    seq![]
                },
                None => seq![],
            }
        }
    }

    /// After the next read that may be issued, if any, was.
    pub open spec fn read_issued(self) -> Self {
        match next_issuable(self.ops, self.inflight, false, 0) {
            Some(i) => match self.ops[i] {
                OpView::Read(read) => if !self.ar_valid && self.r_expect.len()
                    < self.config.max() {
                    Axi4LiteMasterView {
                        ops: self.ops.remove(i),
                        ar_valid: true,
                        ar_addr: read.addr,
                        inflight: self.inflight.insert(read.addr),
                        cur_ar: read,
                        ..self
                    }
                } else {
                    self
                },
                OpView::Write { .. } => self,
            },
            None => self,
        }
    }

    /// After the handshakes of the write engine, before a response.
    pub open spec fn write_moved(self, p: Axi4LiteMasterPorts) -> Self {
        self.skewed().aw_taken(self.aw_valid && p.awready@.truth()).w_taken(
            self.w_valid && p.wready@.truth(),
        ).write_sent()
    }

    /// Whether a write response is handed over.
    pub open spec fn b_fires(self, p: Axi4LiteMasterPorts) -> bool {
        self.b_ready && p.bvalid@.truth()
    }

    /// Whether read data is handed over.
    pub open spec fn r_fires(self, p: Axi4LiteMasterPorts) -> bool {
        self.r_ready && p.rvalid@.truth()
    }

    /// The read data on the bus, as wide as the write data.
    pub open spec fn r_data(self, p: Axi4LiteMasterPorts) -> Seq<u64> {
        extended(p.rdata@, word_count(self.config.width))
    }

    /// After the write engine's cycle.
    pub open spec fn write_cycle(self, p: Axi4LiteMasterPorts, stall: bool) -> Self {
        let s = self.write_moved(p).b_received(self.b_fires(p), p.bresp).write_issued();
        Axi4LiteMasterView { b_ready: s.b_expect.len() > 0 && !stall, ..s }
    }

    /// After the read engine's cycle.
    pub open spec fn read_cycle(self, p: Axi4LiteMasterPorts, stall: bool) -> Self {
        let s = self.ar_taken(self.ar_valid && p.arready@.truth()).r_received(
            self.r_fires(p),
            self.r_data(p),
        ).read_issued();
        Axi4LiteMasterView { r_ready: s.r_expect.len() > 0 && !stall, ..s }
    }

    /// After the draw that decides whether to stall.
    pub open spec fn drawn(self) -> Self {
        Axi4LiteMasterView { lfsr: after_stall(self.lfsr, self.config.stall), ..self }
    }

    /// After a cycle.
    pub open spec fn clocked(self, rst: bool, p: Axi4LiteMasterPorts) -> Self {
        let stall = stalls(self.lfsr, self.config.stall);
        if rst {
            self.reset()
        } else {
            self.drawn().write_cycle(p, stall).read_cycle(p, stall)
        }
    }

    /// What a cycle reports.
    pub open spec fn faults(self, rst: bool, p: Axi4LiteMasterPorts) -> Seq<LiteMasterFaultView> {
        let stall = stalls(self.lfsr, self.config.stall);
        let w = self.drawn().write_cycle(p, stall);
        if rst {
            seq![]
        } else {
            self.drawn().write_moved(p).b_faults(self.b_fires(p), p.bresp) + w.ar_taken(
                w.ar_valid && p.arready@.truth(),
            ).r_faults(self.r_fires(p), self.r_data(p))
        }
    }

    /// Whether everything queued has completed.
    pub open spec fn idle(self) -> bool {
        &&& self.ops.len() == 0
        &&& self.b_expect.len() == 0
        &&& self.r_expect.len() == 0
        &&& !self.aw_valid
        &&& !self.w_valid
        &&& !self.ar_valid
        &&& !self.aw_acked
        &&& !self.w_acked
    }

    /// With an access queued last, and with what it leaves as the latest value
    /// of its word.
    pub open spec fn queued(self, op: OpView) -> Self {
        let key = aligned(op.addr(), lane_count(self.config.width));
        Axi4LiteMasterView {
            latest: if op.changes() {
                self.latest.insert(key, left_by(op, key, self.recorded(key), self.config.width))
            } else {
                self.latest
            },
            ops: self.ops.push(op),
            ..self
        }
    }

    /// With a made-up write queued, and with `kept` to be read back.
    pub open spec fn wrote(
        self,
        addr: u64,
        data: Seq<u64>,
        strb: Seq<u64>,
        kept: Seq<u64>,
    ) -> Self {
        Axi4LiteMasterView {
            shadow: self.shadow.insert(addr, kept),
            ..self.queued(OpView::Write { addr, data, strb, expect_ok: true })
        }
    }

    /// What is to be read back at an address; zero where nothing is.
    pub open spec fn kept(self, addr: u64) -> Seq<u64> {
        if self.shadow.contains_key(addr) {
            self.shadow[addr]
        } else {
            zeros(word_count(self.config.width))
        }
    }

    /// The latest value of the word at an aligned address; zero where no access
    /// changes it.
    pub open spec fn recorded(self, addr: u64) -> Seq<u64> {
        if self.latest.contains_key(addr) {
            self.latest[addr]
        } else {
            zeros(word_count(self.config.width))
        }
    }

    /// After one made-up write.
    pub open spec fn random_write(self, span: u64) -> Self {
        let x = xorshift(self.traffic_lfsr);
        let width = self.config.width;
        let data = random_data(x, width);
        let s = self.wrote(
            placed(x, span, lane_count(width)),
            data,
            full_strobe(width),
            data,
        );
        Axi4LiteMasterView { traffic_lfsr: after_data(x, width), ..s }
    }

    /// After `n` made-up writes.
    pub open spec fn random_writes(self, n: nat, span: u64) -> Self
        decreases n,
    {
        if n == 0 {
            self
        } else {
            self.random_writes((n - 1) as nat, span).random_write(span)
        }
    }

    /// After one made-up write with a random strobe, merged byte by byte into
    /// what is to be read back.
    pub open spec fn random_strobed_write(self, span: u64) -> Self {
        let x = xorshift(self.traffic_lfsr);
        let width = self.config.width;
        let lanes = lane_count(width);
        let addr = placed(x, span, lanes);
        let data = random_data(x, width);
        let y = after_data(x, width);
        let strb = random_strobe(y, word_count(lanes as u32), lanes as nat);
        let kept = merged(self.kept(addr), data, strb, lanes as nat);
        Axi4LiteMasterView {
            traffic_lfsr: xorshift_nth(y, lanes as nat),
            ..self.wrote(addr, data, strb, kept)
        }
    }

    /// After `n` made-up writes with random strobes.
    pub open spec fn random_strobed_writes(self, n: nat, span: u64) -> Self
        decreases n,
    {
        if n == 0 {
            self
        } else {
            self.random_strobed_writes((n - 1) as nat, span).random_strobed_write(span)
        }
    }

    /// After one made-up access: a read checked against the latest value, or a
    /// write.
    pub open spec fn random_access(self, span: u64, read_percent: u64) -> Self {
        let x = xorshift(self.traffic_lfsr);
        let y = xorshift(x);
        let width = self.config.width;
        let addr = placed(x, span, lane_count(width));
        if y % 100 < read_percent {
            let s = self.queued(
                OpView::Read(
                    ReadView { addr, expect: Some(self.recorded(addr)), rmw: None },
                ),
            );
            Axi4LiteMasterView { traffic_lfsr: y, ..s }
        } else {
            let data = random_data(y, width);
            let s = self.wrote(addr, data, full_strobe(width), data);
            Axi4LiteMasterView { traffic_lfsr: after_data(y, width), ..s }
        }
    }

    /// After `n` made-up accesses.
    pub open spec fn random_traffic(self, n: nat, span: u64, read_percent: u64) -> Self
        decreases n,
    {
        if n == 0 {
            self
        } else {
            self.random_traffic((n - 1) as nat, span, read_percent).random_access(
                span,
                read_percent,
            )
        }
    }

    /// The checked reads of what is to be read back at some addresses.
    pub open spec fn checks(self, addrs: Seq<u64>) -> Seq<OpView> {
        addrs.map_values(
            |a: u64|
                OpView::Read(ReadView { addr: a, expect: Some(self.shadow[a]), rmw: None }),
        )
    }
}

/// Active AXI4-Lite master. Methods queue accesses; the clock drives them onto
/// the bus, pipelining responses in each direction and keeping accesses to one
/// address in program order. Checked accesses are compared by the master
/// itself.
pub struct Axi4LiteMaster {
    config: LiteMasterConfig,
    ops: Fifo<Op>,
    inflight: KeySet,
    b_expect: Fifo<PendingWrite>,
    r_expect: Fifo<ReadMeta>,
    reads: Fifo<Vec<u64>>,
    last_bresp: u64,
    lfsr: u64,
    traffic_lfsr: u64,
    shadow: Table<Vec<u64>>,
    latest: Table<Vec<u64>>,
    aw_valid: bool,
    w_valid: bool,
    ar_valid: bool,
    b_ready: bool,
    r_ready: bool,
    aw_addr: u64,
    w_data: Vec<u64>,
    w_strb: Vec<u64>,
    ar_addr: u64,
    aw_acked: bool,
    w_acked: bool,
    cur_w: PendingWrite,
    cur_ar: ReadMeta,
    w_delay: Option<u64>,
}

impl View for Axi4LiteMaster {
    type V = Axi4LiteMasterView;

    closed spec fn view(&self) -> Axi4LiteMasterView {
        Axi4LiteMasterView {
            config: self.config,
            ops: self.ops@,
            inflight: self.inflight@,
            b_expect: self.b_expect@,
            r_expect: self.r_expect@,
            reads: self.reads@,
            last_bresp: self.last_bresp,
            lfsr: self.lfsr,
            traffic_lfsr: self.traffic_lfsr,
            shadow: self.shadow@,
            latest: self.latest@,
            aw_valid: self.aw_valid,
            w_valid: self.w_valid,
            ar_valid: self.ar_valid,
            b_ready: self.b_ready,
            r_ready: self.r_ready,
            aw_addr: self.aw_addr,
            w_data: self.w_data@,
            w_strb: self.w_strb@,
            ar_addr: self.ar_addr,
            aw_acked: self.aw_acked,
            w_acked: self.w_acked,
            cur_w: self.cur_w,
            cur_ar: self.cur_ar@,
            w_delay: self.w_delay,
        }
    }
}

/// The refusal of a read result that is not there.
#[derive(Clone, Copy, Debug, PartialEq, Eq, Structural)]
pub struct NoReadResult;

impl NoReadResult {
    /// The refusal in words.
    pub fn message(&self) -> (r: &'static str)
        ensures
            r@ == "no read result available"@,
    {
        "no read result available"
    }
}

impl Axi4LiteMaster {
    /// A master of a bus with these port widths. An address port wider than
    /// 64 bits is refused.
    pub fn on_build(awaddr: u32, araddr: u32, config: LiteMasterConfig, seed: u64) -> (r: Result<
        Axi4LiteMaster,
        BuildError,
    >)
        ensures
            match r {
                Ok(m) => too_wide("axi4_lite_master", awaddr, araddr) is None && m@
                    == Axi4LiteMasterView::fresh(config, seed) && m@.wf(),
                Err(e) => too_wide("axi4_lite_master", awaddr, araddr) == Some(e),
            },
    {
        match find_too_wide("axi4_lite_master", awaddr, araddr) {
            Some(e) => Err(e),
            None => Ok(
                Axi4LiteMaster {
                    config,
                    ops: Fifo::new(),
                    inflight: KeySet::new(),
                    b_expect: Fifo::new(),
                    r_expect: Fifo::new(),
                    reads: Fifo::new(),
                    last_bresp: 0,
                    lfsr: seed_lfsr(seed),
                    traffic_lfsr: seed_traffic(seed),
                    shadow: Table::new(),
                    latest: Table::new(),
                    aw_valid: false,
                    w_valid: false,
                    ar_valid: false,
                    b_ready: false,
                    r_ready: false,
                    aw_addr: 0,
                    w_data: zero_words(words_for(config.width)),
                    w_strb: zero_words(words_for(bytes_for(config.width) as u32)),
                    ar_addr: 0,
                    aw_acked: false,
                    w_acked: false,
                    cur_w: PendingWrite { addr: 0, expect_ok: false },
                    cur_ar: ReadMeta { addr: 0, expect: None, rmw: None },
                    w_delay: None,
                },
            ),
        }
    }

    fn reset_state(&mut self)
        ensures
            final(self)@ == old(self)@.reset(),
    {
        self.ops.clear();
        self.inflight.clear();
        self.b_expect.clear();
        self.r_expect.clear();
        self.reads.clear();
        self.shadow.clear();
        self.latest.clear();
        self.aw_valid = false;
        self.w_valid = false;
        self.ar_valid = false;
        self.b_ready = false;
        self.r_ready = false;
        self.aw_acked = false;
        self.w_acked = false;
        self.w_delay = None;
        self.w_data = zero_words(words_for(self.config.width));
        self.w_strb = zero_words(words_for(bytes_for(self.config.width) as u32));
        assert(self@ =~= old(self)@.reset());
    }

    fn drive(&self, axi: &mut Axi4LiteMasterPorts)
        ensures
            drives(self@, *old(axi), *final(axi)),
    {
        axi.awvalid = self.aw_valid;
        axi.awaddr = self.aw_addr;
        axi.awprot = 0;
        axi.wvalid = self.w_valid;
        axi.wdata = copy_words(&self.w_data);
        axi.wstrb = copy_words(&self.w_strb);
        axi.bready = self.b_ready;
        axi.arvalid = self.ar_valid;
        axi.araddr = self.ar_addr;
        axi.arprot = 0;
        axi.rready = self.r_ready;
    }

    fn move_write(&mut self, awready: bool, wready: bool)
        ensures
            final(self)@ == old(self)@.skewed().aw_taken(old(self)@.aw_valid && awready).w_taken(
                old(self)@.w_valid && wready,
            ).write_sent(),
    {
        let aw_v = self.aw_valid;
        let w_v = self.w_valid;
        if let Some(n) = self.w_delay {
            if n == 0 {
                self.w_valid = true;
                self.w_delay = None;
            } else {
                self.w_delay = Some(n - 1);
            }
        }
        if aw_v && awready {
            self.aw_valid = false;
            self.aw_acked = true;
        }
        if w_v && wready {
            self.w_valid = false;
            self.w_acked = true;
        }
        if self.aw_acked && self.w_acked {
            self.b_expect.push_back(self.cur_w);
            self.aw_acked = false;
            self.w_acked = false;
        }
    }

    fn receive_b(&mut self, bresp: u64, f: &mut Vec<LiteMasterFault>)
        ensures
            final(self)@ == old(self)@.b_received(true, bresp),
            fault_views(final(f)@) == fault_views(old(f)@) + old(self)@.b_faults(true, bresp),
    {
        match self.b_expect.pop_front() {
            Some(w) => {
                self.last_bresp = bresp;
                if w.expect_ok && bresp != OKAY {
                    f.push(LiteMasterFault::WriteResponse { addr: w.addr, code: bresp });
                }
                let _ = self.inflight.remove(w.addr);
            },
            None => f.push(LiteMasterFault::ResponseWithoutWrite),
        }
        assert(fault_views(f@) =~= fault_views(old(f)@) + old(self)@.b_faults(true, bresp));
    }

    fn issue_write(&mut self)
        ensures
            final(self)@ == old(self)@.write_issued(),
    {
        let max: u64 = match self.config.max_outstanding {
            Some(n) => n,
            None => u64::MAX,
        };
        if !(!self.aw_valid && !self.w_valid && !self.aw_acked && !self.w_acked
            && self.w_delay.is_none() && (self.b_expect.len() as u64) < max) {
            return ;
        }
        if let Some(i) = next_op(&self.ops, &self.inflight, true) {
            if let Op::Write { addr, data, strb, expect_ok } = self.ops.remove(i) {
                self.aw_valid = true;
                self.aw_addr = addr;
                self.w_data = data;
                self.w_strb = strb;
                match self.config.w_delay {
                    Some(d) => if d > 0 {
                        self.w_valid = false;
                        self.w_delay = Some(d - 1);
                    } else {
                        self.w_valid = true;
                    },
                    None => {
                        self.w_valid = true;
                    },
                }
                self.cur_w = PendingWrite { addr, expect_ok };
                self.inflight.insert(addr);
            }
        }
    }

    fn take_ar(&mut self)
        ensures
            final(self)@ == old(self)@.ar_taken(true),
    {
        self.ar_valid = false;
        self.r_expect.push_back(self.cur_ar.copy());
    }

    fn receive_r(&mut self, data: Vec<u64>, f: &mut Vec<LiteMasterFault>)
        requires
            data.len() == word_count(old(self)@.config.width),
        ensures
            final(self)@ == old(self)@.r_received(true, data@),
            fault_views(final(f)@) == fault_views(old(f)@) + old(self)@.r_faults(true, data@),
    {
        match self.r_expect.pop_front() {
            Some(read) => {
                let ReadMeta { addr, expect, rmw } = read;
                let _ = self.inflight.remove(addr);
                match expect {
                    Some(want) => {
                        if !same_words(&want, &data) {
                            f.push(LiteMasterFault::ReadMismatch { addr, want, got: data });
                        }
                    },
                    None => match rmw {
                        Some(p) => {
                            let width: u32 = self.config.width;
                            let new: Vec<u64> = modify(&data, &p.0, &p.1);
                            let _ = self.shadow.insert(addr, copy_words(&new));
                            self.ops.push_front(
                                Op::Write {
                                    addr,
                                    data: new,
                                    strb: full_strb(width),
                                    expect_ok: true,
                                },
                            );
                            let key: u64 = align(addr, bytes_for(width));
                            let mut word: Vec<u64> = copy_words(&data);
                            apply_all(&self.ops, key, &mut word, width);
                            let _ = self.latest.insert(key, word);
                        },
                        None => self.reads.push_back(data),
                    },
                }
            },
            None => f.push(LiteMasterFault::ResponseWithoutRead),
        }
        assert(fault_views(f@) =~= fault_views(old(f)@) + old(self)@.r_faults(true, data@));
    }

    fn issue_read(&mut self)
        ensures
            final(self)@ == old(self)@.read_issued(),
    {
        let max: u64 = match self.config.max_outstanding {
            Some(n) => n,
            None => u64::MAX,
        };
        if self.ar_valid || (self.r_expect.len() as u64) >= max {
            return ;
        }
        if let Some(i) = next_op(&self.ops, &self.inflight, false) {
            if let Op::Read(read) = self.ops.remove(i) {
                self.ar_valid = true;
                self.ar_addr = read.addr;
                self.inflight.insert(read.addr);
                self.cur_ar = read;
            }
        }
    }

    fn clock_write(&mut self, p: &Axi4LiteMasterPorts, stall: bool, f: &mut Vec<LiteMasterFault>)
        ensures
            final(self)@ == old(self)@.write_cycle(*p, stall),
            fault_views(final(f)@) == fault_views(old(f)@) + old(self)@.write_moved(*p).b_faults(
                old(self)@.b_fires(*p),
                p.bresp,
            ),
    {
        let b_fire = self.b_ready && is_set(&p.bvalid);
        self.move_write(is_set(&p.awready), is_set(&p.wready));
        let ghost s = self@;
        if b_fire {
            self.receive_b(p.bresp, f);
        }
        assert(fault_views(f@) =~= fault_views(old(f)@) + s.b_faults(b_fire, p.bresp));
        self.issue_write();
        self.b_ready = !self.b_expect.is_empty() && !stall;
    }

    fn clock_read(&mut self, p: &Axi4LiteMasterPorts, stall: bool, f: &mut Vec<LiteMasterFault>)
        ensures
            final(self)@ == old(self)@.read_cycle(*p, stall),
            fault_views(final(f)@) == fault_views(old(f)@) + old(self)@.ar_taken(
                old(self)@.ar_valid && p.arready@.truth(),
            ).r_faults(old(self)@.r_fires(*p), old(self)@.r_data(*p)),
    {
        let r_fire = self.r_ready && is_set(&p.rvalid);
        if self.ar_valid && is_set(&p.arready) {
            self.take_ar();
        }
        let ghost s = self@;
        if r_fire {
            let data: Vec<u64> = sized(&p.rdata, self.config.width);
            self.receive_r(data, f);
        }
        assert(fault_views(f@) =~= fault_views(old(f)@) + s.r_faults(
            r_fire,
            old(self)@.r_data(*p),
        ));
        self.issue_read();
        self.r_ready = !self.r_expect.is_empty() && !stall;
    }

    /// Moves every engine on by a cycle and drives the outputs; the result is
    /// what the cycle reports.
    pub fn on_clock(&mut self, rst: &Value, axi: &mut Axi4LiteMasterPorts) -> (r: Vec<
        LiteMasterFault,
    >)
        requires
            old(self)@.wf(),
        ensures
            final(self)@ == old(self)@.clocked(rst@.truth(), *old(axi)),
            final(self)@.wf(),
            fault_views(r@) == old(self)@.faults(rst@.truth(), *old(axi)),
            drives(final(self)@, *old(axi), *final(axi)),
    {
        let mut f: Vec<LiteMasterFault> = Vec::new();
        assert(fault_views(f@) =~= seq![]);
        if is_set(rst) {
            self.reset_state();
            self.drive(axi);
            return f;
        }
        let stall = stall_now(&mut self.lfsr, self.config.stall);
        assert(self@ =~= old(self)@.drawn());
        self.clock_write(axi, stall, &mut f);
        proof {
            lemma_write_cycle_frame(old(self)@.drawn(), *axi, stall);
        }
        self.clock_read(axi, stall, &mut f);
        proof {
            lemma_clock_keeps_wf(old(self)@, *axi);
            assert(fault_views(f@) =~= old(self)@.faults(false, *axi));
        }
        self.drive(axi);
        f
    }

    /// Queues a full-width write.
    pub fn write(&mut self, addr: u64, data: &Value) -> (r: Result<(), ArgError>)
        requires
            old(self)@.wf(),
        ensures
            final(self)@.wf(),
            write_answer(r, old(self)@, final(self)@, addr, data, false),
    {
        self.queue_write(addr, data, false)
    }

    /// Queues a self-checking write: its response has to be OKAY.
    pub fn expect_write(&mut self, addr: u64, data: &Value) -> (r: Result<(), ArgError>)
        requires
            old(self)@.wf(),
        ensures
            final(self)@.wf(),
            write_answer(r, old(self)@, final(self)@, addr, data, true),
    {
        self.queue_write(addr, data, true)
    }

    fn queue_write(&mut self, addr: u64, data: &Value, expect_ok: bool) -> (r: Result<
        (),
        ArgError,
    >)
        requires
            old(self)@.wf(),
        ensures
            final(self)@.wf(),
            write_answer(r, old(self)@, final(self)@, addr, data, expect_ok),
    {
        match arg_words(data, self.config.width, "write data") {
            Ok(data) => {
                let strb: Vec<u64> = full_strb(self.config.width);
                self.push(Op::Write { addr, data, strb, expect_ok });
                Ok(())
            },
            Err(e) => Err(e),
        }
    }

    /// Queues a write with an explicit byte strobe.
    pub fn write_strb(&mut self, addr: u64, data: &Value, strb: &Value) -> (r: Result<
        (),
        ArgError,
    >)
        requires
            old(self)@.wf(),
        ensures
            final(self)@.wf(),
            ({
                let width = old(self)@.config.width;
                let lanes = lane_count(width) as u32;
                match r {
                    Ok(_) => arg_result(data@, width) is Ok && arg_result(strb@, lanes) is Ok
                        && final(self)@ == old(self)@.queued(
                        OpView::Write {
                            addr,
                            data: arg_result(data@, width)->Ok_0,
                            strb: arg_result(strb@, lanes)->Ok_0,
                            expect_ok: false,
                        },
                    ),
                    Err(e) => final(self)@ == old(self)@ && (if arg_result(data@, width) is Err {
                        answers(Err(e), data@, width, "write data"@)
                    } else {
                        answers(Err(e), strb@, lanes, "write strobe"@)
                    }),
                }
            }),
    {
        match arg_words(data, self.config.width, "write data") {
            Ok(data) => match arg_words(strb, bytes_for(self.config.width) as u32, "write strobe") {
                Ok(strb) => {
                    self.push(Op::Write { addr, data, strb, expect_ok: false });
                    Ok(())
                },
                Err(e) => Err(e),
            },
            Err(e) => Err(e),
        }
    }

    /// Queues a read; its data comes with [`Axi4LiteMaster::pop_read`].
    pub fn read(&mut self, addr: u64)
        requires
            old(self)@.wf(),
        ensures
            final(self)@.wf(),
            final(self)@ == old(self)@.queued(
                OpView::Read(ReadView { addr, expect: None, rmw: None }),
            ),
    {
        self.push(Op::Read(ReadMeta { addr, expect: None, rmw: None }));
    }

    /// Queues a self-checking read: its data is compared and not kept.
    pub fn expect_read(&mut self, addr: u64, data: &Value) -> (r: Result<(), ArgError>)
        requires
            old(self)@.wf(),
        ensures
            final(self)@.wf(),
            match r {
                Ok(_) => arg_result(data@, old(self)@.config.rwidth) is Ok && final(self)@
                    == old(self)@.queued(
                    OpView::Read(
                        ReadView {
                            addr,
                            expect: Some(arg_result(data@, old(self)@.config.rwidth)->Ok_0),
                            rmw: None,
                        },
                    ),
                ),
                Err(e) => final(self)@ == old(self)@ && answers(
                    Err(e),
                    data@,
                    old(self)@.config.rwidth,
                    "expected read data"@,
                ),
            },
    {
        match arg_words(data, self.config.rwidth, "expected read data") {
            Ok(want) => {
                self.push(Op::Read(ReadMeta { addr, expect: Some(want), rmw: None }));
                Ok(())
            },
            Err(e) => Err(e),
        }
    }

    /// Queues a read-modify-write: reads `addr`, replaces the bits of `mask`
    /// by those of `value`, and writes the result back.
    pub fn rmw(&mut self, addr: u64, mask: &Value, value: &Value) -> (r: Result<(), ArgError>)
        requires
            old(self)@.wf(),
        ensures
            final(self)@.wf(),
            ({
                let width = old(self)@.config.width;
                match r {
                    Ok(_) => arg_result(mask@, width) is Ok && arg_result(value@, width) is Ok
                        && final(self)@ == old(self)@.queued(
                        OpView::Read(
                            ReadView {
                                addr,
                                expect: None,
                                rmw: Some(
                                    (
                                        arg_result(mask@, width)->Ok_0,
                                        arg_result(value@, width)->Ok_0,
                                    ),
                                ),
                            },
                        ),
                    ),
                    Err(e) => final(self)@ == old(self)@ && (if arg_result(mask@, width) is Err {
                        answers(Err(e), mask@, width, "rmw mask"@)
                    } else {
                        answers(Err(e), value@, width, "rmw value"@)
                    }),
                }
            }),
    {
        match arg_words(mask, self.config.width, "rmw mask") {
            Ok(mask) => match arg_words(value, self.config.width, "rmw value") {
                Ok(value) => {
                    self.push(Op::Read(ReadMeta { addr, expect: None, rmw: Some((mask, value)) }));
                    Ok(())
                },
                Err(e) => Err(e),
            },
            Err(e) => Err(e),
        }
    }

    /// Queues an access last and notes what it leaves.
    fn push(&mut self, op: Op)
        requires
            old(self)@.wf(),
        ensures
            final(self)@.wf(),
            final(self)@ == old(self)@.queued(op@),
    {
        let changes = match &op {
            Op::Write { .. } => true,
            Op::Read(r) => r.expect.is_none() && r.rmw.is_some(),
        };
        if changes {
            let width: u32 = self.config.width;
            let key: u64 = align(op.addr(), bytes_for(width));
            proof {
                lemma_left_by_len(op@, key, self@.recorded(key), width);
            }
            let mut word = match self.latest.remove(key) {
                Some(w) => w,
                None => zero_words(words_for(width)),
            };
            apply(&op, key, &mut word, width);
            let _ = self.latest.insert(key, word);
        }
        self.ops.push_back(op);
        assert(self@ =~= old(self)@.queued(op@));
    }

    fn push_made_up(&mut self, addr: u64, data: Vec<u64>, strb: Vec<u64>, kept: Vec<u64>)
        requires
            old(self)@.wf(),
            kept.len() == word_count(old(self)@.config.width),
        ensures
            final(self)@.wf(),
            final(self)@ == old(self)@.wrote(addr, data@, strb@, kept@),
    {
        self.push(Op::Write { addr, data, strb, expect_ok: true });
        let _ = self.shadow.insert(addr, kept);
        assert(self@ =~= old(self)@.wrote(addr, data@, strb@, kept@));
    }

    /// Queues `count` self-checking writes of random data to random aligned
    /// addresses in a `2^addr_bits`-byte window, and records each value for
    /// [`Axi4LiteMaster::verify_all`].
    pub fn random_writes(&mut self, count: u64, addr_bits: u64)
        requires
            old(self)@.wf(),
        ensures
            final(self)@.wf(),
            final(self)@ == old(self)@.random_writes(count as nat, window(addr_bits)),
    {
        let span: u64 = span_of(addr_bits);
        let mut n: u64 = 0;
        while n < count
            invariant
                n <= count,
                span == window(addr_bits),
                span > 0,
                self@.wf(),
                self@ == old(self)@.random_writes(n as nat, span),
            decreases count - n,
        {
            let ghost s = self@;
            let x: u64 = next_rand(&mut self.traffic_lfsr);
            let addr: u64 = place(x, span, bytes_for(self.config.width));
            let data: Vec<u64> = rand_data(&mut self.traffic_lfsr, self.config.width);
            let strb: Vec<u64> = full_strb(self.config.width);
            let kept: Vec<u64> = copy_words(&data);
            self.push_made_up(addr, data, strb, kept);
            assert(self@ =~= s.random_write(span));
            n = n + 1;
        }
    }

    /// As [`Axi4LiteMaster::random_writes`], with a random strobe on each
    /// write. The recorded value is merged byte by byte.
    pub fn random_strobed_writes(&mut self, count: u64, addr_bits: u64)
        requires
            old(self)@.wf(),
        ensures
            final(self)@.wf(),
            final(self)@ == old(self)@.random_strobed_writes(count as nat, window(addr_bits)),
    {
        let span: u64 = span_of(addr_bits);
        let mut n: u64 = 0;
        while n < count
            invariant
                n <= count,
                span == window(addr_bits),
                span > 0,
                self@.wf(),
                self@ == old(self)@.random_strobed_writes(n as nat, span),
            decreases count - n,
        {
            let ghost s = self@;
            let x: u64 = next_rand(&mut self.traffic_lfsr);
            let bytes: u64 = bytes_for(self.config.width);
            let addr: u64 = place(x, span, bytes);
            let data: Vec<u64> = rand_data(&mut self.traffic_lfsr, self.config.width);
            let strb: Vec<u64> = rand_strobe(&mut self.traffic_lfsr, self.config.width);
            let mut kept: Vec<u64> = match self.shadow.get(addr) {
                Some(w) => copy_words(w),
                None => zero_words(words_for(self.config.width)),
            };
            proof {
                lemma_lanes_fit(self.config.width);
                lemma_merged_len(kept@, data@, strb@, bytes as nat);
            }
            merge_lanes(&mut kept, &data, &strb, bytes);
            self.push_made_up(addr, data, strb, kept);
            assert(self@ =~= s.random_strobed_write(span));
            n = n + 1;
        }
    }

    /// Queues `count` random self-checking accesses in a `2^addr_bits`-byte
    /// window: a read with probability `read_percent / 100`, checked against
    /// the value last written, by whatever access, or else a write of random
    /// data.
    pub fn random_traffic(&mut self, count: u64, addr_bits: u64, read_percent: u64)
        requires
            old(self)@.wf(),
        ensures
            final(self)@.wf(),
            final(self)@ == old(self)@.random_traffic(
                count as nat,
                window(addr_bits),
                read_percent,
            ),
    {
        let span: u64 = span_of(addr_bits);
        let mut n: u64 = 0;
        while n < count
            invariant
                n <= count,
                span == window(addr_bits),
                span > 0,
                self@.wf(),
                self@ == old(self)@.random_traffic(n as nat, span, read_percent),
            decreases count - n,
        {
            let ghost s = self@;
            let x: u64 = next_rand(&mut self.traffic_lfsr);
            let addr: u64 = place(x, span, bytes_for(self.config.width));
            if next_rand(&mut self.traffic_lfsr) % 100 < read_percent {
                let want: Vec<u64> = match self.latest.get(addr) {
                    Some(w) => copy_words(w),
                    None => zero_words(words_for(self.config.width)),
                };
                self.push(Op::Read(ReadMeta { addr, expect: Some(want), rmw: None }));
            } else {
                let data: Vec<u64> = rand_data(&mut self.traffic_lfsr, self.config.width);
                let strb: Vec<u64> = full_strb(self.config.width);
                let kept: Vec<u64> = copy_words(&data);
                self.push_made_up(addr, data, strb, kept);
            }
            assert(self@ =~= s.random_access(span, read_percent));
            n = n + 1;
        }
    }

    /// Queues a self-checking read of every address with a made-up write, or
    /// whose read-modify-write has completed, in increasing order; the result
    /// is how many. Each read expects what was recorded there last: the value
    /// made up, or the one written back.
    pub fn verify_all(&mut self) -> (r: u64)
        requires
            old(self)@.wf(),
        ensures
            final(self)@.wf(),
            exists|addrs: Seq<u64>|
                {
                    &&& lists_keys(addrs, old(self)@.shadow)
                    &&& r == addrs.len()
                    &&& final(self)@ == (Axi4LiteMasterView {
                        ops: old(self)@.ops + #[trigger] old(self)@.checks(addrs),
                        ..old(self)@
                    })
                },
    {
        let addrs = self.shadow.sorted_keys();
        let mut i: usize = 0;
        assert(self@.ops =~= old(self)@.ops + old(self)@.checks(addrs@.take(0)));
        while i < addrs.len()
            invariant
                i <= addrs.len(),
                lists_keys(addrs@, old(self)@.shadow),
                self@ == (Axi4LiteMasterView {
                    ops: old(self)@.ops + old(self)@.checks(addrs@.take(i as int)),
                    ..old(self)@
                }),
            decreases addrs.len() - i,
        {
            let addr: u64 = addrs[i];
            assert(addrs@.contains(addrs@[i as int]));
            if let Some(w) = self.shadow.get(addr) {
                let want: Vec<u64> = copy_words(w);
                self.ops.push_back(Op::Read(ReadMeta { addr, expect: Some(want), rmw: None }));
            }
            i = i + 1;
            assert(self@.ops =~= old(self)@.ops + old(self)@.checks(addrs@.take(i as int)));
        }
        assert(addrs@.take(addrs.len() as int) =~= addrs@);
        addrs.len() as u64
    }

    /// Takes the oldest completed read out, at full bus width.
    pub fn pop_read(&mut self) -> (r: Result<Value, NoReadResult>)
        requires
            old(self)@.wf(),
        ensures
            final(self)@.wf(),
            match r {
                Ok(v) => old(self)@.reads.len() > 0 && v@ == data_view(
                    old(self)@.reads[0],
                    old(self)@.config.rwidth,
                ) && final(self)@ == (Axi4LiteMasterView {
                    reads: old(self)@.reads.drop_first(),
                    ..old(self)@
                }),
                Err(_) => old(self)@.reads.len() == 0 && final(self)@ == old(self)@,
            },
    {
        match self.reads.pop_front() {
            Some(words) => Ok(data_value(&words, self.config.rwidth)),
            None => Err(NoReadResult),
        }
    }

    /// The number of completed reads that wait.
    pub fn num_reads(&self) -> (r: u64)
        ensures
            r == self@.reads.len(),
    {
        self.reads.len() as u64
    }

    /// 1 when everything queued has completed, else 0.
    pub fn idle(&self) -> (r: u64)
        ensures
            r == (if self@.idle() {
                1u64
            } else {
                0u64
            }),
    {
        let busy = !self.ops.is_empty() || !self.b_expect.is_empty() || !self.r_expect.is_empty()
            || self.aw_valid || self.w_valid || self.ar_valid || self.aw_acked || self.w_acked;
        if busy {
            0
        } else {
            1
        }
    }

    /// The code of the last write response.
    pub fn last_bresp(&self) -> (r: u64)
        ensures
            r == self@.last_bresp,
    {
        self.last_bresp
    }

    /// The number of accesses that are not issued.
    pub fn queued(&self) -> (r: u64)
        ensures
            r == self@.ops.len(),
    {
        self.ops.len() as u64
    }

    /// The number of responses awaited in both directions.
    pub fn outstanding(&self) -> (r: u64)
        requires
            self@.b_expect.len() + self@.r_expect.len() <= usize::MAX,
        ensures
            r == self@.b_expect.len() + self@.r_expect.len(),
    {
        (self.b_expect.len() + self.r_expect.len()) as u64
    }
}

/// Whether `r` answers a request to queue a full-width write.
pub open spec fn write_answer(
    r: Result<(), ArgError>,
    before: Axi4LiteMasterView,
    after: Axi4LiteMasterView,
    addr: u64,
    data: &Value,
    expect_ok: bool,
) -> bool {
    let width = before.config.width;
    match r {
        Ok(_) => arg_result(data@, width) is Ok && after == before.queued(
            OpView::Write {
                addr,
                data: arg_result(data@, width)->Ok_0,
                strb: full_strobe(width),
                expect_ok,
            },
        ),
        Err(e) => after == before && answers(Err(e), data@, width, "write data"@),
    }
}

/// The write engine leaves the read engine alone.
proof fn lemma_write_cycle_frame(s: Axi4LiteMasterView, p: Axi4LiteMasterPorts, stall: bool)
    ensures
        s.write_cycle(p, stall).r_ready == s.r_ready,
        s.write_cycle(p, stall).ar_valid == s.ar_valid,
        s.write_cycle(p, stall).config == s.config,
        s.write_cycle(p, stall).shadow == s.shadow,
        s.write_cycle(p, stall).latest == s.latest,
{
}

/// Read data keeps what is recorded as wide as the bus.
proof fn lemma_data_keeps_wf(s: Axi4LiteMasterView, fire: bool, data: Seq<u64>)
    requires
        s.wf(),
        data.len() == word_count(s.config.width),
    ensures
        s.r_received(fire, data).wf(),
{
    let t = s.r_received(fire, data);
    let width = s.config.width;
    if fire && s.r_expect.len() > 0 {
        let key = aligned(s.r_expect[0].addr, lane_count(width));
        lemma_left_by_all_len(t.ops, key, data, width);
        assert forall|a: u64| #[trigger] t.latest.contains_key(a) implies t.latest[a].len()
            == word_count(width) by {
            if a != key {
                assert(s.latest.contains_key(a) ==> s.latest[a].len() == word_count(width));
            }
        }
        assert forall|a: u64| #[trigger] t.shadow.contains_key(a) implies t.shadow[a].len()
            == word_count(width) by {
            assert(s.shadow.contains_key(a) ==> s.shadow[a].len() == word_count(width));
        }
    }
}

proof fn lemma_clock_keeps_wf(s: Axi4LiteMasterView, p: Axi4LiteMasterPorts)
    requires
        s.wf(),
    ensures
        s.clocked(false, p).wf(),
{
    let stall = stalls(s.lfsr, s.config.stall);
    let w = s.drawn().write_cycle(p, stall);
    lemma_write_cycle_frame(s.drawn(), p, stall);
    assert(w.wf());
    let a = w.ar_taken(w.ar_valid && p.arready@.truth());
    assert(a.wf());
    let b = a.r_received(w.r_fires(p), w.r_data(p));
    lemma_data_keeps_wf(a, w.r_fires(p), w.r_data(p));
    let c = b.read_issued();
    assert(c.shadow == b.shadow && c.latest == b.latest && c.config == b.config);
}

} // verus!
