//! Active AXI4 master.

use crate::axi4::burst::{beat, beat_addr, beat_fits, beat_in_range, INCR};
use crate::axi4::generate::{incr_burst, make_incr_burst, Shadow, ShadowView};
use crate::axi4::issue::{
    awaited, free_id, next_id, outcome_after, response_faults, take_response, MasterConfig, Outcome,
    ReadInputs, ReadInputsView, ReadIssue, ReadIssueView,
};
use crate::axi4::narrow::{make_random_burst, random_burst};
use crate::axi4::ops::{
    beat_or, beat_words, count_twos, pick_beat, twos, MasterFault, NoReadBeat, PendingBurst, ReadOp,
    ReadOpView, WriteOp, WriteOpView,
};
use crate::collections::{lists_keys, Fifo, Table};
use crate::common::lanes::{bytes_for, lane_count};
use crate::common::random::{
    after_stall, seed_lfsr, seed_traffic, seeded, stall_now, stalls, traffic_seeded,
};
use crate::common::setup::BuildError;
use crate::common::stimulus::{full_strb, full_strobe, scalar, scalar_words, sized, span_of, window};
use crate::common::words::{
    answers, arg_result, arg_words, data_value, data_view, extended, is_set, words_for, zero_words,
    zeros, ArgError,
};
use crate::value::{word_count, Value};
use vstd::prelude::*;

verus! {

/// The signals of an AXI4 bus in one cycle, as a master drives and sees them.
pub struct Axi4MasterPorts {
    pub awvalid: bool,
    pub awready: Value,
    pub awaddr: u64,
    pub awlen: u64,
    pub awsize: u64,
    pub awburst: u64,
    pub awid: u64,
    pub awlock: u64,
    pub wvalid: bool,
    pub wready: Value,
    pub wdata: Vec<u64>,
    pub wstrb: Vec<u64>,
    pub wlast: bool,
    pub bvalid: Value,
    pub bready: bool,
    pub bresp: u64,
    pub bid: u64,
    pub arvalid: bool,
    pub arready: Value,
    pub araddr: u64,
    pub arlen: u64,
    pub arsize: u64,
    pub arburst: u64,
    pub arid: u64,
    pub arlock: u64,
    pub rvalid: Value,
    pub rready: bool,
    pub rdata: Vec<u64>,
    pub rid: u64,
    pub rlast: Value,
}

impl Axi4MasterPorts {
    /// The read side of the cycle, with data for a `width`-bit bus.
    pub open spec fn read_side(self, width: u32) -> ReadInputsView {
        ReadInputsView {
            arready: self.arready@.truth(),
            rvalid: self.rvalid@.truth(),
            rid: self.rid,
            rdata: extended(self.rdata@, word_count(width)),
            rlast: self.rlast@.truth(),
        }
    }

    fn read_inputs(&self, width: u32) -> (r: ReadInputs)
        ensures
            r@ == self.read_side(width),
    {
        ReadInputs {
            arready: is_set(&self.arready),
            rvalid: is_set(&self.rvalid),
            rid: self.rid,
            rdata: sized(&self.rdata, width),
            rlast: is_set(&self.rlast),
        }
    }
}

/// What an [`Axi4Master`] holds.
#[verifier::ext_equal]
pub ghost struct Axi4MasterView {
    pub config: MasterConfig,
    pub w_queue: Seq<WriteOpView>,
    /// The writes that await their response, by ID.
    pub b_out: Map<u64, PendingBurst>,
    pub reads: ReadIssueView,
    pub shadow: ShadowView,
    pub outcome: Outcome,
    pub lfsr: u64,
    pub traffic_lfsr: u64,
    /// Whether a write is being issued.
    pub w_active: bool,
    /// Whether its address was taken, so that its data is offered.
    pub w_streaming: bool,
    pub w_beat: u64,
    pub w_id: u64,
    pub cur_w: WriteOpView,
    pub aw_valid: bool,
    pub w_valid: bool,
    pub b_ready: bool,
}

impl Axi4MasterView {
    /// The recorded values are as wide as the bus.
    pub open spec fn wf(self) -> bool {
        self.shadow.wf(self.config.width)
    }

    /// A master that has nothing to do.
    pub open spec fn fresh(config: MasterConfig, seed: u64) -> Self {
        Axi4MasterView {
            config,
            w_queue: seq![],
            b_out: Map::empty(),
            reads: ReadIssueView::fresh(),
            shadow: ShadowView::empty(),
            outcome: Outcome { bresp: 0, excl_ok: false },
            lfsr: seeded(seed),
            traffic_lfsr: traffic_seeded(seed),
            w_active: false,
            w_streaming: false,
            w_beat: 0,
            w_id: 0,
            cur_w: WriteOpView {
                data: seq![zeros(word_count(config.width))],
                strb: seq![full_strobe(config.width)],
                ..WriteOpView::empty()
            },
            aw_valid: false,
            w_valid: false,
            b_ready: false,
        }
    }

    /// After a reset: everything queued, in flight or recorded is dropped.
    pub open spec fn reset(self) -> Self {
        Axi4MasterView {
            w_queue: seq![],
            b_out: Map::empty(),
            reads: self.reads.reset(),
            shadow: ShadowView::empty(),
            w_active: false,
            aw_valid: false,
            w_valid: false,
            b_ready: false,
            ..self
        }
    }

    /// After the draw that decides whether to stall.
    pub open spec fn drawn(self) -> Self {
        Axi4MasterView { lfsr: after_stall(self.lfsr, self.config.stall), ..self }
    }

    /// Whether the address of the write being issued is taken.
    pub open spec fn aw_fires(self, p: Axi4MasterPorts) -> bool {
        self.w_active && !self.w_streaming && self.aw_valid && p.awready@.truth()
    }

    /// Whether a beat of the write being issued is taken.
    pub open spec fn w_fires(self, p: Axi4MasterPorts) -> bool {
        self.w_active && self.w_streaming && self.w_valid && p.wready@.truth()
    }

    /// After the address or a beat of the write being issued was taken, or
    /// neither. A write whose last beat was taken awaits its response.
    pub open spec fn write_moved(self, p: Axi4MasterPorts) -> Self {
        if self.aw_fires(p) {
            Axi4MasterView { w_streaming: true, w_beat: 0, ..self }
        } else if self.w_fires(p) {
            let beat = (self.w_beat + 1) as u64;
            if beat > self.cur_w.len {
                Axi4MasterView {
                    w_beat: beat,
                    b_out: self.b_out.insert(
                        self.w_id,
                        PendingBurst {
                            expect_ok: self.cur_w.expect_ok,
                            exclusive: self.cur_w.lock != 0,
                        },
                    ),
                    w_active: false,
                    ..self
                }
            } else {
                Axi4MasterView { w_beat: beat, ..self }
            }
        } else {
            self
        }
    }

    /// Whether a write response is handed over.
    pub open spec fn b_fires(self, p: Axi4MasterPorts) -> bool {
        self.b_ready && p.bvalid@.truth()
    }

    /// After a write response, or none.
    pub open spec fn b_received(self, fire: bool, p: Axi4MasterPorts) -> Self {
        if fire {
            Axi4MasterView {
                b_out: self.b_out.remove(p.bid),
                outcome: outcome_after(self.outcome, awaited(self.b_out, p.bid), p.bresp),
                ..self
            }
        } else {
            self
        }
    }

    /// After the next write, if it may be, was issued under a free ID.
    pub open spec fn write_issued(self) -> Self {
        if !self.w_active && self.b_out.len() < self.config.max_spec() && self.w_queue.len() > 0 {
            Axi4MasterView {
                w_queue: self.w_queue.drop_first(),
                w_active: true,
                w_streaming: false,
                w_id: free_id(self.b_out.dom(), 0, self.config.id_mask_spec()),
                cur_w: self.w_queue[0],
                ..self
            }
        } else {
            self
        }
    }

    /// After the write engine's cycle.
    pub open spec fn write_cycle(self, p: Axi4MasterPorts, stall: bool) -> Self {
        let s = self.write_moved(p).b_received(self.b_fires(p), p).write_issued();
        Axi4MasterView {
            aw_valid: s.w_active && !s.w_streaming,
            w_valid: s.w_active && s.w_streaming,
            b_ready: s.b_out.len() > 0 && !stall,
            ..s
        }
    }

    /// What the write engine reports.
    pub open spec fn write_faults(self, p: Axi4MasterPorts) -> Seq<MasterFault> {
        if self.b_fires(p) {
            response_faults(p.bid, awaited(self.write_moved(p).b_out, p.bid), p.bresp)
        } else {
            seq![]
        }
    }

    /// After a cycle.
    pub open spec fn clocked(self, rst: bool, p: Axi4MasterPorts) -> Self {
        let stall = stalls(self.lfsr, self.config.stall);
        if rst {
            self.reset()
        } else {
            Axi4MasterView {
                reads: self.reads.clocked(p.read_side(self.config.width), self.config, stall),
                ..self.drawn().write_cycle(p, stall)
            }
        }
    }

    /// What a cycle reports.
    pub open spec fn faults(self, rst: bool, p: Axi4MasterPorts) -> Seq<MasterFault> {
        if rst {
            seq![]
        } else {
            self.write_faults(p) + self.reads.faults(p.read_side(self.config.width))
        }
    }

    /// Whether the beats of a cycle can be counted in 64 bits.
    pub open spec fn can_clock(self, rst: bool, p: Axi4MasterPorts) -> bool {
        !rst ==> {
            &&& self.w_fires(p) ==> self.w_beat < u64::MAX
            &&& self.reads.can_clock(p.read_side(self.config.width))
        }
    }

    /// Whether everything queued has completed.
    pub open spec fn idle(self) -> bool {
        &&& self.w_queue.len() == 0
        &&& self.reads.queue.len() == 0
        &&& !self.w_active
        &&& !self.reads.active
        &&& self.b_out.len() == 0
        &&& self.reads.out.len() == 0
    }

    /// The log of the bytes of a full-width beat.
    pub open spec fn size_log(self) -> u64 {
        twos(lane_count(self.config.width)) as u64
    }

    /// With a write queued last.
    pub open spec fn writing(self, op: WriteOpView) -> Self {
        Axi4MasterView { w_queue: self.w_queue.push(op), ..self }
    }

    /// With a read queued last.
    pub open spec fn reading(self, op: ReadOpView) -> Self {
        Axi4MasterView { reads: self.reads.queued(op), ..self }
    }

    /// After `n` random incrementing burst writes.
    pub open spec fn random_burst_writes(self, n: nat, span: u64, max_len: u64) -> Self
        decreases n,
    {
        if n == 0 {
            self
        } else {
            let s = self.random_burst_writes((n - 1) as nat, span, max_len);
            let b = incr_burst(s.traffic_lfsr, s.shadow, span, max_len, s.config.width, false);
            Axi4MasterView {
                traffic_lfsr: b.made.lfsr,
                shadow: b.made.shadow,
                w_queue: s.w_queue.push(b.op(s.config.width)),
                ..s
            }
        }
    }

    /// After `n` random bursts of any type and size.
    pub open spec fn random_bursts(self, n: nat, span: u64, max_len: u64) -> Self
        decreases n,
    {
        if n == 0 {
            self
        } else {
            let s = self.random_bursts((n - 1) as nat, span, max_len);
            let (op, x, shadow) = random_burst(
                s.traffic_lfsr,
                s.shadow,
                span,
                max_len,
                s.config.width,
            );
            Axi4MasterView { traffic_lfsr: x, shadow, w_queue: s.w_queue.push(op), ..s }
        }
    }

    /// The checked reads of the recorded values at some addresses.
    pub open spec fn checks(self, addrs: Seq<u64>) -> Seq<ReadOpView> {
        addrs.map_values(
            |a: u64|
                ReadOpView::incr(a, 0, self.size_log(), 0, Some(seq![self.shadow.values[a]])),
        )
    }

    /// What a burst read of filled words gives: the first `n` beats.
    pub open spec fn filled_beats(self, addr: u64, len: u64, n: nat) -> Seq<Seq<u64>> {
        Seq::new(
            n,
            |i: int|
                scalar(
                    beat(addr, lane_count(self.config.width), INCR, len, i as u64) as u64,
                    self.config.width,
                ),
        )
    }
}

/// Whether `after` is `before` with the outputs of a master in state `s`.
pub open spec fn drives(
    s: Axi4MasterView,
    before: Axi4MasterPorts,
    after: Axi4MasterPorts,
) -> bool {
    &&& after.awvalid == s.aw_valid
    &&& after.awaddr == s.cur_w.addr
    &&& after.awlen == s.cur_w.len
    &&& after.awsize == s.cur_w.size_log
    &&& after.awburst == s.cur_w.kind
    &&& after.awid == s.w_id
    &&& after.awlock == s.cur_w.lock
    &&& after.wvalid == s.w_valid
    &&& after.wdata@ == beat_or(s.cur_w.data, s.w_beat, zeros(word_count(s.config.width)))
    &&& after.wstrb@ == beat_or(s.cur_w.strb, s.w_beat, full_strobe(s.config.width))
    &&& after.wlast == (s.w_beat == s.cur_w.len)
    &&& after.bready == s.b_ready
    &&& after.arvalid == s.reads.ar_valid
    &&& after.araddr == s.reads.cur.addr
    &&& after.arlen == s.reads.cur.len
    &&& after.arsize == s.reads.cur.size_log
    &&& after.arburst == s.reads.cur.kind
    &&& after.arid == s.reads.id
    &&& after.arlock == s.reads.cur.lock
    &&& after.rready == s.reads.r_ready
    &&& after.awready == before.awready
    &&& after.wready == before.wready
    &&& after.bvalid == before.bvalid
    &&& after.bresp == before.bresp
    &&& after.bid == before.bid
    &&& after.arready == before.arready
    &&& after.rvalid == before.rvalid
    &&& after.rdata == before.rdata
    &&& after.rid == before.rid
    &&& after.rlast == before.rlast
}

/// Active AXI4 master. It pipelines reads and writes under distinct IDs and
/// matches each response to its transaction by ID, so a slave may interleave
/// read data. Checked reads are compared by the master itself.
pub struct Axi4Master {
    config: MasterConfig,
    w_queue: Fifo<WriteOp>,
    b_out: Table<PendingBurst>,
    reads: ReadIssue,
    shadow: Shadow,
    outcome: Outcome,
    lfsr: u64,
    traffic_lfsr: u64,
    w_active: bool,
    w_streaming: bool,
    w_beat: u64,
    w_id: u64,
    cur_w: WriteOp,
    aw_valid: bool,
    w_valid: bool,
    b_ready: bool,
}

impl View for Axi4Master {
    type V = Axi4MasterView;

    closed spec fn view(&self) -> Axi4MasterView {
        Axi4MasterView {
            config: self.config,
            w_queue: self.w_queue@,
            b_out: self.b_out@,
            reads: self.reads@,
            shadow: self.shadow@,
            outcome: self.outcome,
            lfsr: self.lfsr,
            traffic_lfsr: self.traffic_lfsr,
            w_active: self.w_active,
            w_streaming: self.w_streaming,
            w_beat: self.w_beat,
            w_id: self.w_id,
            cur_w: self.cur_w@,
            aw_valid: self.aw_valid,
            w_valid: self.w_valid,
            b_ready: self.b_ready,
        }
    }
}

impl Axi4Master {
    /// A master of a bus with these port widths. An address port wider than
    /// 64 bits is refused, and so are more outstanding transactions than IDs.
    pub fn on_build(awaddr: u32, araddr: u32, config: MasterConfig, seed: u64) -> (r: Result<
        Axi4Master,
        BuildError,
    >)
        ensures
            match r {
                Ok(m) => config.error("axi4_master", awaddr, araddr) is None && m@
                    == Axi4MasterView::fresh(config, seed) && m@.wf(),
                Err(e) => config.error("axi4_master", awaddr, araddr) == Some(e),
            },
    {
        if let Some(e) = config.find_error("axi4_master", awaddr, araddr) {
            return Err(e);
        }
        let data: Vec<Vec<u64>> = vec![zero_words(words_for(config.width))];
        let strb: Vec<Vec<u64>> = vec![full_strb(config.width)];
        assert(beat_words(data@) =~= seq![zeros(word_count(config.width))]);
        assert(beat_words(strb@) =~= seq![full_strobe(config.width)]);
        Ok(
            Axi4Master {
                config,
                w_queue: Fifo::new(),
                b_out: Table::new(),
                reads: ReadIssue::new(),
                shadow: Shadow::new(),
                outcome: Outcome { bresp: 0, excl_ok: false },
                lfsr: seed_lfsr(seed),
                traffic_lfsr: seed_traffic(seed),
                w_active: false,
                w_streaming: false,
                w_beat: 0,
                w_id: 0,
                cur_w: WriteOp {
                    addr: 0,
                    len: 0,
                    size_log: 0,
                    kind: 0,
                    lock: 0,
                    data,
                    strb,
                    expect_ok: false,
                },
                aw_valid: false,
                w_valid: false,
                b_ready: false,
            },
        )
    }

    /// Whether the beats of a cycle can be counted in 64 bits.
    pub fn in_range(&self, rst: &Value, axi: &Axi4MasterPorts) -> (r: bool)
        ensures
            r == self@.can_clock(rst@.truth(), *axi),
    {
        if is_set(rst) {
            return true;
        }
        let fire = self.w_active && self.w_streaming && self.w_valid && is_set(&axi.wready);
        (!fire || self.w_beat < u64::MAX) && self.reads.in_range(
            &axi.read_inputs(self.config.width),
        )
    }

    fn reset_state(&mut self)
        ensures
            final(self)@ == old(self)@.reset(),
    {
        self.w_queue.clear();
        self.b_out.clear();
        self.reads.reset();
        self.shadow.clear();
        self.w_active = false;
        self.aw_valid = false;
        self.w_valid = false;
        self.b_ready = false;
        assert(self@ =~= old(self)@.reset());
    }

    fn drive(&self, axi: &mut Axi4MasterPorts)
        ensures
            drives(self@, *old(axi), *final(axi)),
    {
        let width: u32 = self.config.width;
        axi.awvalid = self.aw_valid;
        axi.awaddr = self.cur_w.addr;
        axi.awlen = self.cur_w.len;
        axi.awsize = self.cur_w.size_log;
        axi.awburst = self.cur_w.kind;
        axi.awid = self.w_id;
        axi.awlock = self.cur_w.lock;
        axi.wvalid = self.w_valid;
        axi.wdata = pick_beat(&self.cur_w.data, self.w_beat, zero_words(words_for(width)));
        axi.wstrb = pick_beat(&self.cur_w.strb, self.w_beat, full_strb(width));
        axi.wlast = self.w_beat == self.cur_w.len;
        axi.bready = self.b_ready;
        axi.arvalid = self.reads.ar_valid();
        axi.araddr = self.reads.cur().addr;
        axi.arlen = self.reads.cur().len;
        axi.arsize = self.reads.cur().size_log;
        axi.arburst = self.reads.cur().kind;
        axi.arid = self.reads.id();
        axi.arlock = self.reads.cur().lock;
        axi.rready = self.reads.r_ready();
    }

    fn move_write(&mut self, p: &Axi4MasterPorts)
        requires
            old(self)@.w_fires(*p) ==> old(self)@.w_beat < u64::MAX,
        ensures
            final(self)@ == old(self)@.write_moved(*p),
    {
        if self.w_active && !self.w_streaming && self.aw_valid && is_set(&p.awready) {
            self.w_streaming = true;
            self.w_beat = 0;
        } else if self.w_active && self.w_streaming && self.w_valid && is_set(&p.wready) {
            self.w_beat = self.w_beat + 1;
            if self.w_beat > self.cur_w.len {
                let w = PendingBurst {
                    expect_ok: self.cur_w.expect_ok,
                    exclusive: self.cur_w.lock != 0,
                };
                let _ = self.b_out.insert(self.w_id, w);
                self.w_active = false;
            }
        }
    }

    fn issue_write(&mut self)
        ensures
            final(self)@ == old(self)@.write_issued(),
    {
        if !self.w_active && (self.b_out.len() as u64) < self.config.max() {
            if let Some(op) = self.w_queue.pop_front() {
                self.w_active = true;
                self.w_streaming = false;
                self.w_id = next_id(&self.b_out, self.config.id_mask());
                self.cur_w = op;
            }
        }
    }

    fn clock_write(&mut self, p: &Axi4MasterPorts, stall: bool, f: &mut Vec<MasterFault>)
        requires
            old(self)@.w_fires(*p) ==> old(self)@.w_beat < u64::MAX,
        ensures
            final(self)@ == old(self)@.write_cycle(*p, stall),
            final(f)@ == old(f)@ + old(self)@.write_faults(*p),
    {
        let b_fire = self.b_ready && is_set(&p.bvalid);
        self.move_write(p);
        if b_fire {
            take_response(&mut self.b_out, &mut self.outcome, p.bid, p.bresp, f);
        }
        assert(f@ =~= old(f)@ + old(self)@.write_faults(*p));
        self.issue_write();
        self.aw_valid = self.w_active && !self.w_streaming;
        self.w_valid = self.w_active && self.w_streaming;
        self.b_ready = !self.b_out.is_empty() && !stall;
    }

    /// Moves every engine on by a cycle and drives the outputs; the result is
    /// what the cycle reports.
    pub fn on_clock(&mut self, rst: &Value, axi: &mut Axi4MasterPorts) -> (r: Vec<MasterFault>)
        requires
            old(self)@.wf(),
            old(self)@.can_clock(rst@.truth(), *old(axi)),
        ensures
            final(self)@ == old(self)@.clocked(rst@.truth(), *old(axi)),
            final(self)@.wf(),
            r@ == old(self)@.faults(rst@.truth(), *old(axi)),
            drives(final(self)@, *old(axi), *final(axi)),
    {
        let mut f: Vec<MasterFault> = Vec::new();
        if is_set(rst) {
            self.reset_state();
        } else {
            let stall = stall_now(&mut self.lfsr, self.config.stall);
            assert(self@ =~= old(self)@.drawn());
            self.clock_write(axi, stall, &mut f);
            let inputs = axi.read_inputs(self.config.width);
            self.reads.clock(inputs, &self.config, stall, &mut f);
            assert(f@ =~= old(self)@.faults(false, *axi));
            assert(self@ =~= old(self)@.clocked(false, *axi));
        }
        self.drive(axi);
        f
    }

    /// Queues `count` random incrementing burst writes of up to `max_len + 1`
    /// beats into a `2^addr_bits`-byte window, and records each beat for
    /// [`Axi4Master::verify_all`]. A window smaller than a word gets single
    /// beats.
    pub fn random_burst_writes(&mut self, count: u64, addr_bits: u64, max_len: u64)
        requires
            old(self)@.wf(),
            max_len < u64::MAX,
        ensures
            final(self)@.wf(),
            final(self)@ == old(self)@.random_burst_writes(
                count as nat,
                window(addr_bits),
                max_len,
            ),
    {
        let span: u64 = span_of(addr_bits);
        let mut n: u64 = 0;
        while n < count
            invariant
                n <= count,
                span == window(addr_bits),
                span > 0,
                max_len < u64::MAX,
                self@.wf(),
                self@ == old(self)@.random_burst_writes(n as nat, span, max_len),
            decreases count - n,
        {
            let op = make_incr_burst(
                &mut self.traffic_lfsr,
                &mut self.shadow,
                span,
                max_len,
                self.config.width,
                false,
            );
            self.w_queue.push_back(op);
            n = n + 1;
            assert(self@ =~= old(self)@.random_burst_writes(n as nat, span, max_len));
        }
    }

    /// Queues `count` random self-checking bursts of any type and beat size.
    pub fn random_bursts(&mut self, count: u64, addr_bits: u64, max_len: u64)
        requires
            old(self)@.wf(),
            max_len < u64::MAX,
        ensures
            final(self)@.wf(),
            final(self)@ == old(self)@.random_bursts(count as nat, window(addr_bits), max_len),
    {
        let span: u64 = span_of(addr_bits);
        let mut n: u64 = 0;
        while n < count
            invariant
                n <= count,
                span == window(addr_bits),
                span > 0,
                max_len < u64::MAX,
                self@.wf(),
                self@ == old(self)@.random_bursts(n as nat, span, max_len),
            decreases count - n,
        {
            let op = make_random_burst(
                &mut self.traffic_lfsr,
                &mut self.shadow,
                span,
                max_len,
                self.config.width,
            );
            self.w_queue.push_back(op);
            n = n + 1;
            assert(self@ =~= old(self)@.random_bursts(n as nat, span, max_len));
        }
    }

    /// Queues a checked read of every recorded address, in increasing order;
    /// the result is how many.
    pub fn verify_all(&mut self) -> (r: u64)
        requires
            old(self)@.wf(),
        ensures
            final(self)@.wf(),
            exists|addrs: Seq<u64>|
                {
                    &&& lists_keys(addrs, old(self)@.shadow.values)
                    &&& r == addrs.len()
                    &&& final(self)@ == (Axi4MasterView {
                        reads: ReadIssueView {
                            queue: old(self)@.reads.queue + #[trigger] old(self)@.checks(addrs),
                            ..old(self)@.reads
                        },
                        ..old(self)@
                    })
                },
    {
        let addrs = self.shadow.addresses();
        let size_log: u64 = count_twos(bytes_for(self.config.width));
        let mut i: usize = 0;
        assert(self@.reads.queue =~= old(self)@.reads.queue + old(self)@.checks(addrs@.take(0)));
        while i < addrs.len()
            invariant
                i <= addrs.len(),
                size_log == old(self)@.size_log(),
                lists_keys(addrs@, old(self)@.shadow.values),
                self@ == (Axi4MasterView {
                    reads: ReadIssueView {
                        queue: old(self)@.reads.queue + old(self)@.checks(addrs@.take(i as int)),
                        ..old(self)@.reads
                    },
                    ..old(self)@
                }),
            decreases addrs.len() - i,
        {
            let addr: u64 = addrs[i];
            assert(addrs@.contains(addrs@[i as int]));
            let want: Vec<Vec<u64>> = vec![self.shadow.value(addr)];
            assert(beat_words(want@) =~= seq![old(self)@.shadow.values[addr]]);
            self.reads.push(ReadOp::checked(addr, 0, size_log, want));
            i = i + 1;
            assert(self@.reads.queue =~= old(self)@.reads.queue + old(self)@.checks(
                addrs@.take(i as int),
            ));
        }
        assert(addrs@.take(addrs.len() as int) =~= addrs@);
        addrs.len() as u64
    }

    /// Whether the addresses of an incrementing burst fit in 64 bits.
    pub fn burst_in_range(&self, addr: u64, len: u64) -> (r: bool)
        ensures
            r == beat_fits(addr, lane_count(self@.config.width), INCR, len, len),
    {
        beat_in_range(addr, bytes_for(self.config.width), INCR, len, len)
    }

    /// Queues an incrementing burst read of `len + 1` beats, checked against
    /// words that hold their own addresses.
    pub fn read_check_incr(&mut self, addr: u64, len: u64)
        requires
            old(self)@.wf(),
            beat_fits(addr, lane_count(old(self)@.config.width), INCR, len, len),
        ensures
            final(self)@.wf(),
            final(self)@ == old(self)@.reading(
                ReadOpView::incr(
                    addr,
                    len,
                    old(self)@.size_log(),
                    0,
                    Some(old(self)@.filled_beats(addr, len, (len + 1) as nat)),
                ),
            ),
    {
        let bytes: u64 = bytes_for(self.config.width);
        let size_log: u64 = count_twos(bytes);
        let mut want: Vec<Vec<u64>> = Vec::new();
        let mut n: u64 = 0;
        assert(beat_words(want@) =~= self@.filled_beats(addr, len, 0));
        loop
            invariant_except_break
                n <= len,
                beat_words(want@) == self@.filled_beats(addr, len, n as nat),
            invariant
                self@ == old(self)@,
                bytes == lane_count(self@.config.width),
                beat_fits(addr, bytes, INCR, len, len),
            ensures
                beat_words(want@) == self@.filled_beats(addr, len, (len + 1) as nat),
            decreases len - n,
        {
            assert(0 <= n * bytes <= len * bytes) by (nonlinear_arith)
                requires
                    0 <= n <= len,
                    bytes >= 0,
            ;
            let a: u64 = beat_addr(addr, bytes, INCR, len, n);
            let ghost before = beat_words(want@);
            want.push(scalar_words(a, self.config.width));
            assert(beat_words(want@) =~= before.push(scalar(a, self@.config.width)));
            assert(before.push(scalar(a, self@.config.width)) =~= self@.filled_beats(addr, len, (n + 1) as nat));
            if n == len {
                break;
            }
            n = n + 1;
        }
        self.reads.push(ReadOp::checked(addr, len, size_log, want));
    }

    /// Queues an incrementing burst read of `len + 1` beats; its data comes
    /// with [`Axi4Master::pop_read`].
    pub fn read_burst(&mut self, addr: u64, len: u64)
        requires
            old(self)@.wf(),
        ensures
            final(self)@.wf(),
            final(self)@ == old(self)@.reading(
                ReadOpView::incr(addr, len, old(self)@.size_log(), 0, None),
            ),
    {
        let size_log: u64 = count_twos(bytes_for(self.config.width));
        self.reads.push(ReadOp::unchecked(addr, len, size_log, 0));
    }

    /// Takes the oldest read beat out, at full bus width.
    pub fn pop_read(&mut self) -> (r: Result<Value, NoReadBeat>)
        requires
            old(self)@.wf(),
        ensures
            final(self)@.wf(),
            match r {
                Ok(v) => old(self)@.reads.reads.len() > 0 && v@ == data_view(
                    old(self)@.reads.reads[0],
                    old(self)@.config.rwidth,
                ) && final(self)@ == (Axi4MasterView {
                    reads: ReadIssueView {
                        reads: old(self)@.reads.reads.drop_first(),
                        ..old(self)@.reads
                    },
                    ..old(self)@
                }),
                Err(_) => old(self)@.reads.reads.len() == 0 && final(self)@ == old(self)@,
            },
    {
        match self.reads.pop() {
            Some(words) => Ok(data_value(&words, self.config.rwidth)),
            None => Err(NoReadBeat),
        }
    }

    /// 1 when everything queued and in flight has completed, else 0.
    pub fn idle(&self) -> (r: u64)
        ensures
            r == (if self@.idle() {
                1u64
            } else {
                0u64
            }),
    {
        if self.w_queue.is_empty() && !self.w_active && self.b_out.is_empty()
            && self.reads.is_done() {
            1
        } else {
            0
        }
    }

    /// The code of the last write response.
    pub fn last_bresp(&self) -> (r: u64)
        ensures
            r == self@.outcome.bresp,
    {
        self.outcome.bresp
    }

    fn queue_single(&mut self, addr: u64, lock: u64, data: &Value, expect_ok: bool) -> (r: Result<
        (),
        ArgError,
    >)
        requires
            old(self)@.wf(),
        ensures
            final(self)@.wf(),
            single_answer(r, old(self)@, final(self)@, addr, lock, data, expect_ok),
    {
        match arg_words(data, self.config.width, "write data") {
            Ok(data) => {
                let size_log: u64 = count_twos(bytes_for(self.config.width));
                let strb: Vec<u64> = full_strb(self.config.width);
                self.w_queue.push_back(WriteOp::one(addr, size_log, lock, data, strb, expect_ok));
                Ok(())
            },
            Err(e) => Err(e),
        }
    }

    /// Queues a normal write of one beat, which has to be answered with OKAY.
    pub fn write(&mut self, addr: u64, data: &Value) -> (r: Result<(), ArgError>)
        requires
            old(self)@.wf(),
        ensures
            final(self)@.wf(),
            single_answer(r, old(self)@, final(self)@, addr, 0, data, true),
    {
        self.queue_single(addr, 0, data, true)
    }

    /// Queues an exclusive read of one beat.
    pub fn exclusive_read(&mut self, addr: u64)
        requires
            old(self)@.wf(),
        ensures
            final(self)@.wf(),
            final(self)@ == old(self)@.reading(
                ReadOpView::incr(addr, 0, old(self)@.size_log(), 1, None),
            ),
    {
        let size_log: u64 = count_twos(bytes_for(self.config.width));
        self.reads.push(ReadOp::unchecked(addr, 0, size_log, 1));
    }

    /// Queues an exclusive write of one beat; [`Axi4Master::exclusive_ok`]
    /// tells whether it succeeded.
    pub fn exclusive_write(&mut self, addr: u64, data: &Value) -> (r: Result<(), ArgError>)
        requires
            old(self)@.wf(),
        ensures
            final(self)@.wf(),
            single_answer(r, old(self)@, final(self)@, addr, 1, data, false),
    {
        self.queue_single(addr, 1, data, false)
    }

    /// 1 if the last exclusive write got EXOKAY, else 0.
    pub fn exclusive_ok(&self) -> (r: u64)
        ensures
            r == (if self@.outcome.excl_ok {
                1u64
            } else {
                0u64
            }),
    {
        if self.outcome.excl_ok {
            1
        } else {
            0
        }
    }
}

/// Whether `r` answers a request to queue a write of one beat.
pub open spec fn single_answer(
    r: Result<(), ArgError>,
    before: Axi4MasterView,
    after: Axi4MasterView,
    addr: u64,
    lock: u64,
    data: &Value,
    expect_ok: bool,
) -> bool {
    let width = before.config.width;
    match r {
        Ok(_) => arg_result(data@, width) is Ok && after == before.writing(
            WriteOpView::single(
                addr,
                before.size_log(),
                lock,
                arg_result(data@, width)->Ok_0,
                full_strobe(width),
                expect_ok,
            ),
        ),
        Err(e) => after == before && answers(Err(e), data@, width, "write data"@),
    }
}

} // verus!
