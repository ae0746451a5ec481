//! Active AXI3 master, which interleaves write data.

use crate::axi4::burst::{beat, beat_addr, beat_fits, beat_in_range, INCR};
use crate::axi4::generate::{incr_burst, make_incr_burst, Shadow, ShadowView};
use crate::axi4::issue::{
    awaited, free_id, outcome_after, response_faults, take_response, MasterConfig, Outcome,
    ReadInputs, ReadInputsView, ReadIssue, ReadIssueView,
};
use crate::axi4::ops::{
    beat_or, beat_words, count_twos, pick_beat, twos, MasterFault, NoReadBeat, PendingBurst, ReadOp,
    ReadOpView, WriteOp, WriteOpView,
};
use crate::collections::{lists_keys, Fifo, Table};
use crate::common::lanes::{bytes_for, lane_count};
use crate::common::random::{
    after_stall, seed_lfsr, seed_traffic, seeded, stall_now, stalls, traffic_seeded,
};
use crate::common::setup::BuildError;
use crate::common::stimulus::{full_strb, full_strobe, scalar, scalar_words, sized, span_of, window};
use crate::common::words::{
    answers, arg_result, arg_words, data_value, data_view, extended, is_set, words_for, zero_words,
    zeros, ArgError,
};
use crate::text::{dec, push_dec};
use crate::value::{copy_words, word_count, Value};
use vstd::prelude::*;
use vstd::string::*;

verus! {

/// The signals of an AXI3 bus in one cycle, as a master drives and sees them.
pub struct Axi3MasterPorts {
    pub awvalid: bool,
    pub awready: Value,
    pub awaddr: u64,
    pub awlen: u64,
    pub awsize: u64,
    pub awburst: u64,
    pub awid: u64,
    pub awlock: u64,
    pub wvalid: bool,
    pub wready: Value,
    pub wdata: Vec<u64>,
    pub wstrb: Vec<u64>,
    pub wlast: bool,
    pub wid: u64,
    pub bvalid: Value,
    pub bready: bool,
    pub bresp: u64,
    pub bid: u64,
    pub arvalid: bool,
    pub arready: Value,
    pub araddr: u64,
    pub arlen: u64,
    pub arsize: u64,
    pub arburst: u64,
    pub arid: u64,
    pub arlock: u64,
    pub rvalid: Value,
    pub rready: bool,
    pub rdata: Vec<u64>,
    pub rid: u64,
    pub rlast: Value,
}

impl Axi3MasterPorts {
    /// The read side of the cycle, with data for a `width`-bit bus.
    pub open spec fn read_side(self, width: u32) -> ReadInputsView {
        ReadInputsView {
            arready: self.arready@.truth(),
            rvalid: self.rvalid@.truth(),
            rid: self.rid,
            rdata: extended(self.rdata@, word_count(width)),
            rlast: self.rlast@.truth(),
        }
    }

    fn read_inputs(&self, width: u32) -> (r: ReadInputs)
        ensures
            r@ == self.read_side(width),
    {
        ReadInputs {
            arready: is_set(&self.arready),
            rvalid: is_set(&self.rvalid),
            rid: self.rid,
            rdata: sized(&self.rdata, width),
            rlast: is_set(&self.rlast),
        }
    }
}

/// A write whose address is offered or whose data is being sent.
pub struct Work {
    pub id: u64,
    pub beat: u64,
    pub op: WriteOp,
}

/// What [`Work`] holds.
#[verifier::ext_equal]
pub ghost struct WorkView {
    pub id: u64,
    pub beat: u64,
    pub op: WriteOpView,
}

impl View for Work {
    type V = WorkView;

    open spec fn view(&self) -> WorkView {
        WorkView { id: self.id, beat: self.beat, op: self.op@ }
    }
}

/// The IDs of some writes.
pub open spec fn work_ids(active: Seq<WorkView>) -> Seq<u64> {
    active.map_values(|w: WorkView| w.id)
}

/// The refusal of a burst of this many beats.
#[derive(Clone, Copy, Debug, PartialEq, Eq, Structural)]
pub struct TooManyBeats {
    pub beats: u64,
}

impl TooManyBeats {
    /// The refusal in words.
    pub open spec fn text(self) -> Seq<char> {
        "axi3_master: burst length "@ + dec(self.beats) + " exceeds the 16-beat limit"@
    }

    /// The refusal in words.
    pub fn message(&self) -> (r: String)
        ensures
            r@ == self.text(),
    {
        let mut r = String::new();
        r.append("axi3_master: burst length ");
        push_dec(&mut r, self.beats);
        r.append(" exceeds the 16-beat limit");
        assert(r@ =~= self.text());
        r
    }
}

/// What an [`Axi3Master`] holds.
#[verifier::ext_equal]
pub ghost struct Axi3MasterView {
    pub config: MasterConfig,
    pub w_queue: Seq<WriteOpView>,
    /// The writes that await their response, by ID.
    pub b_out: Map<u64, PendingBurst>,
    pub reads: ReadIssueView,
    pub shadow: ShadowView,
    pub outcome: Outcome,
    pub lfsr: u64,
    pub traffic_lfsr: u64,
    /// The writes whose data is being sent, in turn.
    pub active: Seq<WorkView>,
    /// The write whose address is offered.
    pub cur_aw: Option<WorkView>,
    pub aw_valid: bool,
    pub w_valid: bool,
    pub b_ready: bool,
}

impl Axi3MasterView {
    /// The recorded values are as wide as the bus.
    pub open spec fn wf(self) -> bool {
        self.shadow.wf(self.config.width)
    }

    /// A master that has nothing to do.
    pub open spec fn fresh(config: MasterConfig, seed: u64) -> Self {
        Axi3MasterView {
            config,
            w_queue: seq![],
            b_out: Map::empty(),
            reads: ReadIssueView::fresh(),
            shadow: ShadowView::empty(),
            outcome: Outcome { bresp: 0, excl_ok: false },
            lfsr: seeded(seed),
            traffic_lfsr: traffic_seeded(seed),
            active: seq![],
            cur_aw: None,
            aw_valid: false,
            w_valid: false,
            b_ready: false,
        }
    }

    /// After a reset: everything queued, in flight or recorded is dropped.
    pub open spec fn reset(self) -> Self {
        Axi3MasterView {
            w_queue: seq![],
            b_out: Map::empty(),
            reads: self.reads.reset(),
            shadow: ShadowView::empty(),
            active: seq![],
            cur_aw: None,
            aw_valid: false,
            w_valid: false,
            b_ready: false,
            ..self
        }
    }

    /// After the draw that decides whether to stall.
    pub open spec fn drawn(self) -> Self {
        Axi3MasterView { lfsr: after_stall(self.lfsr, self.config.stall), ..self }
    }

    /// After the address offered was taken, or not.
    pub open spec fn aw_taken(self, p: Axi3MasterPorts) -> Self {
        match self.cur_aw {
            Some(w) => if self.aw_valid && p.awready@.truth() {
                Axi3MasterView { active: self.active.push(w), cur_aw: None, ..self }
            } else {
                self
            },
            None => self,
        }
    }

    /// After a beat of the first write was taken, or not. The other writes get
    /// their turn before it goes on; a write whose last beat was taken awaits
    /// its response.
    pub open spec fn w_taken(self, fire: bool) -> Self {
        if fire && self.active.len() > 0 {
            let w = WorkView { beat: (self.active[0].beat + 1) as u64, ..self.active[0] };
            if w.beat > w.op.len {
                Axi3MasterView {
                    active: self.active.drop_first(),
                    b_out: self.b_out.insert(
                        w.id,
                        PendingBurst { expect_ok: w.op.expect_ok, exclusive: w.op.lock == 1 },
                    ),
                    ..self
                }
            } else {
                Axi3MasterView { active: self.active.drop_first().push(w), ..self }
            }
        } else {
            self
        }
    }

    /// Whether a beat of write data is handed over.
    pub open spec fn w_fires(self, p: Axi3MasterPorts) -> bool {
        self.w_valid && p.wready@.truth()
    }

    /// After the address and a beat were taken, or not.
    pub open spec fn write_moved(self, p: Axi3MasterPorts) -> Self {
        self.aw_taken(p).w_taken(self.w_fires(p))
    }

    /// Whether a write response is handed over.
    pub open spec fn b_fires(self, p: Axi3MasterPorts) -> bool {
        self.b_ready && p.bvalid@.truth()
    }

    /// After a write response, or none.
    pub open spec fn b_received(self, fire: bool, p: Axi3MasterPorts) -> Self {
        if fire {
            Axi3MasterView {
                b_out: self.b_out.remove(p.bid),
                outcome: outcome_after(self.outcome, awaited(self.b_out, p.bid), p.bresp),
                ..self
            }
        } else {
            self
        }
    }

    /// The IDs of the writes that send data or await a response.
    pub open spec fn live(self) -> Set<u64> {
        self.b_out.dom().union(work_ids(self.active).to_set())
    }

    /// After the next write, if it may be, was issued under a free ID.
    pub open spec fn write_issued(self) -> Self {
        if self.cur_aw is None && self.active.len() + self.b_out.len() < self.config.max_spec()
            && self.w_queue.len() > 0 {
            Axi3MasterView {
                w_queue: self.w_queue.drop_first(),
                cur_aw: Some(
                    WorkView {
                        id: free_id(self.live(), 0, self.config.id_mask_spec()),
                        beat: 0,
                        op: self.w_queue[0],
                    },
                ),
                ..self
            }
        } else {
            self
        }
    }

    /// After the write engine's cycle.
    pub open spec fn write_cycle(self, p: Axi3MasterPorts, stall: bool) -> Self {
        let s = self.write_moved(p).b_received(self.b_fires(p), p).write_issued();
        Axi3MasterView {
            aw_valid: s.cur_aw is Some,
            w_valid: s.active.len() > 0,
            b_ready: s.b_out.len() > 0 && !stall,
            ..s
        }
    }

    /// What the write engine reports.
    pub open spec fn write_faults(self, p: Axi3MasterPorts) -> Seq<MasterFault> {
        if self.b_fires(p) {
            response_faults(p.bid, awaited(self.write_moved(p).b_out, p.bid), p.bresp)
        } else {
            seq![]
        }
    }

    /// After a cycle.
    pub open spec fn clocked(self, rst: bool, p: Axi3MasterPorts) -> Self {
        let stall = stalls(self.lfsr, self.config.stall);
        if rst {
            self.reset()
        } else {
            Axi3MasterView {
                reads: self.reads.clocked(p.read_side(self.config.width), self.config, stall),
                ..self.drawn().write_cycle(p, stall)
            }
        }
    }

    /// What a cycle reports.
    pub open spec fn faults(self, rst: bool, p: Axi3MasterPorts) -> Seq<MasterFault> {
        if rst {
            seq![]
        } else {
            self.write_faults(p) + self.reads.faults(p.read_side(self.config.width))
        }
    }

    /// Whether the beats of a cycle can be counted in 64 bits.
    pub open spec fn can_clock(self, rst: bool, p: Axi3MasterPorts) -> bool {
        !rst ==> {
            &&& self.w_fires(p) && self.aw_taken(p).active.len() > 0 ==> self.aw_taken(
                p,
            ).active[0].beat < u64::MAX
            &&& self.reads.can_clock(p.read_side(self.config.width))
        }
    }

    /// Whether everything queued has completed.
    pub open spec fn idle(self) -> bool {
        &&& self.w_queue.len() == 0
        &&& self.reads.queue.len() == 0
        &&& self.cur_aw is None
        &&& self.active.len() == 0
        &&& !self.reads.active
        &&& self.b_out.len() == 0
        &&& self.reads.out.len() == 0
    }

    /// The log of the bytes of a full-width beat.
    pub open spec fn size_log(self) -> u64 {
        twos(lane_count(self.config.width)) as u64
    }

    /// With a write queued last.
    pub open spec fn writing(self, op: WriteOpView) -> Self {
        Axi3MasterView { w_queue: self.w_queue.push(op), ..self }
    }

    /// With a read queued last.
    pub open spec fn reading(self, op: ReadOpView) -> Self {
        Axi3MasterView { reads: self.reads.queued(op), ..self }
    }

    /// After `n` random incrementing burst writes.
    pub open spec fn random_burst_writes(self, n: nat, span: u64, max_len: u64) -> Self
        decreases n,
    {
        if n == 0 {
            self
        } else {
            let s = self.random_burst_writes((n - 1) as nat, span, max_len);
            let b = incr_burst(s.traffic_lfsr, s.shadow, span, max_len, s.config.width, true);
            Axi3MasterView {
                traffic_lfsr: b.made.lfsr,
                shadow: b.made.shadow,
                w_queue: s.w_queue.push(b.op(s.config.width)),
                ..s
            }
        }
    }

    /// The recorded values of the addresses written once.
    pub open spec fn certain(self) -> Map<u64, Seq<u64>> {
        self.shadow.values.remove_keys(self.shadow.repeated)
    }

    /// The checked reads of the recorded values at some addresses.
    pub open spec fn checks(self, addrs: Seq<u64>) -> Seq<ReadOpView> {
        addrs.map_values(
            |a: u64|
                ReadOpView::incr(a, 0, self.size_log(), 0, Some(seq![self.shadow.values[a]])),
        )
    }

    /// The write of words that hold their own addresses: the first `n` beats,
    /// and the record with them.
    pub open spec fn fill_beats(self, addr: u64, len: u64, n: nat) -> (
        Seq<Seq<u64>>,
        Seq<Seq<u64>>,
        ShadowView,
    )
        decreases n,
    {
        let width = self.config.width;
        if n == 0 {
            (seq![], seq![], self.shadow)
        } else {
            let (data, strb, shadow) = self.fill_beats(addr, len, (n - 1) as nat);
            let a = beat(addr, lane_count(width), INCR, len, (n - 1) as u64) as u64;
            let d = scalar(a, width);
            (data.push(d), strb.push(full_strobe(width)), shadow.noted(a, d, true))
        }
    }

    /// With such a write of `len + 1` beats queued.
    pub open spec fn fill_written(self, addr: u64, len: u64) -> Self {
        let (data, strb, shadow) = self.fill_beats(addr, len, (len + 1) as nat);
        Axi3MasterView {
            shadow,
            w_queue: self.w_queue.push(
                WriteOpView {
                    addr,
                    len,
                    size_log: self.size_log(),
                    kind: INCR,
                    lock: 0,
                    data,
                    strb,
                    expect_ok: true,
                },
            ),
            ..self
        }
    }

    /// The write whose address is driven.
    pub open spec fn aw_driven(self) -> WorkView {
        match self.cur_aw {
            Some(w) => w,
            None => WorkView { id: 0, beat: 0, op: WriteOpView::empty() },
        }
    }
}

/// Whether the write data of state `s` is driven.
pub open spec fn drives_w(s: Axi3MasterView, after: Axi3MasterPorts) -> bool {
    let blank = zeros(word_count(s.config.width));
    let full = full_strobe(s.config.width);
    if s.active.len() > 0 {
        let w = s.active[0];
        &&& after.wid == w.id
        &&& after.wdata@ == beat_or(w.op.data, w.beat, blank)
        &&& after.wstrb@ == beat_or(w.op.strb, w.beat, full)
        &&& after.wlast == (w.beat == w.op.len)
    } else {
        &&& after.wid == 0
        &&& after.wdata@ == blank
        &&& after.wstrb@ == full
        &&& !after.wlast
    }
}

/// Whether `after` is `before` with the outputs of a master in state `s`.
pub open spec fn drives(
    s: Axi3MasterView,
    before: Axi3MasterPorts,
    after: Axi3MasterPorts,
) -> bool {
    &&& after.awvalid == s.aw_valid
    &&& after.awaddr == s.aw_driven().op.addr
    &&& after.awlen == s.aw_driven().op.len
    &&& after.awsize == s.aw_driven().op.size_log
    &&& after.awburst == s.aw_driven().op.kind
    &&& after.awid == s.aw_driven().id
    &&& after.awlock == s.aw_driven().op.lock
    &&& after.wvalid == s.w_valid
    &&& drives_w(s, after)
    &&& after.bready == s.b_ready
    &&& after.arvalid == s.reads.ar_valid
    &&& after.araddr == s.reads.cur.addr
    &&& after.arlen == s.reads.cur.len
    &&& after.arsize == s.reads.cur.size_log
    &&& after.arburst == s.reads.cur.kind
    &&& after.arid == s.reads.id
    &&& after.arlock == s.reads.cur.lock
    &&& after.rready == s.reads.r_ready
    &&& after.awready == before.awready
    &&& after.wready == before.wready
    &&& after.bvalid == before.bvalid
    &&& after.bresp == before.bresp
    &&& after.bid == before.bid
    &&& after.arready == before.arready
    &&& after.rvalid == before.rvalid
    &&& after.rdata == before.rdata
    &&& after.rid == before.rid
    &&& after.rlast == before.rlast
}

/// Active AXI3 master. It issues write bursts under distinct IDs and sends
/// their beats in turn, each under the ID of its write. Reads are pipelined
/// and their data matched by ID. Checked reads are compared by the master
/// itself.
pub struct Axi3Master {
    config: MasterConfig,
    w_queue: Fifo<WriteOp>,
    b_out: Table<PendingBurst>,
    reads: ReadIssue,
    shadow: Shadow,
    outcome: Outcome,
    lfsr: u64,
    traffic_lfsr: u64,
    active: Fifo<Work>,
    cur_aw: Option<Work>,
    aw_valid: bool,
    w_valid: bool,
    b_ready: bool,
}

impl View for Axi3Master {
    type V = Axi3MasterView;

    closed spec fn view(&self) -> Axi3MasterView {
        Axi3MasterView {
            config: self.config,
            w_queue: self.w_queue@,
            b_out: self.b_out@,
            reads: self.reads@,
            shadow: self.shadow@,
            outcome: self.outcome,
            lfsr: self.lfsr,
            traffic_lfsr: self.traffic_lfsr,
            active: self.active@,
            cur_aw: match self.cur_aw {
                Some(w) => Some(w@),
                None => None,
            },
            aw_valid: self.aw_valid,
            w_valid: self.w_valid,
            b_ready: self.b_ready,
        }
    }
}

impl Axi3Master {
    /// A master of a bus with these port widths. An address port wider than
    /// 64 bits is refused, and so are more outstanding transactions than IDs.
    pub fn on_build(awaddr: u32, araddr: u32, config: MasterConfig, seed: u64) -> (r: Result<
        Axi3Master,
        BuildError,
    >)
        ensures
            match r {
                Ok(m) => config.error("axi3_master", awaddr, araddr) is None && m@
                    == Axi3MasterView::fresh(config, seed) && m@.wf(),
                Err(e) => config.error("axi3_master", awaddr, araddr) == Some(e),
            },
    {
        if let Some(e) = config.find_error("axi3_master", awaddr, araddr) {
            return Err(e);
        }
        Ok(
            Axi3Master {
                config,
                w_queue: Fifo::new(),
                b_out: Table::new(),
                reads: ReadIssue::new(),
                shadow: Shadow::new(),
                outcome: Outcome { bresp: 0, excl_ok: false },
                lfsr: seed_lfsr(seed),
                traffic_lfsr: seed_traffic(seed),
                active: Fifo::new(),
                cur_aw: None,
                aw_valid: false,
                w_valid: false,
                b_ready: false,
            },
        )
    }

    /// Whether the beats of a cycle can be counted in 64 bits.
    pub fn in_range(&self, rst: &Value, axi: &Axi3MasterPorts) -> (r: bool)
        ensures
            r == self@.can_clock(rst@.truth(), *axi),
    {
        if is_set(rst) {
            return true;
        }
        if self.w_valid && is_set(&axi.wready) && !self.active.is_empty() {
            if self.active.at(0).beat == u64::MAX {
                return false;
            }
        } else if self.w_valid && is_set(&axi.wready) && self.aw_valid && is_set(&axi.awready) {
            if let Some(w) = &self.cur_aw {
                if w.beat == u64::MAX {
                    return false;
                }
            }
        }
        self.reads.in_range(&axi.read_inputs(self.config.width))
    }

    fn reset_state(&mut self)
        ensures
            final(self)@ == old(self)@.reset(),
    {
        self.w_queue.clear();
        self.b_out.clear();
        self.reads.reset();
        self.shadow.clear();
        self.active.clear();
        self.cur_aw = None;
        self.aw_valid = false;
        self.w_valid = false;
        self.b_ready = false;
        assert(self@ =~= old(self)@.reset());
    }

    fn drive(&self, axi: &mut Axi3MasterPorts)
        ensures
            drives(self@, *old(axi), *final(axi)),
    {
        let width: u32 = self.config.width;
        axi.awvalid = self.aw_valid;
        match &self.cur_aw {
            Some(w) => {
                axi.awaddr = w.op.addr;
                axi.awlen = w.op.len;
                axi.awsize = w.op.size_log;
                axi.awburst = w.op.kind;
                axi.awid = w.id;
                axi.awlock = w.op.lock;
            },
            None => {
                axi.awaddr = 0;
                axi.awlen = 0;
                axi.awsize = 0;
                axi.awburst = 0;
                axi.awid = 0;
                axi.awlock = 0;
            },
        }
        axi.wvalid = self.w_valid;
        if self.active.is_empty() {
            axi.wid = 0;
            axi.wdata = zero_words(words_for(width));
            axi.wstrb = full_strb(width);
            axi.wlast = false;
        } else {
            let w = self.active.at(0);
            axi.wid = w.id;
            axi.wdata = pick_beat(&w.op.data, w.beat, zero_words(words_for(width)));
            axi.wstrb = pick_beat(&w.op.strb, w.beat, full_strb(width));
            axi.wlast = w.beat == w.op.len;
        }
        axi.bready = self.b_ready;
        axi.arvalid = self.reads.ar_valid();
        axi.araddr = self.reads.cur().addr;
        axi.arlen = self.reads.cur().len;
        axi.arsize = self.reads.cur().size_log;
        axi.arburst = self.reads.cur().kind;
        axi.arid = self.reads.id();
        axi.arlock = self.reads.cur().lock;
        axi.rready = self.reads.r_ready();
    }

    fn take_aw(&mut self, p: &Axi3MasterPorts)
        ensures
            final(self)@ == old(self)@.aw_taken(*p),
    {
        if self.aw_valid && is_set(&p.awready) {
            let mut taken: Option<Work> = None;
            std::mem::swap(&mut taken, &mut self.cur_aw);
            if let Some(w) = taken {
                self.active.push_back(w);
            }
        }
    }

    fn take_w(&mut self)
        requires
            old(self)@.active.len() > 0 ==> old(self)@.active[0].beat < u64::MAX,
        ensures
            final(self)@ == old(self)@.w_taken(true),
    {
        if let Some(mut w) = self.active.pop_front() {
            w.beat = w.beat + 1;
            if w.beat > w.op.len {
                let sent = PendingBurst { expect_ok: w.op.expect_ok, exclusive: w.op.lock == 1 };
                let _ = self.b_out.insert(w.id, sent);
            } else {
                self.active.push_back(w);
            }
        }
        assert(self@ =~= old(self)@.w_taken(true));
    }

    fn sends(&self, id: u64) -> (r: bool)
        ensures
            r == work_ids(self@.active).contains(id),
    {
        let mut i: usize = 0;
        while i < self.active.len()
            invariant
                i <= self@.active.len(),
                self.active@ == self@.active,
                forall|j: int| 0 <= j < i ==> work_ids(self@.active)[j] != id,
            decreases self@.active.len() - i,
        {
            if self.active.at(i).id == id {
                assert(work_ids(self@.active)[i as int] == id);
                return true;
            }
            i = i + 1;
        }
        false
    }

    fn next_write_id(&self) -> (r: u64)
        ensures
            r == free_id(self@.live(), 0, self@.config.id_mask_spec()),
    {
        let mask: u64 = self.config.id_mask();
        let mut id: u64 = 0;
        loop
            invariant
                id <= mask,
                mask == self@.config.id_mask_spec(),
                self.b_out@ == self@.b_out,
                free_id(self@.live(), 0, mask) == free_id(self@.live(), id as int, mask),
            decreases mask - id,
        {
            if !self.b_out.contains(id) && !self.sends(id) {
                return id;
            }
            if id == mask {
                assert(free_id(self@.live(), id + 1, mask) == 0);
                return 0;
            }
            id = id + 1;
        }
    }

    fn issue_write(&mut self)
        ensures
            final(self)@ == old(self)@.write_issued(),
    {
        let max: u64 = self.config.max();
        let sending: u64 = self.active.len() as u64;
        if self.cur_aw.is_none() && sending < max && (self.b_out.len() as u64) < max - sending {
            let id: u64 = self.next_write_id();
            if let Some(op) = self.w_queue.pop_front() {
                self.cur_aw = Some(Work { id, beat: 0, op });
            }
        }
    }

    fn clock_write(&mut self, p: &Axi3MasterPorts, stall: bool, f: &mut Vec<MasterFault>)
        requires
            old(self)@.w_fires(*p) && old(self)@.aw_taken(*p).active.len() > 0 ==> old(
                self,
            )@.aw_taken(*p).active[0].beat < u64::MAX,
        ensures
            final(self)@ == old(self)@.write_cycle(*p, stall),
            final(f)@ == old(f)@ + old(self)@.write_faults(*p),
    {
        let b_fire = self.b_ready && is_set(&p.bvalid);
        let w_fire = self.w_valid && is_set(&p.wready);
        self.take_aw(p);
        if w_fire {
            self.take_w();
        }
        if b_fire {
            take_response(&mut self.b_out, &mut self.outcome, p.bid, p.bresp, f);
        }
        assert(f@ =~= old(f)@ + old(self)@.write_faults(*p));
        self.issue_write();
        self.aw_valid = self.cur_aw.is_some();
        self.w_valid = !self.active.is_empty();
        self.b_ready = !self.b_out.is_empty() && !stall;
    }

    /// Moves every engine on by a cycle and drives the outputs; the result is
    /// what the cycle reports.
    pub fn on_clock(&mut self, rst: &Value, axi: &mut Axi3MasterPorts) -> (r: Vec<MasterFault>)
        requires
            old(self)@.wf(),
            old(self)@.can_clock(rst@.truth(), *old(axi)),
        ensures
            final(self)@ == old(self)@.clocked(rst@.truth(), *old(axi)),
            final(self)@.wf(),
            r@ == old(self)@.faults(rst@.truth(), *old(axi)),
            drives(final(self)@, *old(axi), *final(axi)),
    {
        let mut f: Vec<MasterFault> = Vec::new();
        if is_set(rst) {
            self.reset_state();
        } else {
            let stall = stall_now(&mut self.lfsr, self.config.stall);
            assert(self@ =~= old(self)@.drawn());
            self.clock_write(axi, stall, &mut f);
            let inputs = axi.read_inputs(self.config.width);
            self.reads.clock(inputs, &self.config, stall, &mut f);
            assert(f@ =~= old(self)@.faults(false, *axi));
            assert(self@ =~= old(self)@.clocked(false, *axi));
        }
        self.drive(axi);
        f
    }

    /// Whether the addresses of an incrementing burst fit in 64 bits.
    pub fn burst_in_range(&self, addr: u64, len: u64) -> (r: bool)
        ensures
            r == beat_fits(addr, lane_count(self@.config.width), INCR, len, len),
    {
        beat_in_range(addr, bytes_for(self.config.width), INCR, len, len)
    }

    /// Queues a burst write of words that hold their own addresses, and
    /// records them for [`Axi3Master::verify_all`]. More than 16 beats are
    /// refused.
    pub fn burst_write_fill(&mut self, addr: u64, len: u64) -> (r: Result<(), TooManyBeats>)
        requires
            old(self)@.wf(),
            len < u64::MAX,
            len <= 15 ==> beat_fits(addr, lane_count(old(self)@.config.width), INCR, len, len),
        ensures
            final(self)@.wf(),
            match r {
                Ok(_) => len <= 15 && final(self)@ == old(self)@.fill_written(addr, len),
                Err(e) => len > 15 && e.beats == len + 1 && final(self)@ == old(self)@,
            },
    {
        if len > 15 {
            return Err(TooManyBeats { beats: len + 1 });
        }
        let width: u32 = self.config.width;
        let bytes: u64 = bytes_for(width);
        let ghost s0 = self@;
        let mut data: Vec<Vec<u64>> = Vec::new();
        let mut strb: Vec<Vec<u64>> = Vec::new();
        let mut n: u64 = 0;
        assert(beat_words(data@) =~= seq![]);
        while n <= len
            invariant
                n <= len + 1,
                len <= 15,
                s0 == old(self)@,
                width == s0.config.width,
                bytes == lane_count(width),
                beat_fits(addr, bytes, INCR, len, len),
                self@ == (Axi3MasterView { shadow: self@.shadow, ..s0 }),
                self@.wf(),
                (beat_words(data@), beat_words(strb@), self@.shadow) == s0.fill_beats(
                    addr,
                    len,
                    n as nat,
                ),
            decreases len + 1 - n,
        {
            assert(0 <= n * bytes <= len * bytes) by (nonlinear_arith)
                requires
                    0 <= n <= len,
                    bytes >= 0,
            ;
            let a: u64 = beat_addr(addr, bytes, INCR, len, n);
            let d: Vec<u64> = scalar_words(a, width);
            let ghost next = s0.fill_beats(addr, len, (n + 1) as nat);
            self.shadow.note(a, copy_words(&d), true);
            data.push(d);
            strb.push(full_strb(width));
            assert(beat_words(data@) =~= next.0);
            assert(beat_words(strb@) =~= next.1);
            n = n + 1;
        }
        let size_log: u64 = count_twos(bytes);
        self.w_queue.push_back(
            WriteOp { addr, len, size_log, kind: INCR, lock: 0, data, strb, expect_ok: true },
        );
        Ok(())
    }

    /// Queues `count` random incrementing burst writes of up to `max_len + 1`
    /// beats, 16 at most, into a `2^addr_bits`-byte window, and records each
    /// beat for [`Axi3Master::verify_all`]. A window smaller than a word gets
    /// single beats.
    pub fn random_burst_writes(&mut self, count: u64, addr_bits: u64, max_len: u64)
        requires
            old(self)@.wf(),
        ensures
            final(self)@.wf(),
            final(self)@ == old(self)@.random_burst_writes(
                count as nat,
                window(addr_bits),
                if max_len < 15 {
                    max_len
                } else {
                    15
                },
            ),
    {
        let span: u64 = span_of(addr_bits);
        let most: u64 = if max_len < 15 {
            max_len
        } else {
            15
        };
        let mut n: u64 = 0;
        while n < count
            invariant
                n <= count,
                span == window(addr_bits),
                span > 0,
                most <= 15,
                self@.wf(),
                self@ == old(self)@.random_burst_writes(n as nat, span, most),
            decreases count - n,
        {
            let op = make_incr_burst(
                &mut self.traffic_lfsr,
                &mut self.shadow,
                span,
                most,
                self.config.width,
                true,
            );
            self.w_queue.push_back(op);
            n = n + 1;
            assert(self@ =~= old(self)@.random_burst_writes(n as nat, span, most));
        }
    }

    /// Queues a checked read of every recorded address that was written once,
    /// in increasing order; the result is how many. With write data
    /// interleaved, what repeated writes leave depends on their order.
    pub fn verify_all(&mut self) -> (r: u64)
        requires
            old(self)@.wf(),
        ensures
            final(self)@.wf(),
            exists|addrs: Seq<u64>|
                {
                    &&& lists_keys(addrs, old(self)@.certain())
                    &&& r == addrs.len()
                    &&& final(self)@ == (Axi3MasterView {
                        reads: ReadIssueView {
                            queue: old(self)@.reads.queue + #[trigger] old(self)@.checks(addrs),
                            ..old(self)@.reads
                        },
                        ..old(self)@
                    })
                },
    {
        let addrs = self.shadow.certain_addresses();
        let size_log: u64 = count_twos(bytes_for(self.config.width));
        let mut i: usize = 0;
        assert(self@.reads.queue =~= old(self)@.reads.queue + old(self)@.checks(addrs@.take(0)));
        while i < addrs.len()
            invariant
                i <= addrs.len(),
                size_log == old(self)@.size_log(),
                lists_keys(addrs@, old(self)@.certain()),
                self@ == (Axi3MasterView {
                    reads: ReadIssueView {
                        queue: old(self)@.reads.queue + old(self)@.checks(addrs@.take(i as int)),
                        ..old(self)@.reads
                    },
                    ..old(self)@
                }),
            decreases addrs.len() - i,
        {
            let addr: u64 = addrs[i];
            assert(addrs@.contains(addrs@[i as int]));
            let want: Vec<Vec<u64>> = vec![self.shadow.value(addr)];
            assert(beat_words(want@) =~= seq![old(self)@.shadow.values[addr]]);
            self.reads.push(ReadOp::checked(addr, 0, size_log, want));
            i = i + 1;
            assert(self@.reads.queue =~= old(self)@.reads.queue + old(self)@.checks(
                addrs@.take(i as int),
            ));
        }
        assert(addrs@.take(addrs.len() as int) =~= addrs@);
        addrs.len() as u64
    }

    /// Queues an incrementing burst read of `len + 1` beats; its data comes
    /// with [`Axi3Master::pop_read`]. More than 16 beats are refused.
    pub fn read_burst(&mut self, addr: u64, len: u64) -> (r: Result<(), TooManyBeats>)
        requires
            old(self)@.wf(),
            len < u64::MAX,
        ensures
            final(self)@.wf(),
            match r {
                Ok(_) => len <= 15 && final(self)@ == old(self)@.reading(
                    ReadOpView::incr(addr, len, old(self)@.size_log(), 0, None),
                ),
                Err(e) => len > 15 && e.beats == len + 1 && final(self)@ == old(self)@,
            },
    {
        if len > 15 {
            return Err(TooManyBeats { beats: len + 1 });
        }
        let size_log: u64 = count_twos(bytes_for(self.config.width));
        self.reads.push(ReadOp::unchecked(addr, len, size_log, 0));
        Ok(())
    }

    /// Takes the oldest read beat out, at full bus width.
    pub fn pop_read(&mut self) -> (r: Result<Value, NoReadBeat>)
        requires
            old(self)@.wf(),
        ensures
            final(self)@.wf(),
            match r {
                Ok(v) => old(self)@.reads.reads.len() > 0 && v@ == data_view(
                    old(self)@.reads.reads[0],
                    old(self)@.config.rwidth,
                ) && final(self)@ == (Axi3MasterView {
                    reads: ReadIssueView {
                        reads: old(self)@.reads.reads.drop_first(),
                        ..old(self)@.reads
                    },
                    ..old(self)@
                }),
                Err(_) => old(self)@.reads.reads.len() == 0 && final(self)@ == old(self)@,
            },
    {
        match self.reads.pop() {
            Some(words) => Ok(data_value(&words, self.config.rwidth)),
            None => Err(NoReadBeat),
        }
    }

    /// 1 when everything queued and in flight has completed, else 0.
    pub fn idle(&self) -> (r: u64)
        ensures
            r == (if self@.idle() {
                1u64
            } else {
                0u64
            }),
    {
        if self.w_queue.is_empty() && self.cur_aw.is_none() && self.active.is_empty()
            && self.b_out.is_empty() && self.reads.is_done() {
            1
        } else {
            0
        }
    }

    fn queue_single(&mut self, addr: u64, lock: u64, data: &Value, expect_ok: bool) -> (r: Result<
        (),
        ArgError,
    >)
        requires
            old(self)@.wf(),
        ensures
            final(self)@.wf(),
            single_answer(r, old(self)@, final(self)@, addr, lock, data, expect_ok),
    {
        match arg_words(data, self.config.width, "write data") {
            Ok(data) => {
                let size_log: u64 = count_twos(bytes_for(self.config.width));
                let strb: Vec<u64> = full_strb(self.config.width);
                self.w_queue.push_back(WriteOp::one(addr, size_log, lock, data, strb, expect_ok));
                Ok(())
            },
            Err(e) => Err(e),
        }
    }

    /// Queues a normal write of one beat, which has to be answered with OKAY.
    pub fn write(&mut self, addr: u64, data: &Value) -> (r: Result<(), ArgError>)
        requires
            old(self)@.wf(),
        ensures
            final(self)@.wf(),
            single_answer(r, old(self)@, final(self)@, addr, 0, data, true),
    {
        self.queue_single(addr, 0, data, true)
    }

    /// Queues an exclusive read of one beat.
    pub fn exclusive_read(&mut self, addr: u64)
        requires
            old(self)@.wf(),
        ensures
            final(self)@.wf(),
            final(self)@ == old(self)@.reading(
                ReadOpView::incr(addr, 0, old(self)@.size_log(), 1, None),
            ),
    {
        let size_log: u64 = count_twos(bytes_for(self.config.width));
        self.reads.push(ReadOp::unchecked(addr, 0, size_log, 1));
    }

    /// Queues an exclusive write of one beat; [`Axi3Master::exclusive_ok`]
    /// tells whether it succeeded.
    pub fn exclusive_write(&mut self, addr: u64, data: &Value) -> (r: Result<(), ArgError>)
        requires
            old(self)@.wf(),
        ensures
            final(self)@.wf(),
            single_answer(r, old(self)@, final(self)@, addr, 1, data, false),
    {
        self.queue_single(addr, 1, data, false)
    }

    /// 1 if the last exclusive write got EXOKAY, else 0.
    pub fn exclusive_ok(&self) -> (r: u64)
        ensures
            r == (if self@.outcome.excl_ok {
                1u64
            } else {
                0u64
            }),
    {
        if self.outcome.excl_ok {
            1
        } else {
            0
        }
    }
}

/// Whether `r` answers a request to queue a write of one beat.
pub open spec fn single_answer(
    r: Result<(), ArgError>,
    before: Axi3MasterView,
    after: Axi3MasterView,
    addr: u64,
    lock: u64,
    data: &Value,
    expect_ok: bool,
) -> bool {
    let width = before.config.width;
    match r {
        Ok(_) => arg_result(data@, width) is Ok && after == before.writing(
            WriteOpView::single(
                addr,
                before.size_log(),
                lock,
                arg_result(data@, width)->Ok_0,
                full_strobe(width),
                expect_ok,
            ),
        ),
        Err(e) => after == before && answers(Err(e), data@, width, "write data"@),
    }
}

} // verus!
