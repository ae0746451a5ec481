//! What the AXI4 and AXI3 masters share: free IDs, the engine that issues
//! reads and routes their data by ID, and the handling of write responses.

use crate::axi4::ops::{MasterFault, PendingBurst, ReadOp, ReadOpView};
use crate::collections::{Fifo, Table};
use crate::common::report::{only_if, report};
use crate::common::resp::EXOKAY;
use crate::common::setup::{find_too_wide, too_wide, BuildError};
use vstd::prelude::*;

verus! {

/// How a burst master is set up.
#[derive(Clone, Copy, Debug, PartialEq, Eq, Structural)]
pub struct MasterConfig {
    /// The width of the write data port.
    pub width: u32,
    /// The width of the read data port.
    pub rwidth: u32,
    /// The width of the write ID port.
    pub id_width: u32,
    /// The weight, of 256, for delaying BREADY and RREADY.
    pub stall: Option<u64>,
    /// The transactions that may be outstanding per direction; unset means 4.
    pub max_outstanding: Option<u64>,
}

impl MasterConfig {
    /// The transactions that may be outstanding per direction.
    pub open spec fn max_spec(self) -> u64 {
        match self.max_outstanding {
            Some(n) => n,
            None => 4,
        }
    }

    /// The number of IDs, capped at the largest number.
    pub open spec fn id_space(self) -> u64 {
        if self.id_width < 64 {
            1u64 << (self.id_width as u64)
        } else {
            u64::MAX
        }
    }

    /// The largest ID.
    pub open spec fn id_mask_spec(self) -> u64 {
        if self.id_width < 64 {
            ((1u64 << (self.id_width as u64)) - 1) as u64
        } else {
            u64::MAX
        }
    }

    /// The error of a bus with these address widths, if any. More outstanding
    /// transactions than IDs would leave none free.
    pub open spec fn error(self, component: &'static str, awaddr: u32, araddr: u32) -> Option<
        BuildError,
    > {
        match too_wide(component, awaddr, araddr) {
            Some(e) => Some(e),
            None => if self.max_spec() > self.id_space() {
                Some(
                    BuildError::TooFewIds {
                        component,
                        max: self.max_spec(),
                        id_width: self.id_width,
                        ids: self.id_space(),
                    },
                )
            } else {
                None
            },
        }
    }

    /// The transactions that may be outstanding per direction.
    pub fn max(&self) -> (r: u64)
        ensures
            r == self.max_spec(),
    {
        match self.max_outstanding {
            Some(n) => n,
            None => 4,
        }
    }

    /// The largest ID.
    pub fn id_mask(&self) -> (r: u64)
        ensures
            r == self.id_mask_spec(),
    {
        if self.id_width < 64 {
            proof {
                crate::common::lanes::lemma_shift_is_pow2(self.id_width as u64);
            }
            (1u64 << (self.id_width as u64)) - 1
        } else {
            u64::MAX
        }
    }

    /// Looks for what is wrong with a bus with these address widths.
    pub fn find_error(&self, component: &'static str, awaddr: u32, araddr: u32) -> (r: Option<
        BuildError,
    >)
        ensures
            r == self.error(component, awaddr, araddr),
    {
        if let Some(e) = find_too_wide(component, awaddr, araddr) {
            return Some(e);
        }
        let ids: u64 = if self.id_width < 64 {
            1u64 << (self.id_width as u64)
        } else {
            u64::MAX
        };
        let max: u64 = self.max();
        if max > ids {
            Some(BuildError::TooFewIds { component, max, id_width: self.id_width, ids })
        } else {
            None
        }
    }
}

/// The smallest ID from `i` to `mask` that is not live, or zero where all are.
pub open spec fn free_id(live: Set<u64>, i: int, mask: u64) -> u64
    decreases mask - i + 1,
{
    if i > mask {
        0
    } else if !live.contains(i as u64) {
        i as u64
    } else {
        free_id(live, i + 1, mask)
    }
}

/// The smallest ID up to `mask` without an entry in `live`.
pub fn next_id<T: View>(live: &Table<T>, mask: u64) -> (r: u64)
    ensures
        r == free_id(live@.dom(), 0, mask),
{
    let mut id: u64 = 0;
    loop
        invariant
            id <= mask,
            free_id(live@.dom(), 0, mask) == free_id(live@.dom(), id as int, mask),
        decreases mask - id,
    {
        if !live.contains(id) {
            return id;
        }
        if id == mask {
            assert(free_id(live@.dom(), id + 1, mask) == 0);
            return 0;
        }
        id = id + 1;
    }
}

/// A live ID is never handed out while one is free: where fewer IDs are live
/// than there are, the one picked is not live.
pub proof fn lemma_picked_id_is_free(live: Set<u64>, mask: u64)
    requires
        live.finite(),
        live.len() <= mask,
    ensures
        !live.contains(free_id(live, 0, mask)),
        free_id(live, 0, mask) <= mask,
{
    if live.contains(free_id(live, 0, mask)) {
        lemma_free_id(live, 0, mask);
        lemma_all_live(live, mask);
    }
    lemma_free_id(live, 0, mask);
}

/// Every ID that is picked is in range.
pub proof fn lemma_picked_id_is_in_range(live: Set<u64>, mask: u64)
    ensures
        free_id(live, 0, mask) <= mask,
{
    lemma_free_id(live, 0, mask);
}

proof fn lemma_free_id(live: Set<u64>, i: int, mask: u64)
    requires
        0 <= i,
    ensures
        free_id(live, i, mask) <= mask,
        live.contains(free_id(live, i, mask)) ==> forall|k: u64|
            i <= k <= mask ==> live.contains(k),
    decreases mask - i + 1,
{
    if i <= mask && live.contains(i as u64) {
        lemma_free_id(live, i + 1, mask);
    }
}

proof fn lemma_all_live(live: Set<u64>, n: u64)
    requires
        live.finite(),
        forall|k: u64| k <= n ==> live.contains(k),
    ensures
        live.len() >= n + 1,
    decreases n,
{
    if n > 0 {
        let m = (n - 1) as u64;
        lemma_all_live(live.remove(n), m);
    } else {
        assert(live.contains(0u64));
        assert(live.remove(0u64).len() == live.len() - 1);
    }
}

/// The IDs suffice: a master that builds never runs out of free IDs while it
/// stays within its limit.
pub proof fn lemma_ids_suffice(
    config: MasterConfig,
    component: &'static str,
    awaddr: u32,
    araddr: u32,
    live: Set<u64>,
)
    requires
        config.error(component, awaddr, araddr) is None,
        live.finite(),
        live.len() < config.max_spec(),
    ensures
        !live.contains(free_id(live, 0, config.id_mask_spec())),
        free_id(live, 0, config.id_mask_spec()) <= config.id_mask_spec(),
{
    if config.id_width < 64 {
        crate::common::lanes::lemma_shift_is_pow2(config.id_width as u64);
    }
    lemma_picked_id_is_free(live, config.id_mask_spec());
}

/// The outcome of the last write responses.
#[derive(Clone, Copy, Debug, PartialEq, Eq, Structural)]
pub struct Outcome {
    /// The code of the last write response.
    pub bresp: u64,
    /// Whether the last exclusive write succeeded.
    pub excl_ok: bool,
}

/// The outcome after a response to a write, or to none. An exclusive write
/// may lose its reservation, so only its EXOKAY is noted.
pub open spec fn outcome_after(o: Outcome, w: Option<PendingBurst>, code: u64) -> Outcome {
    match w {
        Some(w) => Outcome {
            bresp: code,
            excl_ok: if w.exclusive {
                code == EXOKAY
            } else {
                o.excl_ok
            },
        },
        None => o,
    }
}

/// What is wrong with a response to a write, or to none.
pub open spec fn response_faults(id: u64, w: Option<PendingBurst>, code: u64) -> Seq<MasterFault> {
    match w {
        Some(w) => only_if(
            !w.exclusive && w.expect_ok && code != 0,
            MasterFault::WriteResponse { id, code },
        ),
        None => seq![MasterFault::UnexpectedB(id)],
    }
}

/// The write that is awaited under an ID.
pub open spec fn awaited(out: Map<u64, PendingBurst>, id: u64) -> Option<PendingBurst> {
    if out.contains_key(id) {
        Some(out[id])
    } else {
        None
    }
}

/// Takes a write response: the write is no longer awaited.
pub fn take_response(
    out: &mut Table<PendingBurst>,
    o: &mut Outcome,
    id: u64,
    code: u64,
    f: &mut Vec<MasterFault>,
)
    ensures
        final(out)@ == old(out)@.remove(id),
        *final(o) == outcome_after(*old(o), awaited(old(out)@, id), code),
        final(f)@ == old(f)@ + response_faults(id, awaited(old(out)@, id), code),
{
    match out.remove(id) {
        Some(w) => {
            o.bresp = code;
            if w.exclusive {
                o.excl_ok = code == EXOKAY;
            }
            report(
                f,
                !w.exclusive && w.expect_ok && code != 0,
                MasterFault::WriteResponse { id, code },
            );
        },
        None => f.push(MasterFault::UnexpectedB(id)),
    }
    assert(f@ =~= old(f)@ + response_faults(id, awaited(old(out)@, id), code));
}

/// The read side of the bus in one cycle.
pub struct ReadInputs {
    pub arready: bool,
    pub rvalid: bool,
    pub rid: u64,
    pub rdata: Vec<u64>,
    pub rlast: bool,
}

/// What [`ReadInputs`] hold.
#[verifier::ext_equal]
pub ghost struct ReadInputsView {
    pub arready: bool,
    pub rvalid: bool,
    pub rid: u64,
    pub rdata: Seq<u64>,
    pub rlast: bool,
}

impl View for ReadInputs {
    type V = ReadInputsView;

    open spec fn view(&self) -> ReadInputsView {
        ReadInputsView {
            arready: self.arready,
            rvalid: self.rvalid,
            rid: self.rid,
            rdata: self.rdata@,
            rlast: self.rlast,
        }
    }
}

/// What the read engine holds.
#[verifier::ext_equal]
pub ghost struct ReadIssueView {
    /// The reads that are not issued.
    pub queue: Seq<ReadOpView>,
    /// The reads that await data, by ID.
    pub out: Map<u64, ReadOpView>,
    /// The beats of unchecked reads.
    pub reads: Seq<Seq<u64>>,
    /// Whether a read is being issued.
    pub active: bool,
    pub id: u64,
    pub cur: ReadOpView,
    pub ar_valid: bool,
    pub r_ready: bool,
}

impl ReadIssueView {
    /// An engine with nothing to do.
    pub open spec fn fresh() -> ReadIssueView {
        ReadIssueView {
            queue: seq![],
            out: Map::empty(),
            reads: seq![],
            active: false,
            id: 0,
            cur: ReadOpView::empty(),
            ar_valid: false,
            r_ready: false,
        }
    }

    /// After a reset.
    pub open spec fn reset(self) -> ReadIssueView {
        ReadIssueView {
            queue: seq![],
            out: Map::empty(),
            reads: seq![],
            active: false,
            ar_valid: false,
            r_ready: false,
            ..self
        }
    }

    /// After the address was taken, or not.
    pub open spec fn ar_taken(self, arready: bool) -> ReadIssueView {
        if self.active && self.ar_valid && arready {
            ReadIssueView {
                out: self.out.insert(self.id, ReadOpView { beat: 0, ..self.cur }),
                cur: ReadOpView::empty(),
                active: false,
                ..self
            }
        } else {
            self
        }
    }

    /// After a beat of the read under `id`.
    pub open spec fn r_received(self, id: u64, data: Seq<u64>) -> ReadIssueView {
        if self.out.contains_key(id) {
            let op = self.out[id];
            let next = ReadOpView { beat: (op.beat + 1) as u64, ..op };
            ReadIssueView {
                out: if next.beat > next.len {
                    self.out.remove(id)
                } else {
                    self.out.insert(id, next)
                },
                reads: if op.expect is None {
                    self.reads.push(data)
                } else {
                    self.reads
                },
                ..self
            }
        } else {
            self
        }
    }

    /// What is wrong with a beat.
    pub open spec fn r_faults(self, id: u64, data: Seq<u64>, last: bool) -> Seq<MasterFault> {
        if self.out.contains_key(id) {
            let op = self.out[id];
            only_if(last != (op.beat == op.len), MasterFault::LastMisaligned(id)) + only_if(
                op.mismatches(data),
                MasterFault::DataMismatch(id),
            )
        } else {
            seq![MasterFault::UnexpectedR(id)]
        }
    }

    /// After the next read, if it may be, was issued under a free ID.
    pub open spec fn issued(self, max: u64, mask: u64) -> ReadIssueView {
        if !self.active && self.out.len() < max && self.queue.len() > 0 {
            ReadIssueView {
                queue: self.queue.drop_first(),
                active: true,
                id: free_id(self.out.dom(), 0, mask),
                cur: self.queue[0],
                ..self
            }
        } else {
            self
        }
    }

    /// Whether a beat is handed over.
    pub open spec fn r_fires(self, p: ReadInputsView) -> bool {
        self.r_ready && p.rvalid
    }

    /// Whether a cycle can be counted in 64 bits.
    pub open spec fn can_clock(self, p: ReadInputsView) -> bool {
        let s = self.ar_taken(p.arready);
        self.r_fires(p) && s.out.contains_key(p.rid) ==> s.out[p.rid].beat < u64::MAX
    }

    /// After a cycle.
    pub open spec fn clocked(self, p: ReadInputsView, config: MasterConfig, stall: bool) ->
        ReadIssueView {
        let s = self.ar_taken(p.arready);
        let t = if self.r_fires(p) {
            s.r_received(p.rid, p.rdata)
        } else {
            s
        };
        let u = t.issued(config.max_spec(), config.id_mask_spec());
        ReadIssueView { ar_valid: u.active, r_ready: u.out.len() > 0 && !stall, ..u }
    }

    /// What a cycle reports.
    pub open spec fn faults(self, p: ReadInputsView) -> Seq<MasterFault> {
        if self.r_fires(p) {
            self.ar_taken(p.arready).r_faults(p.rid, p.rdata, p.rlast)
        } else {
            seq![]
        }
    }

    /// With a read queued last.
    pub open spec fn queued(self, op: ReadOpView) -> ReadIssueView {
        ReadIssueView { queue: self.queue.push(op), ..self }
    }
}

/// The engine that issues reads and routes their data by ID.
pub struct ReadIssue {
    queue: Fifo<ReadOp>,
    out: Table<ReadOp>,
    reads: Fifo<Vec<u64>>,
    active: bool,
    id: u64,
    cur: ReadOp,
    ar_valid: bool,
    r_ready: bool,
}

impl View for ReadIssue {
    type V = ReadIssueView;

    closed spec fn view(&self) -> ReadIssueView {
        ReadIssueView {
            queue: self.queue@,
            out: self.out@,
            reads: self.reads@,
            active: self.active,
            id: self.id,
            cur: self.cur@,
            ar_valid: self.ar_valid,
            r_ready: self.r_ready,
        }
    }
}

impl ReadIssue {
    /// An engine with nothing to do.
    pub fn new() -> (r: ReadIssue)
        ensures
            r@ == ReadIssueView::fresh(),
    {
        ReadIssue {
            queue: Fifo::new(),
            out: Table::new(),
            reads: Fifo::new(),
            active: false,
            id: 0,
            cur: ReadOp::empty(),
            ar_valid: false,
            r_ready: false,
        }
    }

    /// Drops everything.
    pub fn reset(&mut self)
        ensures
            final(self)@ == old(self)@.reset(),
    {
        self.queue.clear();
        self.out.clear();
        self.reads.clear();
        self.active = false;
        self.ar_valid = false;
        self.r_ready = false;
        assert(self@ =~= old(self)@.reset());
    }

    /// Whether a cycle can be counted in 64 bits.
    pub fn in_range(&self, p: &ReadInputs) -> (r: bool)
        ensures
            r == self@.can_clock(p@),
    {
        if !(self.r_ready && p.rvalid) {
            return true;
        }
        if self.active && self.ar_valid && p.arready && self.id == p.rid {
            return true;
        }
        match self.out.get(p.rid) {
            Some(op) => op.beat < u64::MAX,
            None => true,
        }
    }

    fn take_ar(&mut self, arready: bool)
        ensures
            final(self)@ == old(self)@.ar_taken(arready),
    {
        if self.active && self.ar_valid && arready {
            let mut op = ReadOp::empty();
            std::mem::swap(&mut op, &mut self.cur);
            op.beat = 0;
            let _ = self.out.insert(self.id, op);
            self.active = false;
        }
    }

    fn receive_r(&mut self, id: u64, data: Vec<u64>, last: bool, f: &mut Vec<MasterFault>)
        requires
            old(self)@.out.contains_key(id) ==> old(self)@.out[id].beat < u64::MAX,
        ensures
            final(self)@ == old(self)@.r_received(id, data@),
            final(f)@ == old(f)@ + old(self)@.r_faults(id, data@, last),
    {
        match self.out.remove(id) {
            Some(mut op) => {
                report(f, last != (op.beat == op.len), MasterFault::LastMisaligned(id));
                report(f, op.mismatches(&data), MasterFault::DataMismatch(id));
                if op.expect.is_none() {
                    self.reads.push_back(data);
                }
                op.beat = op.beat + 1;
                if op.beat <= op.len {
                    let _ = self.out.insert(id, op);
                }
                assert(self@.out =~= old(self)@.r_received(id, data@).out);
            },
            None => {
                f.push(MasterFault::UnexpectedR(id));
                assert(self@.out =~= old(self)@.out);
            },
        }
        assert(f@ =~= old(f)@ + old(self)@.r_faults(id, data@, last));
    }

    fn issue(&mut self, max: u64, mask: u64)
        ensures
            final(self)@ == old(self)@.issued(max, mask),
    {
        if !self.active && (self.out.len() as u64) < max {
            if let Some(op) = self.queue.pop_front() {
                self.active = true;
                self.id = next_id(&self.out, mask);
                self.cur = op;
            }
        }
    }

    /// Moves on by a cycle; adds what it reports.
    pub fn clock(&mut self, p: ReadInputs, config: &MasterConfig, stall: bool, f: &mut Vec<MasterFault>)
        requires
            old(self)@.can_clock(p@),
        ensures
            final(self)@ == old(self)@.clocked(p@, *config, stall),
            final(f)@ == old(f)@ + old(self)@.faults(p@),
    {
        let fire = self.r_ready && p.rvalid;
        self.take_ar(p.arready);
        if fire {
            self.receive_r(p.rid, p.rdata, p.rlast, f);
        }
        assert(f@ =~= old(f)@ + old(self)@.faults(p@));
        self.issue(config.max(), config.id_mask());
        self.ar_valid = self.active;
        self.r_ready = !self.out.is_empty() && !stall;
    }

    /// Queues a read.
    pub fn push(&mut self, op: ReadOp)
        ensures
            final(self)@ == old(self)@.queued(op@),
    {
        self.queue.push_back(op);
    }

    /// Takes the oldest beat of the unchecked reads out.
    pub fn pop(&mut self) -> (r: Option<Vec<u64>>)
        ensures
            r is Some <==> old(self)@.reads.len() > 0,
            r matches Some(w) ==> w@ == old(self)@.reads[0] && final(self)@ == (ReadIssueView {
                reads: old(self)@.reads.drop_first(),
                ..old(self)@
            }),
            r is None ==> final(self)@ == old(self)@,
    {
        self.reads.pop_front()
    }

    /// Whether nothing is queued, being issued or awaiting data.
    pub fn is_done(&self) -> (r: bool)
        ensures
            r == (self@.queue.len() == 0 && !self@.active && self@.out.len() == 0),
    {
        self.queue.is_empty() && !self.active && self.out.is_empty()
    }

    /// Whether an address is offered.
    pub fn ar_valid(&self) -> (r: bool)
        ensures
            r == self@.ar_valid,
    {
        self.ar_valid
    }

    /// Whether data is accepted.
    pub fn r_ready(&self) -> (r: bool)
        ensures
            r == self@.r_ready,
    {
        self.r_ready
    }

    /// The ID of the read being issued.
    pub fn id(&self) -> (r: u64)
        ensures
            r == self@.id,
    {
        self.id
    }

    /// The read being issued.
    pub fn cur(&self) -> (r: &ReadOp)
        ensures
            r@ == self@.cur,
    {
        &self.cur
    }
}

} // verus!
