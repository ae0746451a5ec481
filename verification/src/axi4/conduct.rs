//! What an AXI4 master does in a cycle: what it presents, what it makes of the
//! answers and what it reports. The read side is that of an AXI3 master too.

use crate::axi4::burst::beat;
use crate::axi4::generate::incr_burst;
use crate::axi4::issue::{
    awaited, free_id, outcome_after, response_faults, MasterConfig, Outcome, ReadInputsView,
    ReadIssueView,
};
use crate::axi4::master::{drives, single_answer, Axi4MasterPorts, Axi4MasterView};
use crate::axi4::narrow::random_burst;
use crate::axi4::ops::{twos, MasterFault, PendingBurst, ReadOpView, WriteOpView};
use crate::common::lanes::{lane_count, lemma_shift_is_pow2};
use crate::common::random::{lemma_stall_extremes, xorshift};
use crate::common::report::{
    lemma_times_none, lemma_times_one, lemma_times_only_if, lemma_times_together, once, times,
};
use crate::common::setup::{lemma_wide_ports_are_refused, BuildError};
use crate::common::stimulus::{full_strobe, lemma_full_strobe_is_full, scalar};
use crate::common::storage::{bus_words, byte_lanes, lane_active, lemma_same_lane};
use crate::common::words::{arg_result, extended, zeros, ArgError};
use crate::value::{word_count, Value};
use vstd::arithmetic::power2::{lemma2_to64, lemma_pow2_pos, lemma_pow2_unfold, pow2};
use vstd::prelude::*;

verus! {

/// The transactions that may be outstanding in a direction: as configured, or 4.
pub open spec fn limit_of(config: MasterConfig) -> u64 {
    match config.max_outstanding {
        Some(n) => n,
        None => 4,
    }
}

/// The largest ID of a port.
pub open spec fn last_id(config: MasterConfig) -> int {
    if config.id_width < 64 {
        pow2(config.id_width as nat) - 1
    } else {
        u64::MAX as int
    }
}

/// Whether an ID is the one to pick: the smallest that is free, or 0 where none
/// is.
pub open spec fn is_pick(live: Set<u64>, id: u64, last: int) -> bool {
    &&& id <= last
    &&& !live.contains(id) ==> forall|k: u64| k < id ==> live.contains(k)
    &&& live.contains(id) ==> id == 0 && forall|k: u64| k <= last ==> live.contains(k)
}

/// The search for a free ID picks the one to pick.
pub proof fn lemma_free_id_is_pick(live: Set<u64>, i: int, mask: u64)
    requires
        0 <= i <= mask + 1,
        forall|k: u64| k < i ==> live.contains(k),
    ensures
        is_pick(live, free_id(live, i, mask), mask as int),
    decreases mask - i + 1,
{
    if i <= mask && live.contains(i as u64) {
        lemma_free_id_is_pick(live, i + 1, mask);
    } else if i > mask {
        assert(live.contains(0u64));
    }
}

/// The configured limits are what they are called.
pub proof fn lemma_limits(config: MasterConfig)
    ensures
        config.max_spec() == limit_of(config),
        config.id_mask_spec() == last_id(config),
        config.id_space() == (if config.id_width < 64 {
            last_id(config) + 1
        } else {
            u64::MAX as int
        }),
{
    if config.id_width < 64 {
        lemma_shift_is_pow2(config.id_width as u64);
    }
}

/// Whether a beat of read data is handed over.
pub open spec fn takes_beat(e: ReadIssueView, p: ReadInputsView) -> bool {
    e.r_ready && p.rvalid
}

/// Whether the address of a read is handed over.
pub open spec fn takes_address(e: ReadIssueView, p: ReadInputsView) -> bool {
    e.active && e.ar_valid && p.arready
}

/// The reads that a beat can belong to: those that await data, and the one whose
/// address is handed over in the same cycle, from its first beat on.
pub open spec fn reads_awaited(e: ReadIssueView, p: ReadInputsView) -> Map<u64, ReadOpView> {
    if takes_address(e, p) {
        e.out.insert(e.id, ReadOpView { beat: 0, ..e.cur })
    } else {
        e.out
    }
}

/// Whether a beat is the one that a read expects next, where it expects any.
pub open spec fn is_expected(op: ReadOpView, data: Seq<u64>) -> bool {
    match op.expect {
        Some(want) => op.beat < want.len() && want[op.beat as int] == data,
        None => true,
    }
}

/// Read data is reported exactly where no read is awaited under its ID, where
/// RLAST comes with another beat than the last announced or does not come with
/// it, and where a checked read gets other data than it expects. Each fault is
/// reported once.
pub proof fn lemma_read_reports(e: ReadIssueView, p: ReadInputsView, x: MasterFault)
    ensures
        ({
            let known = reads_awaited(e, p);
            times(e.faults(p), x) == once(
                takes_beat(e, p) && match x {
                    MasterFault::UnexpectedR(id) => id == p.rid && !known.contains_key(id),
                    MasterFault::LastMisaligned(id) => id == p.rid && known.contains_key(id)
                        && p.rlast != (known[id].beat == known[id].len),
                    MasterFault::DataMismatch(id) => id == p.rid && known.contains_key(id)
                        && !is_expected(known[id], p.rdata),
                    _ => false,
                },
            )
        }),
{
    broadcast use {lemma_times_together, lemma_times_only_if};

    lemma_times_none(x);
    lemma_times_one(MasterFault::UnexpectedR(p.rid), x);
}

/// What a cycle does to the reads. A beat under the ID of an awaited read is its
/// next; after as many beats as announced the read is awaited no longer. The data
/// of an unchecked read is kept, in order. Once nothing is presented and fewer
/// reads than the limit are awaited, the oldest queued read is presented, under
/// the smallest ID that no awaited read has. RREADY is offered while a read is
/// awaited, but for a cycle that stalls.
pub proof fn lemma_reads_move(
    e: ReadIssueView,
    p: ReadInputsView,
    config: MasterConfig,
    stall: bool,
)
    requires
        e.can_clock(p),
    ensures
        ({
            let t = e.clocked(p, config, stall);
            let known = reads_awaited(e, p);
            let op = known[p.rid];
            let mine = takes_beat(e, p) && known.contains_key(p.rid);
            let free = !e.active || takes_address(e, p);
            let presents = free && t.out.len() < limit_of(config) && e.queue.len() > 0;
            &&& t.out == (if !mine {
                known
            } else if op.beat >= op.len {
                known.remove(p.rid)
            } else {
                known.insert(p.rid, ReadOpView { beat: (op.beat + 1) as u64, ..op })
            })
            &&& t.reads == (if mine && op.expect is None {
                e.reads.push(p.rdata)
            } else {
                e.reads
            })
            &&& presents ==> {
                &&& t.cur == e.queue[0] && t.queue == e.queue.drop_first() && t.active
                &&& is_pick(t.out.dom(), t.id, last_id(config))
            }
            &&& !presents ==> {
                &&& t.queue == e.queue && t.active == !free && t.id == e.id
                &&& !free ==> t.cur == e.cur
            }
            &&& t.ar_valid == t.active
            &&& t.r_ready == (t.out.len() > 0 && !stall)
        }),
{
    let t = e.clocked(p, config, stall);
    lemma_limits(config);
    lemma_free_id_is_pick(t.out.dom(), 0, config.id_mask_spec());
}

/// A master starts with nothing to read, and a reset brings it there.
pub proof fn lemma_reads_start(e: ReadIssueView)
    ensures
        ({
            let t = ReadIssueView::fresh();
            &&& t.queue.len() == 0 && t.out == Map::<u64, ReadOpView>::empty()
            &&& t.reads.len() == 0 && !t.active && !t.ar_valid && !t.r_ready
        }),
        ({
            let t = e.reset();
            &&& t.queue.len() == 0 && t.out == Map::<u64, ReadOpView>::empty()
            &&& t.reads.len() == 0 && !t.active && !t.ar_valid && !t.r_ready
        }),
{
}

/// A write response is reported exactly where no write is awaited under its ID,
/// or where the write that is has to succeed, is not exclusive, and the code is
/// anything but 0; once.
pub proof fn lemma_response_reports(
    id: u64,
    out: Map<u64, PendingBurst>,
    code: u64,
    x: MasterFault,
)
    ensures
        times(response_faults(id, awaited(out, id), code), x) == once(
            match x {
                MasterFault::UnexpectedB(n) => n == id && !out.contains_key(id),
                MasterFault::WriteResponse { id: n, code: c } => n == id && c == code
                    && out.contains_key(id) && out[id].expect_ok && !out[id].exclusive && code != 0,
                _ => false,
            },
        ),
{
    broadcast use lemma_times_only_if;

    lemma_times_one(MasterFault::UnexpectedB(id), x);
}

/// The code of a response to an awaited write is kept as the last one, and that
/// of an exclusive write as whether it is 1. A response to nothing changes
/// nothing.
pub proof fn lemma_response_is_kept(o: Outcome, out: Map<u64, PendingBurst>, id: u64, code: u64)
    ensures
        ({
            let t = outcome_after(o, awaited(out, id), code);
            &&& t.bresp == (if out.contains_key(id) {
                code
            } else {
                o.bresp
            })
            &&& t.excl_ok == (if out.contains_key(id) && out[id].exclusive {
                code == 1
            } else {
                o.excl_ok
            })
        }),
{
}

/// Whether the address of a write is handed over.
pub open spec fn takes_aw(s: Axi4MasterView, p: Axi4MasterPorts) -> bool {
    s.w_active && !s.w_streaming && s.aw_valid && p.awready@.truth()
}

/// Whether a beat of write data is handed over.
pub open spec fn takes_w(s: Axi4MasterView, p: Axi4MasterPorts) -> bool {
    s.w_active && s.w_streaming && s.w_valid && p.wready@.truth()
}

/// Whether a write response is handed over.
pub open spec fn takes_b(s: Axi4MasterView, p: Axi4MasterPorts) -> bool {
    s.b_ready && p.bvalid@.truth()
}

/// Whether the last beat of a write is handed over.
pub open spec fn ends_write(s: Axi4MasterView, p: Axi4MasterPorts) -> bool {
    takes_w(s, p) && s.w_beat >= s.cur_w.len
}

/// The writes that a response can belong to: those that await theirs, and the
/// one whose last beat is handed over in the same cycle.
pub open spec fn writes_awaited(s: Axi4MasterView, p: Axi4MasterPorts) -> Map<u64, PendingBurst> {
    if ends_write(s, p) {
        s.b_out.insert(
            s.w_id,
            PendingBurst { expect_ok: s.cur_w.expect_ok, exclusive: s.cur_w.lock != 0 },
        )
    } else {
        s.b_out
    }
}

/// What the port shows of read data, as wide as the bus.
pub open spec fn shown_data(p: Axi4MasterPorts, width: u32) -> Seq<u64> {
    Seq::new(
        bus_words(width),
        |i: int|
            if i < p.rdata@.len() {
                p.rdata@[i]
            } else {
                0
            },
    )
}

/// The read side of a cycle is what the read ports show.
pub proof fn lemma_read_side(p: Axi4MasterPorts, width: u32)
    ensures
        ({
            let r = p.read_side(width);
            &&& r.arready == p.arready@.truth()
            &&& r.rvalid == p.rvalid@.truth()
            &&& r.rlast == p.rlast@.truth()
            &&& r.rid == p.rid
            &&& r.rdata == shown_data(p, width)
        }),
{
    assert(extended(p.rdata@, word_count(width)) =~= shown_data(p, width));
}

/// Everything an AXI4 master reports, and nothing else: of a write response that
/// is handed over, where no write is awaited under its ID, or where one is that
/// has to succeed, is not exclusive and is answered with anything but 0; of read
/// data as [`lemma_read_reports`] says; in reset nothing. Each fault is reported
/// once.
pub proof fn lemma_reports_are_due(s: Axi4MasterView, rst: bool, p: Axi4MasterPorts, x: MasterFault)
    requires
        s.can_clock(rst, p),
    ensures
        ({
            let known = writes_awaited(s, p);
            let r = p.read_side(s.config.width);
            times(s.faults(rst, p), x) == (if rst {
                0
            } else {
                match x {
                    MasterFault::UnexpectedB(id) => once(
                        takes_b(s, p) && id == p.bid && !known.contains_key(id),
                    ),
                    MasterFault::WriteResponse { id, code } => once(
                        takes_b(s, p) && id == p.bid && code == p.bresp && known.contains_key(id)
                            && known[id].expect_ok && !known[id].exclusive && code != 0,
                    ),
                    _ => times(s.reads.faults(r), x),
                }
            })
        }),
{
    let r = p.read_side(s.config.width);
    lemma_times_none(x);
    lemma_times_together(s.write_faults(p), s.reads.faults(r), x);
    if !rst {
        assert(s.write_moved(p).b_out =~= writes_awaited(s, p));
    }
    lemma_response_reports(p.bid, writes_awaited(s, p), p.bresp, x);
    lemma_read_reports(s.reads, r, x);
}

/// What a cycle does to the writes. A write presents its address; once that is
/// handed over, its beats, one after another; and after as many as announced it
/// awaits its response under its ID. A response takes the write of its ID away.
/// Once nothing is presented and fewer writes than the limit are awaited, the
/// oldest queued write is presented, under the smallest ID that no awaited write
/// has. BREADY is offered while a write is awaited, but for a cycle that stalls.
pub proof fn lemma_writes_move(s: Axi4MasterView, p: Axi4MasterPorts)
    requires
        s.can_clock(false, p),
    ensures
        ({
            let t = s.clocked(false, p);
            let known = writes_awaited(s, p);
            let stall = match s.config.stall {
                Some(w) => xorshift(s.lfsr) % 256 < w,
                None => false,
            };
            let free = !s.w_active || ends_write(s, p);
            let presents = free && t.b_out.len() < limit_of(s.config) && s.w_queue.len() > 0;
            &&& t.b_out == (if takes_b(s, p) {
                known.remove(p.bid)
            } else {
                known
            })
            &&& presents ==> {
                &&& t.w_active && !t.w_streaming
                &&& t.cur_w == s.w_queue[0] && t.w_queue == s.w_queue.drop_first()
                &&& is_pick(t.b_out.dom(), t.w_id, last_id(s.config))
            }
            &&& !presents ==> {
                &&& t.w_queue == s.w_queue && t.w_active == !free
                &&& t.cur_w == s.cur_w && t.w_id == s.w_id
                &&& !free ==> t.w_streaming == (s.w_streaming || takes_aw(s, p))
                &&& !free && takes_aw(s, p) ==> t.w_beat == 0
                &&& !free && !takes_aw(s, p) ==> t.w_beat == s.w_beat + once(takes_w(s, p))
            }
            &&& t.aw_valid == (t.w_active && !t.w_streaming)
            &&& t.w_valid == (t.w_active && t.w_streaming)
            &&& t.b_ready == (t.b_out.len() > 0 && !stall)
            &&& t.outcome.bresp == (if takes_b(s, p) && known.contains_key(p.bid) {
                p.bresp
            } else {
                s.outcome.bresp
            })
            &&& t.outcome.excl_ok == (if takes_b(s, p) && known.contains_key(p.bid)
                && known[p.bid].exclusive {
                p.bresp == 1
            } else {
                s.outcome.excl_ok
            })
            &&& t.config == s.config && t.shadow == s.shadow
            &&& t.traffic_lfsr == s.traffic_lfsr
            &&& t.reads == s.reads.clocked(p.read_side(s.config.width), s.config, stall)
        }),
{
    let t = s.clocked(false, p);
    lemma_limits(s.config);
    lemma_free_id_is_pick(t.b_out.dom(), 0, s.config.id_mask_spec());
    assert(s.drawn().write_moved(p).b_out =~= writes_awaited(s, p));
    if let Some(w) = s.config.stall {
        lemma_stall_extremes(s.lfsr, w);
    }
}

/// The word at a beat, where there is one.
pub open spec fn has_beat(beats: Seq<Seq<u64>>, i: u64) -> bool {
    i < beats.len()
}

/// The ports show what the master presents: the write being issued with its ID,
/// its beat and, at the last one announced, WLAST; the read being issued with its
/// ID; and the READY lines. What the slave drives stays.
pub proof fn lemma_ports_show_requests(
    s: Axi4MasterView,
    before: Axi4MasterPorts,
    after: Axi4MasterPorts,
)
    requires
        drives(s, before, after),
    ensures
        after.awvalid == s.aw_valid && after.wvalid == s.w_valid && after.bready == s.b_ready,
        after.arvalid == s.reads.ar_valid && after.rready == s.reads.r_ready,
        after.awaddr == s.cur_w.addr && after.awlen == s.cur_w.len,
        after.awsize == s.cur_w.size_log && after.awburst == s.cur_w.kind,
        after.awid == s.w_id && after.awlock == s.cur_w.lock,
        has_beat(s.cur_w.data, s.w_beat) ==> after.wdata@ == s.cur_w.data[s.w_beat as int],
        has_beat(s.cur_w.strb, s.w_beat) ==> after.wstrb@ == s.cur_w.strb[s.w_beat as int],
        !has_beat(s.cur_w.data, s.w_beat) ==> after.wdata@ == Seq::new(
            bus_words(s.config.width),
            |i: int| 0u64,
        ),
        !has_beat(s.cur_w.strb, s.w_beat) ==> after.wstrb@ == full_strobe(s.config.width),
        after.wlast == (s.w_beat == s.cur_w.len),
        after.araddr == s.reads.cur.addr && after.arlen == s.reads.cur.len,
        after.arsize == s.reads.cur.size_log && after.arburst == s.reads.cur.kind,
        after.arid == s.reads.id && after.arlock == s.reads.cur.lock,
        after.bresp == before.bresp && after.bid == before.bid && after.rid == before.rid,
        after.rdata == before.rdata && after.rlast == before.rlast,
{
    assert(zeros(word_count(s.config.width)) =~= Seq::new(bus_words(s.config.width), |i: int| 0u64));
}

/// The log of the bytes of a full-width beat, where they are a power of two.
pub proof fn lemma_size_is_the_log(width: u32, k: nat)
    requires
        byte_lanes(width) == pow2(k),
    ensures
        twos(lane_count(width)) == k,
{
    lemma_twos_of_pow2(byte_lanes(width), k);
}

proof fn lemma_twos_of_pow2(n: u64, k: nat)
    requires
        n == pow2(k),
    ensures
        twos(n) == k,
    decreases k,
{
    lemma2_to64();
    lemma_pow2_pos(k);
    if k > 0 {
        lemma_pow2_unfold(k);
        lemma_twos_of_pow2(n / 2, (k - 1) as nat);
    }
}

/// A write of one beat: one full-width beat of the data, all lanes of the bus
/// active, as an INCR burst.
pub proof fn lemma_single_is_one_full_beat(
    addr: u64,
    size_log: u64,
    lock: u64,
    data: Seq<u64>,
    width: u32,
    expect_ok: bool,
    i: int,
)
    requires
        0 <= i < byte_lanes(width),
    ensures
        ({
            let op = WriteOpView::single(
                addr,
                size_log,
                lock,
                data,
                full_strobe(width),
                expect_ok,
            );
            &&& op.addr == addr && op.len == 0 && op.size_log == size_log && op.kind == 1
            &&& op.lock == lock && op.expect_ok == expect_ok
            &&& op.data.len() == 1 && op.data[0] == data
            &&& op.strb.len() == 1 && lane_active(op.strb[0], i)
        }),
{
    lemma_full_strobe_is_full(width, i);
    lemma_same_lane(full_strobe(width), i);
}

/// A queued read: an INCR burst from its first beat on, that expects what it is
/// given.
pub proof fn lemma_read_is_incr(
    addr: u64,
    len: u64,
    size_log: u64,
    lock: u64,
    expect: Option<Seq<Seq<u64>>>,
)
    ensures
        ({
            let op = ReadOpView::incr(addr, len, size_log, lock, expect);
            &&& op.addr == addr && op.len == len && op.size_log == size_log && op.kind == 1
            &&& op.lock == lock && op.beat == 0 && op.expect == expect
        }),
{
}

/// What is queued goes to the end of its queue and changes nothing else.
pub proof fn lemma_queueing_is_local(s: Axi4MasterView, w: WriteOpView, r: ReadOpView)
    ensures
        ({
            let t = s.writing(w);
            &&& t.w_queue == s.w_queue.push(w)
            &&& t.reads == s.reads && t.b_out == s.b_out && t.shadow == s.shadow
            &&& t.w_active == s.w_active && t.cur_w == s.cur_w && t.outcome == s.outcome
        }),
        ({
            let t = s.reading(r);
            &&& t.reads.queue == s.reads.queue.push(r)
            &&& t.reads.out == s.reads.out && t.reads.reads == s.reads.reads
            &&& t.reads.active == s.reads.active && t.reads.cur == s.reads.cur
            &&& t.w_queue == s.w_queue && t.b_out == s.b_out && t.shadow == s.shadow
        }),
{
}

/// Reading back asks for each address one full-width beat with the recorded
/// value.
pub proof fn lemma_checks_ask_for_the_record(s: Axi4MasterView, addrs: Seq<u64>, i: int)
    requires
        0 <= i < addrs.len(),
    ensures
        s.checks(addrs).len() == addrs.len(),
        ({
            let op = s.checks(addrs)[i];
            &&& op.addr == addrs[i] && op.len == 0 && op.kind == 1 && op.lock == 0 && op.beat == 0
            &&& op.size_log == s.size_log()
            &&& op.expect matches Some(want) && want.len() == 1 && want[0]
                == s.shadow.values[addrs[i]]
        }),
{
}

/// A reset drops everything queued, presented, awaited and recorded. A master
/// starts like that.
pub proof fn lemma_reset_drops_requests(
    s: Axi4MasterView,
    p: Axi4MasterPorts,
    config: MasterConfig,
    seed: u64,
)
    ensures
        ({
            let t = s.clocked(true, p);
            &&& t.w_queue.len() == 0 && t.b_out == Map::<u64, PendingBurst>::empty()
            &&& !t.w_active && !t.aw_valid && !t.w_valid && !t.b_ready
            &&& t.reads == s.reads.reset() && t.config == s.config && t.outcome == s.outcome
            &&& t.shadow.values == Map::<u64, Seq<u64>>::empty()
        }),
        ({
            let t = Axi4MasterView::fresh(config, seed);
            &&& t.w_queue.len() == 0 && t.b_out == Map::<u64, PendingBurst>::empty()
            &&& !t.w_active && !t.aw_valid && !t.w_valid && !t.b_ready
            &&& t.reads == ReadIssueView::fresh() && t.config == config
            &&& t.outcome.bresp == 0 && !t.outcome.excl_ok
            &&& t.shadow.values == Map::<u64, Seq<u64>>::empty()
        }),
{
}

/// A master is idle exactly where nothing is queued, presented or awaited.
pub proof fn lemma_idle_means_done(s: Axi4MasterView)
    ensures
        s.idle() <==> s.w_queue.len() == 0 && s.reads.queue.len() == 0 && !s.w_active
            && !s.reads.active && s.b_out.len() == 0 && s.reads.out.len() == 0,
{
}

/// A master is refused where an address port is wider than 64 bits, or else where more
/// transactions may be outstanding than the ID port has IDs.
pub proof fn lemma_build_is_refused(
    config: MasterConfig,
    component: &'static str,
    awaddr: u32,
    araddr: u32,
)
    ensures
        ({
            let ids = if config.id_width < 64 {
                pow2(config.id_width as nat)
            } else {
                u64::MAX as nat
            };
            match config.error(component, awaddr, araddr) {
                None => awaddr <= 64 && araddr <= 64 && limit_of(config) <= ids,
                Some(BuildError::AddressTooWide { component: c, width, .. }) => c == component
                    && width > 64 && (width == awaddr || awaddr <= 64 && width == araddr),
                Some(BuildError::TooFewIds { component: c, max, id_width, ids: n }) => c == component
                    && awaddr <= 64 && araddr <= 64 && max == limit_of(config) && max > ids
                    && id_width == config.id_width && n == ids,
            }
        }),
{
    lemma_wide_ports_are_refused(component, awaddr, araddr);
    if config.id_width < 64 {
        lemma_shift_is_pow2(config.id_width as u64);
    }
}

/// A request to write one beat is taken where its data is, and is then queued last as
/// one full-width beat; else nothing changes.
pub proof fn lemma_single_write_is_queued(
    r: Result<(), ArgError>,
    before: Axi4MasterView,
    after: Axi4MasterView,
    addr: u64,
    lock: u64,
    data: &Value,
    expect_ok: bool,
)
    requires
        single_answer(r, before, after, addr, lock, data, expect_ok),
    ensures
        r is Ok <==> arg_result(data@, before.config.width) is Ok,
        r is Err ==> after == before,
        r is Ok ==> {
            let op = after.w_queue.last();
            &&& after.w_queue.drop_last() == before.w_queue && after.reads == before.reads
            &&& op.addr == addr && op.len == 0 && op.kind == 1 && op.size_log == before.size_log()
            &&& op.lock == lock && op.expect_ok == expect_ok
            &&& op.data == seq![arg_result(data@, before.config.width)->Ok_0]
            &&& op.strb == seq![full_strobe(before.config.width)]
        },
{
    if r is Ok {
        assert(after.w_queue.drop_last() =~= before.w_queue);
    }
}

/// Made-up bursts are queued one after another, each drawn from where the one before
/// it left off.
pub proof fn lemma_made_up_bursts_add_up(
    s: Axi4MasterView,
    n: nat,
    span: u64,
    max_len: u64,
)
    ensures
        ({
            let t = s.random_burst_writes(n, span, max_len);
            let u = s.random_burst_writes(n + 1, span, max_len);
            let b = incr_burst(t.traffic_lfsr, t.shadow, span, max_len, s.config.width, false);
            &&& t.w_queue.len() == s.w_queue.len() + n && t.config == s.config
            &&& u.w_queue == t.w_queue.push(b.op(s.config.width))
            &&& u.traffic_lfsr == b.made.lfsr && u.shadow == b.made.shadow
            &&& t.reads == s.reads && t.b_out == s.b_out && t.lfsr == s.lfsr
        }),
        ({
            let t = s.random_bursts(n, span, max_len);
            let u = s.random_bursts(n + 1, span, max_len);
            let (op, x, shadow) = random_burst(
                t.traffic_lfsr,
                t.shadow,
                span,
                max_len,
                s.config.width,
            );
            &&& t.w_queue.len() == s.w_queue.len() + n && t.config == s.config
            &&& u.w_queue == t.w_queue.push(op) && u.traffic_lfsr == x && u.shadow == shadow
            &&& t.reads == s.reads && t.b_out == s.b_out && t.lfsr == s.lfsr
        }),
        s.random_burst_writes(0, span, max_len) == s,
        s.random_bursts(0, span, max_len) == s,
    decreases n,
{
    if n > 0 {
        lemma_made_up_bursts_add_up(s, (n - 1) as nat, span, max_len);
    }
}

/// A read of filled words expects each beat to hold its own address.
pub proof fn lemma_filled_beats_hold_addresses(
    s: Axi4MasterView,
    addr: u64,
    len: u64,
    n: nat,
    i: int,
)
    requires
        0 <= i < n,
    ensures
        s.filled_beats(addr, len, n).len() == n,
        s.filled_beats(addr, len, n)[i] == scalar(
            beat(addr, byte_lanes(s.config.width), 1, len, i as u64) as u64,
            s.config.width,
        ),
{
}

} // verus!
