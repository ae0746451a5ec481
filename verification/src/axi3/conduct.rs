//! What an AXI3 master does in a cycle: what it presents, what it makes of the
//! answers and what it reports.

use crate::axi3::master::{drives, single_answer, Axi3MasterPorts, Axi3MasterView, WorkView};
use crate::axi4::burst::beat;
use crate::axi4::conduct::{
    has_beat, is_pick, last_id, lemma_free_id_is_pick, lemma_limits, lemma_read_reports,
    lemma_response_reports, limit_of,
};
use crate::axi4::generate::incr_burst;
use crate::axi4::issue::{MasterConfig, ReadIssueView};
use crate::axi4::ops::{MasterFault, PendingBurst, ReadOpView, WriteOpView};
use crate::common::random::{lemma_stall_extremes, xorshift};
use crate::common::report::{lemma_times_none, lemma_times_together, once, times};
use crate::common::stimulus::{full_strobe, scalar};
use crate::common::storage::{bus_words, byte_lanes};
use crate::common::words::{arg_result, extended, zeros, ArgError};
use crate::value::{word_count, Value};
use vstd::prelude::*;

verus! {

/// Whether the address of a write is handed over.
pub open spec fn takes_aw(s: Axi3MasterView, p: Axi3MasterPorts) -> bool {
    s.cur_aw is Some && s.aw_valid && p.awready@.truth()
}

/// The writes that send data, in turn: those that did, and last the one whose
/// address is handed over.
pub open spec fn senders(s: Axi3MasterView, p: Axi3MasterPorts) -> Seq<WorkView> {
    if takes_aw(s, p) {
        s.active.push(s.cur_aw->0)
    } else {
        s.active
    }
}

/// Whether a beat of write data is handed over: one of the first in turn.
pub open spec fn takes_w(s: Axi3MasterView, p: Axi3MasterPorts) -> bool {
    s.w_valid && p.wready@.truth() && senders(s, p).len() > 0
}

/// Whether a write response is handed over.
pub open spec fn takes_b(s: Axi3MasterView, p: Axi3MasterPorts) -> bool {
    s.b_ready && p.bvalid@.truth()
}

/// Whether the last beat of a write is handed over.
pub open spec fn ends_write(s: Axi3MasterView, p: Axi3MasterPorts) -> bool {
    takes_w(s, p) && senders(s, p)[0].beat >= senders(s, p)[0].op.len
}

/// The writes that a response can belong to: those that await theirs, and the
/// one whose last beat is handed over in the same cycle.
pub open spec fn writes_awaited(s: Axi3MasterView, p: Axi3MasterPorts) -> Map<u64, PendingBurst> {
    if ends_write(s, p) {
        let w = senders(s, p)[0];
        s.b_out.insert(
            w.id,
            PendingBurst { expect_ok: w.op.expect_ok, exclusive: w.op.lock == 1 },
        )
    } else {
        s.b_out
    }
}

/// The writes that send data after a cycle: the first in turn, once a beat of it
/// is handed over, goes behind the others with its next beat, or leaves after
/// its last.
pub open spec fn senders_after(s: Axi3MasterView, p: Axi3MasterPorts) -> Seq<WorkView> {
    let all = senders(s, p);
    if !takes_w(s, p) {
        all
    } else if ends_write(s, p) {
        all.drop_first()
    } else {
        all.drop_first().push(WorkView { beat: (all[0].beat + 1) as u64, ..all[0] })
    }
}

/// The IDs of the writes that send data or await their response.
pub open spec fn ids_in_use(active: Seq<WorkView>, known: Map<u64, PendingBurst>) -> Set<u64> {
    Set::new(
        |id: u64|
            known.contains_key(id) || exists|i: int|
                0 <= i < active.len() && (#[trigger] active[i]).id == id,
    )
}

/// What the port shows of read data, as wide as the bus.
pub open spec fn shown_data(p: Axi3MasterPorts, width: u32) -> Seq<u64> {
    Seq::new(
        bus_words(width),
        |i: int|
            if i < p.rdata@.len() {
                p.rdata@[i]
            } else {
                0
            },
    )
}

/// The read side of a cycle is what the read ports show.
pub proof fn lemma_read_side(p: Axi3MasterPorts, width: u32)
    ensures
        ({
            let r = p.read_side(width);
            &&& r.arready == p.arready@.truth()
            &&& r.rvalid == p.rvalid@.truth()
            &&& r.rlast == p.rlast@.truth()
            &&& r.rid == p.rid
            &&& r.rdata == shown_data(p, width)
        }),
{
    assert(extended(p.rdata@, word_count(width)) =~= shown_data(p, width));
}

/// Everything an AXI3 master reports, and nothing else: of a write response that
/// is handed over, where no write is awaited under its ID, or where one is that
/// has to succeed, is not exclusive and is answered with anything but 0; of read
/// data as the read engine does; in reset nothing. Each fault is reported once.
pub proof fn lemma_reports_are_due(s: Axi3MasterView, rst: bool, p: Axi3MasterPorts, x: MasterFault)
    requires
        s.can_clock(rst, p),
    ensures
        ({
            let known = writes_awaited(s, p);
            let r = p.read_side(s.config.width);
            times(s.faults(rst, p), x) == (if rst {
                0
            } else {
                match x {
                    MasterFault::UnexpectedB(id) => once(
                        takes_b(s, p) && id == p.bid && !known.contains_key(id),
                    ),
                    MasterFault::WriteResponse { id, code } => once(
                        takes_b(s, p) && id == p.bid && code == p.bresp && known.contains_key(id)
                            && known[id].expect_ok && !known[id].exclusive && code != 0,
                    ),
                    _ => times(s.reads.faults(r), x),
                }
            })
        }),
{
    let r = p.read_side(s.config.width);
    lemma_times_none(x);
    lemma_times_together(s.write_faults(p), s.reads.faults(r), x);
    if !rst {
        assert(s.write_moved(p).b_out =~= writes_awaited(s, p));
    }
    lemma_response_reports(p.bid, writes_awaited(s, p), p.bresp, x);
    lemma_read_reports(s.reads, r, x);
}

/// What a cycle does to the writes. A write presents its address; once that is
/// handed over, it sends its beats, in turn with the others; and after as many as
/// announced it awaits its response under its ID. A response takes the write of
/// its ID away. Once no address is presented and fewer writes than the limit send
/// or await, the oldest queued write is presented, under the smallest ID that
/// none of them has. BREADY is offered while a write is awaited, but for a cycle
/// that stalls.
pub proof fn lemma_writes_move(s: Axi3MasterView, p: Axi3MasterPorts)
    requires
        s.can_clock(false, p),
    ensures
        ({
            let t = s.clocked(false, p);
            let known = writes_awaited(s, p);
            let stall = match s.config.stall {
                Some(w) => xorshift(s.lfsr) % 256 < w,
                None => false,
            };
            let free = s.cur_aw is None || takes_aw(s, p);
            let presents = free && t.active.len() + t.b_out.len() < limit_of(s.config)
                && s.w_queue.len() > 0;
            &&& t.active == senders_after(s, p)
            &&& t.b_out == (if takes_b(s, p) {
                known.remove(p.bid)
            } else {
                known
            })
            &&& presents ==> {
                &&& t.w_queue == s.w_queue.drop_first()
                &&& t.cur_aw matches Some(w) && w.op == s.w_queue[0] && w.beat == 0 && is_pick(
                    ids_in_use(t.active, t.b_out),
                    w.id,
                    last_id(s.config),
                )
            }
            &&& !presents ==> {
                &&& t.w_queue == s.w_queue
                &&& t.cur_aw == (if free {
                    None
                } else {
                    s.cur_aw
                })
            }
            &&& t.aw_valid == (t.cur_aw is Some)
            &&& t.w_valid == (t.active.len() > 0)
            &&& t.b_ready == (t.b_out.len() > 0 && !stall)
            &&& t.outcome.bresp == (if takes_b(s, p) && known.contains_key(p.bid) {
                p.bresp
            } else {
                s.outcome.bresp
            })
            &&& t.outcome.excl_ok == (if takes_b(s, p) && known.contains_key(p.bid)
                && known[p.bid].exclusive {
                p.bresp == 1
            } else {
                s.outcome.excl_ok
            })
            &&& t.config == s.config && t.shadow == s.shadow
            &&& t.traffic_lfsr == s.traffic_lfsr
            &&& t.reads == s.reads.clocked(p.read_side(s.config.width), s.config, stall)
        }),
{
    let t = s.clocked(false, p);
    let u = s.drawn().write_moved(p).b_received(s.b_fires(p), p);
    lemma_limits(s.config);
    assert(s.drawn().write_moved(p).b_out =~= writes_awaited(s, p));
    assert(u.active =~= senders_after(s, p));
    if let Some(w) = s.config.stall {
        lemma_stall_extremes(s.lfsr, w);
    }
    lemma_live_is_live(u);
    assert(t.active == u.active && t.b_out == u.b_out);
    lemma_free_id_is_pick(u.live(), 0, s.config.id_mask_spec());
}

proof fn lemma_live_is_live(t: Axi3MasterView)
    ensures
        t.live() == ids_in_use(t.active, t.b_out),
{
    let ids = crate::axi3::master::work_ids(t.active);
    assert forall|id: u64| #[trigger]
        t.live().contains(id) == ids_in_use(t.active, t.b_out).contains(id) by {
        if ids.contains(id) {
            let i = choose|i: int| 0 <= i < ids.len() && ids[i] == id;
            assert(t.active[i].id == id);
        }
        if exists|i: int| 0 <= i < t.active.len() && (#[trigger] t.active[i]).id == id {
            let i = choose|i: int| 0 <= i < t.active.len() && (#[trigger] t.active[i]).id == id;
            assert(ids[i] == id);
        }
    }
    assert(t.live() =~= ids_in_use(t.active, t.b_out));
}

/// The ports show what the master presents: the write whose address is offered
/// with its ID; the beat of the write that is first in turn, under its ID, with
/// WLAST at the last beat announced; the read being issued; and the READY lines.
/// Where no address is offered or no data is sent, the lines beside it are zero but
/// for the strobe.
/// What the slave drives stays.
pub proof fn lemma_ports_show_requests(
    s: Axi3MasterView,
    before: Axi3MasterPorts,
    after: Axi3MasterPorts,
)
    requires
        drives(s, before, after),
    ensures
        after.awvalid == s.aw_valid && after.wvalid == s.w_valid && after.bready == s.b_ready,
        after.arvalid == s.reads.ar_valid && after.rready == s.reads.r_ready,
        s.cur_aw matches Some(w) ==> {
            &&& after.awaddr == w.op.addr && after.awlen == w.op.len
            &&& after.awsize == w.op.size_log && after.awburst == w.op.kind
            &&& after.awid == w.id && after.awlock == w.op.lock
        },
        s.active.len() > 0 ==> {
            let w = s.active[0];
            &&& after.wid == w.id
            &&& after.wlast == (w.beat == w.op.len)
            &&& has_beat(w.op.data, w.beat) ==> after.wdata@ == w.op.data[w.beat as int]
            &&& has_beat(w.op.strb, w.beat) ==> after.wstrb@ == w.op.strb[w.beat as int]
            &&& !has_beat(w.op.data, w.beat) ==> after.wdata@ == Seq::new(
                bus_words(s.config.width),
                |i: int| 0u64,
            )
            &&& !has_beat(w.op.strb, w.beat) ==> after.wstrb@ == full_strobe(s.config.width)
        },
        s.cur_aw is None ==> {
            &&& after.awaddr == 0 && after.awlen == 0 && after.awsize == 0 && after.awburst == 0
            &&& after.awid == 0 && after.awlock == 0
        },
        s.active.len() == 0 ==> {
            &&& after.wid == 0 && !after.wlast
            &&& after.wdata@ == Seq::new(bus_words(s.config.width), |i: int| 0u64)
            &&& after.wstrb@ == full_strobe(s.config.width)
        },
        after.araddr == s.reads.cur.addr && after.arlen == s.reads.cur.len,
        after.arsize == s.reads.cur.size_log && after.arburst == s.reads.cur.kind,
        after.arid == s.reads.id && after.arlock == s.reads.cur.lock,
        after.bresp == before.bresp && after.bid == before.bid && after.rid == before.rid,
        after.rdata == before.rdata && after.rlast == before.rlast,
{
    assert(zeros(word_count(s.config.width)) =~= Seq::new(bus_words(s.config.width), |i: int| 0u64));
}

/// What is queued goes to the end of its queue and changes nothing else.
pub proof fn lemma_queueing_is_local(s: Axi3MasterView, w: WriteOpView, r: ReadOpView)
    ensures
        ({
            let t = s.writing(w);
            &&& t.w_queue == s.w_queue.push(w)
            &&& t.reads == s.reads && t.b_out == s.b_out && t.shadow == s.shadow
            &&& t.active == s.active && t.cur_aw == s.cur_aw && t.outcome == s.outcome
        }),
        ({
            let t = s.reading(r);
            &&& t.reads.queue == s.reads.queue.push(r)
            &&& t.reads.out == s.reads.out && t.reads.reads == s.reads.reads
            &&& t.reads.active == s.reads.active && t.reads.cur == s.reads.cur
            &&& t.w_queue == s.w_queue && t.b_out == s.b_out && t.shadow == s.shadow
        }),
{
}

/// Reading back asks for each address one full-width beat with the recorded
/// value, and asks for every recorded address that was written once and for no
/// other.
pub proof fn lemma_checks_ask_for_the_record(
    s: Axi3MasterView,
    addrs: Seq<u64>,
    i: int,
    a: u64,
)
    requires
        0 <= i < addrs.len(),
    ensures
        s.checks(addrs).len() == addrs.len(),
        ({
            let op = s.checks(addrs)[i];
            &&& op.addr == addrs[i] && op.len == 0 && op.kind == 1 && op.lock == 0 && op.beat == 0
            &&& op.size_log == s.size_log()
            &&& op.expect matches Some(want) && want.len() == 1 && want[0]
                == s.shadow.values[addrs[i]]
        }),
        s.certain().contains_key(a) <==> s.shadow.values.contains_key(a)
            && !s.shadow.repeated.contains(a),
{
}

/// A write that fills: each beat holds its own address, in all lanes, and is recorded
/// there, marked where it is written again.
pub proof fn lemma_fill_writes_addresses(s: Axi3MasterView, addr: u64, len: u64, n: nat, i: int)
    requires
        0 <= i < n,
        n <= u64::MAX,
    ensures
        ({
            let (data, strb, shadow) = s.fill_beats(addr, len, n);
            &&& data.len() == n && strb.len() == n
            &&& i == n - 1 ==> shadow == s.fill_beats(addr, len, (n - 1) as nat).2.noted(
                beat(addr, byte_lanes(s.config.width), 1, len, i as u64) as u64,
                data[i],
                true,
            )
            &&& s.fill_beats(addr, len, 0).2 == s.shadow
            &&& data[i] == scalar(
                beat(addr, byte_lanes(s.config.width), 1, len, i as u64) as u64,
                s.config.width,
            )
            &&& strb[i] == full_strobe(s.config.width)
        }),
    decreases n,
{
    if n > 1 && i < n - 1 {
        lemma_fill_writes_addresses(s, addr, len, (n - 1) as nat, i);
    } else if n > 1 {
        lemma_fill_writes_addresses(s, addr, len, (n - 1) as nat, 0);
    } else {
        assert(s.fill_beats(addr, len, 0) == (
            Seq::<Seq<u64>>::empty(),
            Seq::<Seq<u64>>::empty(),
            s.shadow,
        ));
    }
}

/// The write that fills is queued last, as an INCR burst that has to succeed.
pub proof fn lemma_fill_is_queued(s: Axi3MasterView, addr: u64, len: u64)
    ensures
        ({
            let t = s.fill_written(addr, len);
            let (data, strb, shadow) = s.fill_beats(addr, len, (len + 1) as nat);
            let op = t.w_queue.last();
            &&& t.w_queue.drop_last() == s.w_queue
            &&& op.addr == addr && op.len == len && op.kind == 1 && op.lock == 0 && op.expect_ok
            &&& op.size_log == s.size_log() && op.data == data && op.strb == strb
            &&& t.shadow == shadow
            &&& t.reads == s.reads && t.b_out == s.b_out && t.active == s.active
        }),
{
    let t = s.fill_written(addr, len);
    assert(t.w_queue.drop_last() =~= s.w_queue);
}

/// A reset drops everything queued, presented, awaited and recorded. A master
/// starts like that.
pub proof fn lemma_reset_drops_requests(
    s: Axi3MasterView,
    p: Axi3MasterPorts,
    config: MasterConfig,
    seed: u64,
)
    ensures
        ({
            let t = s.clocked(true, p);
            &&& t.w_queue.len() == 0 && t.b_out == Map::<u64, PendingBurst>::empty()
            &&& t.active.len() == 0 && t.cur_aw is None
            &&& !t.aw_valid && !t.w_valid && !t.b_ready
            &&& t.reads == s.reads.reset() && t.config == s.config && t.outcome == s.outcome
            &&& t.shadow.values == Map::<u64, Seq<u64>>::empty()
        }),
        ({
            let t = Axi3MasterView::fresh(config, seed);
            &&& t.w_queue.len() == 0 && t.b_out == Map::<u64, PendingBurst>::empty()
            &&& t.active.len() == 0 && t.cur_aw is None
            &&& !t.aw_valid && !t.w_valid && !t.b_ready
            &&& t.reads == ReadIssueView::fresh() && t.config == config
            &&& t.outcome.bresp == 0 && !t.outcome.excl_ok
            &&& t.shadow.values == Map::<u64, Seq<u64>>::empty()
        }),
{
}

/// A master is idle exactly where nothing is queued, presented, sent or awaited.
pub proof fn lemma_idle_means_done(s: Axi3MasterView)
    ensures
        s.idle() <==> s.w_queue.len() == 0 && s.reads.queue.len() == 0 && s.cur_aw is None
            && s.active.len() == 0 && !s.reads.active && s.b_out.len() == 0 && s.reads.out.len()
            == 0,
{
}

/// A request to write one beat is taken where its data is, and is then queued last as
/// one full-width beat; else nothing changes.
pub proof fn lemma_single_write_is_queued(
    r: Result<(), ArgError>,
    before: Axi3MasterView,
    after: Axi3MasterView,
    addr: u64,
    lock: u64,
    data: &Value,
    expect_ok: bool,
)
    requires
        single_answer(r, before, after, addr, lock, data, expect_ok),
    ensures
        r is Ok <==> arg_result(data@, before.config.width) is Ok,
        r is Err ==> after == before,
        r is Ok ==> {
            let op = after.w_queue.last();
            &&& after.w_queue.drop_last() == before.w_queue && after.reads == before.reads
            &&& op.addr == addr && op.len == 0 && op.kind == 1 && op.size_log == before.size_log()
            &&& op.lock == lock && op.expect_ok == expect_ok
            &&& op.data == seq![arg_result(data@, before.config.width)->Ok_0]
            &&& op.strb == seq![full_strobe(before.config.width)]
        },
{
    if r is Ok {
        assert(after.w_queue.drop_last() =~= before.w_queue);
    }
}

/// Made-up bursts are queued one after another, each drawn from where the one before
/// it left off, and mark the addresses written again.
pub proof fn lemma_made_up_bursts_add_up(
    s: Axi3MasterView,
    n: nat,
    span: u64,
    max_len: u64,
)
    ensures
        ({
            let t = s.random_burst_writes(n, span, max_len);
            let u = s.random_burst_writes(n + 1, span, max_len);
            let b = incr_burst(t.traffic_lfsr, t.shadow, span, max_len, s.config.width, true);
            &&& t.w_queue.len() == s.w_queue.len() + n && t.config == s.config
            &&& u.w_queue == t.w_queue.push(b.op(s.config.width))
            &&& u.traffic_lfsr == b.made.lfsr && u.shadow == b.made.shadow
            &&& t.reads == s.reads && t.b_out == s.b_out && t.lfsr == s.lfsr
        }),
        s.random_burst_writes(0, span, max_len) == s,
    decreases n,
{
    if n > 0 {
        lemma_made_up_bursts_add_up(s, (n - 1) as nat, span, max_len);
    }
}

} // verus!
