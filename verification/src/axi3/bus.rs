//! What a master and a memory do together: interleaved data lands where it
//! belongs and checked reads check out.

use crate::axi3::laws::{
    beats_of, lemma_incr_is_noted, lemma_live_count, lemma_taken_address_keeps_ids,
    lemma_taken_beat_keeps_ids, noted_all, offers_writes, write_ids_distinct, Beat,
};
use crate::axi3::master::{work_ids, Axi3MasterPorts, Axi3MasterView, WorkView};
use crate::axi3::ram::{Axi3RamView, Axi3SlavePorts, WriteBurst};
use crate::axi4::burst::{beat, INCR};
use crate::axi4::bus::{
    fine, ids_differ, lemma_reads_move, lemma_unchecked_is_fine, lemma_written_stays_whole,
    offered_read, plain_write, reads_fine, reads_linked, seen_reads, shows_memory,
};
use crate::axi4::generate::{incr_burst, lemma_clipped_fits, wanted_len, ShadowView};
use crate::axi4::issue::{awaited, lemma_ids_suffice, response_faults, MasterConfig, ReadIssueView};
use crate::axi4::laws::{lemma_incr_beats_prefix, lemma_twos_of_pow2, plain_bus};
use crate::axi4::ops::{beat_or, MasterFault, WriteOpView};
use crate::axi4::slave::{front_answer, taken, Answer, Burst, RamConfig};
use crate::common::lanes::{aligned, lane_count, lemma_aligned_twice, lemma_shift_is_pow2};
use crate::common::memory::lemma_read_gives_back_write;
use crate::common::random::{stalls, xorshift};
use crate::common::resp::OKAY;
use crate::common::stimulus::full_strobe;
use crate::common::words::{extended, masked, zeros};
use crate::value::word_count;
use vstd::prelude::*;

verus! {

/// Whether each port of a master and a memory shows what the other drives.
pub open spec fn wired(
    m: Axi3MasterView,
    r: Axi3RamView,
    p: Axi3MasterPorts,
    q: Axi3SlavePorts,
) -> bool {
    let blank = zeros(word_count(m.config.width));
    let full = full_strobe(m.config.width);
    &&& p.awready@.truth() == r.aw_ready
    &&& p.wready@.truth() == r.w_ready
    &&& p.bvalid@.truth() == r.b_valid
    &&& p.bresp == front_answer(r.b_queue).resp
    &&& p.bid == front_answer(r.b_queue).id
    &&& p.arready@.truth() == r.reads.ar_ready
    &&& p.rvalid@.truth() == r.reads.r_valid
    &&& p.rdata@ == r.reads.r_data
    &&& p.rid == r.reads.r_id
    &&& p.rlast@.truth() == (r.reads.r_valid && r.reads.r_last)
    &&& q.awvalid@.truth() == m.aw_valid
    &&& q.awaddr == m.aw_driven().op.addr
    &&& q.awlen == m.aw_driven().op.len
    &&& q.awsize == m.aw_driven().op.size_log
    &&& q.awburst == m.aw_driven().op.kind
    &&& q.awid == m.aw_driven().id
    &&& q.awlock == m.aw_driven().op.lock
    &&& q.wvalid@.truth() == m.w_valid
    &&& m.active.len() > 0 ==> {
        let w = m.active[0];
        &&& q.wid == w.id
        &&& q.wdata@ == beat_or(w.op.data, w.beat, blank)
        &&& q.wstrb@ == beat_or(w.op.strb, w.beat, full)
        &&& q.wlast@.truth() == (w.beat == w.op.len)
    }
    &&& q.bready@.truth() == m.b_ready
    &&& q.arvalid@.truth() == m.reads.ar_valid
    &&& q.araddr == m.reads.cur.addr
    &&& q.arlen == m.reads.cur.len
    &&& q.arsize == m.reads.cur.size_log
    &&& q.arburst == m.reads.cur.kind
    &&& q.arid == m.reads.id
    &&& q.arlock == m.reads.cur.lock
    &&& q.rready@.truth() == m.reads.r_ready
}

/// The address of a beat of a write burst.
pub open spec fn beat_addr_of(op: WriteOpView, k: u64) -> u64 {
    beat(op.addr, 1u64 << op.size_log, op.kind, op.len, k) as u64
}

/// Whether every beat of a write burst is a whole word with every lane active.
pub open spec fn whole_write(op: WriteOpView, width: u32) -> bool {
    &&& plain_write(op)
    &&& forall|k: u64|
        k <= op.len ==> {
            &&& aligned(#[trigger] beat_addr_of(op, k), lane_count(width)) == beat_addr_of(op, k)
            &&& op.data[k as int].len() == word_count(width)
            &&& masked(op.data[k as int], width) == op.data[k as int]
            &&& op.strb[k as int] == full_strobe(width)
        }
}

/// How many beats of a write burst from `k` on go to `a`.
pub open spec fn op_hits(op: WriteOpView, k: nat, a: u64) -> nat
    decreases op.len + 1 - k,
{
    if k > op.len {
        0
    } else {
        op_hits(op, k + 1, a) + (if beat_addr_of(op, k as u64) == a {
            1nat
        } else {
            0nat
        })
    }
}

/// How many beats that some writes still send go to `a`.
pub open spec fn hits(works: Seq<WorkView>, a: u64) -> nat
    decreases works.len(),
{
    if works.len() == 0 {
        0
    } else {
        hits(works.drop_last(), a) + op_hits(works.last().op, works.last().beat as nat, a)
    }
}

/// How many beats of some queued writes go to `a`.
pub open spec fn queue_hits(ops: Seq<WriteOpView>, a: u64) -> nat
    decreases ops.len(),
{
    if ops.len() == 0 {
        0
    } else {
        queue_hits(ops.drop_last(), a) + op_hits(ops.last(), 0, a)
    }
}

proof fn lemma_hits_push(works: Seq<WorkView>, w: WorkView, a: u64)
    ensures
        hits(works.push(w), a) == hits(works, a) + op_hits(w.op, w.beat as nat, a),
{
    assert(works.push(w).drop_last() =~= works);
}

proof fn lemma_hits_drop_first(works: Seq<WorkView>, a: u64)
    requires
        works.len() > 0,
    ensures
        hits(works, a) == hits(works.drop_first(), a) + op_hits(
            works[0].op,
            works[0].beat as nat,
            a,
        ),
    decreases works.len(),
{
    if works.len() > 1 {
        lemma_hits_drop_first(works.drop_last(), a);
        assert(works.drop_first().drop_last() =~= works.drop_last().drop_first());
    } else {
        assert(works.drop_first() =~= seq![]);
        assert(works.drop_last() =~= seq![]);
    }
}

proof fn lemma_queue_hits_drop_first(ops: Seq<WriteOpView>, a: u64)
    requires
        ops.len() > 0,
    ensures
        queue_hits(ops, a) == queue_hits(ops.drop_first(), a) + op_hits(ops[0], 0, a),
    decreases ops.len(),
{
    if ops.len() > 1 {
        lemma_queue_hits_drop_first(ops.drop_last(), a);
        assert(ops.drop_first().drop_last() =~= ops.drop_last().drop_first());
    } else {
        assert(ops.drop_first() =~= seq![]);
        assert(ops.drop_last() =~= seq![]);
    }
}

/// How many beats that are queued or being sent go to `a`.
pub open spec fn pending(m: Axi3MasterView, a: u64) -> nat {
    hits(m.active, a) + (match m.cur_aw {
        Some(w) => op_hits(w.op, 0, a),
        None => 0,
    }) + queue_hits(m.w_queue, a)
}

/// Whether every beat of a write burst from `k` on that goes to `a` carries `v`.
pub open spec fn op_carries(op: WriteOpView, from: u64, a: u64, v: Seq<u64>) -> bool {
    forall|k: u64|
        from <= k <= op.len && #[trigger] beat_addr_of(op, k) == a ==> op.data[k as int] == v
}

/// Whether every beat that is queued or being sent and goes to `a` carries `v`.
pub open spec fn carries(m: Axi3MasterView, a: u64, v: Seq<u64>) -> bool {
    &&& forall|i: int|
        0 <= i < m.active.len() ==> op_carries((#[trigger] m.active[i]).op, m.active[i].beat, a, v)
    &&& m.cur_aw matches Some(w) ==> op_carries(w.op, 0, a, v)
    &&& forall|i: int| 0 <= i < m.w_queue.len() ==> op_carries(#[trigger] m.w_queue[i], 0, a, v)
}

/// Whether the word at `a` is `v` in the end: it is so already, or the one beat
/// that goes there makes it so.
pub open spec fn becomes(m: Axi3MasterView, r: Axi3RamView, a: u64, v: Seq<u64>) -> bool {
    &&& carries(m, a, v)
    &&& pending(m, a) <= 1
    &&& pending(m, a) == 0 ==> r.mem.at(a) == v
}

/// The burst that a memory holds of a write whose beats are being sent.
pub open spec fn sent_burst(w: WorkView) -> Burst {
    Burst {
        addr: w.op.addr,
        len: w.op.len,
        size: 1u64 << w.op.size_log,
        kind: w.op.kind,
        id: w.id,
        exclusive: false,
        beat: w.beat,
    }
}

/// A memory that answers every access with OKAY.
pub open spec fn answers_okay(r: Axi3RamView) -> bool {
    r.mem.size is None && r.mem.errors == Map::<u64, u64>::empty()
}

/// Whether master and memory agree on the writes in flight.
pub open spec fn writes_linked(m: Axi3MasterView, r: Axi3RamView) -> bool {
    let width = r.mem.width;
    &&& r.mem.wf() && r.mem.clean() && width > 0 && width % 8 == 0
    &&& answers_okay(r)
    &&& write_ids_distinct(m)
    &&& forall|i: int|
        0 <= i < m.active.len() ==> {
            let w = #[trigger] m.active[i];
            &&& whole_write(w.op, width)
            &&& w.beat <= w.op.len
            &&& r.writes.contains_key(w.id)
            &&& r.writes[w.id] == (WriteBurst { burst: sent_burst(w), commit: true, resp: OKAY })
        }
    &&& m.cur_aw matches Some(w) ==> whole_write(w.op, width) && w.beat == 0
    &&& forall|i: int| 0 <= i < m.w_queue.len() ==> whole_write(#[trigger] m.w_queue[i], width)
    &&& ids_differ(r.b_queue)
    &&& forall|i: int|
        0 <= i < r.b_queue.len() ==> (#[trigger] r.b_queue[i]).resp == OKAY
            && m.b_out.contains_key(r.b_queue[i].id)
}

/// Whether master and memory offer what they hold.
pub open spec fn writes_guarded(m: Axi3MasterView, r: Axi3RamView) -> bool {
    &&& offers_writes(m)
    &&& r.b_valid == (r.b_queue.len() > 0)
}

/// Whether what becomes of each word stays the same.
pub open spec fn same_end(
    m: Axi3MasterView,
    r: Axi3RamView,
    n: Axi3MasterView,
    t: Axi3RamView,
) -> bool {
    forall|a: u64, v: Seq<u64>|
        aligned(a, lane_count(r.mem.width)) == a && becomes(m, r, a, v) ==> #[trigger] becomes(
            n,
            t,
            a,
            v,
        )
}

/// Whether no word gets more beats than before.
pub open spec fn no_more_hits(m: Axi3MasterView, n: Axi3MasterView) -> bool {
    forall|a: u64| #[trigger] pending(n, a) <= pending(m, a)
}

proof fn lemma_address_handover(
    m: Axi3MasterView,
    r: Axi3RamView,
    p: Axi3MasterPorts,
    q: Axi3SlavePorts,
)
    requires
        writes_linked(m, r),
        writes_guarded(m, r),
        wired(m, r, p, q),
    ensures
        ({
            let n = m.aw_taken(p);
            let t = r.after_aw(q);
            &&& writes_linked(n, t)
            &&& same_end(m, r, n, t)
            &&& no_more_hits(m, n)
            &&& t.mem == r.mem && t.b_queue == r.b_queue
            &&& n.w_queue == m.w_queue && n.b_out == m.b_out
            &&& m.active.len() > 0 ==> n.active.len() > 0 && n.active[0] == m.active[0]
        }),
{
    let n = m.aw_taken(p);
    let t = r.after_aw(q);
    lemma_taken_address_keeps_ids(m, p);
    if let Some(w) = m.cur_aw {
        if p.awready@.truth() {
            assert(n.active == m.active.push(w));
            let b = q.aw_burst();
            assert(b == sent_burst(w));
            let ids = work_ids(m.active);
            assert forall|i: int| 0 <= i < n.active.len() implies {
                let x = #[trigger] n.active[i];
                &&& whole_write(x.op, r.mem.width)
                &&& x.beat <= x.op.len
                &&& t.writes.contains_key(x.id)
                &&& t.writes[x.id] == (WriteBurst {
                    burst: sent_burst(x),
                    commit: true,
                    resp: OKAY,
                })
            } by {
                if i < m.active.len() {
                    assert(n.active[i] == m.active[i]);
                    assert(ids[i] == m.active[i].id);
                    assert(ids.to_set().contains(ids[i]));
                }
            }
            assert(writes_linked(n, t));
            assert forall|a: u64| #[trigger] pending(n, a) == pending(m, a) by {
                lemma_hits_push(m.active, w, a);
            }
            assert forall|a: u64, v: Seq<u64>|
                aligned(a, lane_count(r.mem.width)) == a && becomes(m, r, a, v) implies
                #[trigger] becomes(n, t, a, v) by {
                assert forall|i: int| 0 <= i < n.active.len() implies op_carries(
                    (#[trigger] n.active[i]).op,
                    n.active[i].beat,
                    a,
                    v,
                ) by {
                    if i < m.active.len() {
                        assert(n.active[i] == m.active[i]);
                    }
                }
                assert(pending(n, a) == pending(m, a));
            }
        }
    }
}

proof fn lemma_beat_links(m: Axi3MasterView, r: Axi3RamView, q: Axi3SlavePorts)
    requires
        writes_linked(m, r),
        m.active.len() > 0,
        q.wid == m.active[0].id,
        q.wdata@ == m.active[0].op.data[m.active[0].beat as int],
        q.wstrb@ == full_strobe(r.mem.width),
        q.wlast@.truth() == (m.active[0].beat == m.active[0].op.len),
    ensures
        ({
            let w = m.active[0];
            let n = m.w_taken(true);
            let t = r.beat_written(q.wid, q.wdata@, q.wstrb@, q.wlast@.truth());
            &&& writes_linked(n, t)
            &&& t.mem == r.mem.written(
                beat_addr_of(w.op, w.beat),
                w.op.data[w.beat as int],
                full_strobe(r.mem.width),
            )
        }),
{
    let w = m.active[0];
    let n = m.w_taken(true);
    let t = r.beat_written(q.wid, q.wdata@, q.wstrb@, q.wlast@.truth());
    let width = r.mem.width;
    lemma_taken_beat_keeps_ids(m, true);
    assert(r.writes[w.id].burst == sent_burst(w));
    let x = beat_addr_of(w.op, w.beat);
    assert(sent_burst(w).at() as u64 == x);
    assert(t.mem == r.mem.written(x, q.wdata@, q.wstrb@));
    lemma_written_stays_whole(r.mem, x, q.wdata@, q.wstrb@);
    let ids = work_ids(m.active);
    let moved = WorkView { beat: (w.beat + 1) as u64, ..w };
    assert(ids[0] == w.id);
    assert forall|i: int| 0 <= i < n.active.len() implies {
        let y = #[trigger] n.active[i];
        &&& whole_write(y.op, width)
        &&& y.beat <= y.op.len
        &&& t.writes.contains_key(y.id)
        &&& t.writes[y.id] == (WriteBurst { burst: sent_burst(y), commit: true, resp: OKAY })
    } by {
        if i + 1 < m.active.len() {
            assert(n.active[i] == m.active[i + 1]);
            assert(ids[i + 1] == m.active[i + 1].id);
            assert(ids[i + 1] != ids[0]);
        } else {
            assert(n.active[i] == moved);
        }
    }
    assert(!m.b_out.contains_key(w.id));
    if w.beat == w.op.len {
        assert(t.b_queue == r.b_queue.push(Answer { id: w.id, resp: OKAY }));
        assert forall|i: int| 0 <= i < t.b_queue.len() implies (#[trigger] t.b_queue[i]).resp
            == OKAY && n.b_out.contains_key(t.b_queue[i].id) by {
            if i < r.b_queue.len() {
                assert(t.b_queue[i] == r.b_queue[i]);
            }
        }
        assert forall|i: int, j: int| 0 <= i < j < t.b_queue.len() implies (
        #[trigger] t.b_queue[i]).id != (#[trigger] t.b_queue[j]).id by {
            assert(t.b_queue[i] == r.b_queue[i]);
            if j < r.b_queue.len() {
                assert(t.b_queue[j] == r.b_queue[j]);
            }
        }
    }
}

proof fn lemma_beat_lands(m: Axi3MasterView, r: Axi3RamView, a: u64, v: Seq<u64>)
    requires
        writes_linked(m, r),
        m.active.len() > 0,
        aligned(a, lane_count(r.mem.width)) == a,
        becomes(m, r, a, v),
    ensures
        ({
            let w = m.active[0];
            let t = r.mem.written(
                beat_addr_of(w.op, w.beat),
                w.op.data[w.beat as int],
                full_strobe(r.mem.width),
            );
            let n = m.w_taken(true);
            &&& carries(n, a, v)
            &&& pending(n, a) <= 1
            &&& pending(n, a) == 0 ==> t.at(a) == v
        }),
{
    let w = m.active[0];
    let n = m.w_taken(true);
    let x = beat_addr_of(w.op, w.beat);
    let moved = WorkView { beat: (w.beat + 1) as u64, ..w };
    lemma_beat_counts(m, a);
    assert(op_carries(w.op, w.beat, a, v));
    assert forall|i: int| 0 <= i < n.active.len() implies op_carries(
        (#[trigger] n.active[i]).op,
        n.active[i].beat,
        a,
        v,
    ) by {
        if i + 1 < m.active.len() {
            assert(n.active[i] == m.active[i + 1]);
        } else {
            assert(n.active[i] == moved);
        }
    }
    assert(aligned(x, lane_count(r.mem.width)) == x);
    if x == a {
        assert(w.op.data[w.beat as int] == v);
        lemma_read_gives_back_write(r.mem, x, v, a);
    }
}

/// A beat that is taken is no longer pending.
proof fn lemma_beat_counts(m: Axi3MasterView, a: u64)
    requires
        m.active.len() > 0,
        m.active[0].beat <= m.active[0].op.len < u64::MAX,
    ensures
        pending(m, a) == pending(m.w_taken(true), a) + (if beat_addr_of(
            m.active[0].op,
            m.active[0].beat,
        ) == a {
            1nat
        } else {
            0nat
        }),
{
    let w = m.active[0];
    let moved = WorkView { beat: (w.beat + 1) as u64, ..w };
    lemma_hits_drop_first(m.active, a);
    lemma_hits_push(m.active.drop_first(), moved, a);
    assert(op_hits(w.op, w.beat as nat, a) == op_hits(w.op, (w.beat + 1) as nat, a) + (
    if beat_addr_of(w.op, w.beat) == a {
        1nat
    } else {
        0nat
    }));
}

proof fn lemma_beat_handover(m: Axi3MasterView, r: Axi3RamView, q: Axi3SlavePorts, fire: bool)
    requires
        writes_linked(m, r),
        fire ==> {
            &&& m.active.len() > 0
            &&& q.wid == m.active[0].id
            &&& q.wdata@ == m.active[0].op.data[m.active[0].beat as int]
            &&& q.wstrb@ == full_strobe(r.mem.width)
            &&& q.wlast@.truth() == (m.active[0].beat == m.active[0].op.len)
        },
    ensures
        ({
            let n = m.w_taken(fire);
            let t = if fire {
                r.beat_written(q.wid, q.wdata@, q.wstrb@, q.wlast@.truth())
            } else {
                r
            };
            &&& writes_linked(n, t)
            &&& same_end(m, r, n, t)
            &&& no_more_hits(m, n)
            &&& !fire ==> t.mem == r.mem
            &&& r.b_queue.len() > 0 ==> t.b_queue.len() > 0 && t.b_queue[0] == r.b_queue[0]
        }),
{
    if fire {
        let n = m.w_taken(true);
        let t = r.beat_written(q.wid, q.wdata@, q.wstrb@, q.wlast@.truth());
        lemma_beat_links(m, r, q);
        assert forall|a: u64, v: Seq<u64>|
            aligned(a, lane_count(r.mem.width)) == a && becomes(m, r, a, v) implies
            #[trigger] becomes(n, t, a, v) by {
            lemma_beat_lands(m, r, a, v);
        }
        assert forall|a: u64| #[trigger] pending(n, a) <= pending(m, a) by {
            lemma_beat_counts(m, a);
        }
    }
}

proof fn lemma_write_response(
    m: Axi3MasterView,
    r: Axi3RamView,
    fire: bool,
    p: Axi3MasterPorts,
)
    requires
        writes_linked(m, r),
        fire ==> r.b_queue.len() > 0 && p.bid == r.b_queue[0].id && p.bresp == r.b_queue[0].resp,
    ensures
        ({
            let n = m.b_received(fire, p);
            let t = Axi3RamView { b_queue: taken(r.b_queue, fire), ..r };
            &&& writes_linked(n, t)
            &&& same_end(m, r, n, t)
            &&& no_more_hits(m, n)
            &&& fire ==> response_faults(p.bid, awaited(m.b_out, p.bid), p.bresp) == Seq::<
                MasterFault,
            >::empty()
        }),
{
    let n = m.b_received(fire, p);
    let t = Axi3RamView { b_queue: taken(r.b_queue, fire), ..r };
    if fire {
        assert(write_ids_distinct(n));
        assert forall|i: int| 0 <= i < t.b_queue.len() implies (#[trigger] t.b_queue[i]).resp
            == OKAY && n.b_out.contains_key(t.b_queue[i].id) by {
            assert(t.b_queue[i] == r.b_queue[i + 1]);
            assert(r.b_queue[0].id != r.b_queue[i + 1].id);
        }
        assert forall|i: int, j: int| 0 <= i < j < t.b_queue.len() implies (
        #[trigger] t.b_queue[i]).id != (#[trigger] t.b_queue[j]).id by {
            assert(t.b_queue[i] == r.b_queue[i + 1]);
            assert(t.b_queue[j] == r.b_queue[j + 1]);
        }
    }
    assert forall|a: u64| #[trigger] pending(n, a) == pending(m, a) by {}
    assert forall|a: u64, v: Seq<u64>|
        aligned(a, lane_count(r.mem.width)) == a && becomes(m, r, a, v) implies
        #[trigger] becomes(n, t, a, v) by {
        assert(pending(n, a) == pending(m, a));
    }
}

proof fn lemma_write_issue(m: Axi3MasterView, r: Axi3RamView, awaddr: u32, araddr: u32)
    requires
        writes_linked(m, r),
        m.config.error("axi3_master", awaddr, araddr) is None,
    ensures
        writes_linked(m.write_issued(), r),
        same_end(m, r, m.write_issued(), r),
        no_more_hits(m, m.write_issued()),
{
    let n = m.write_issued();
    if m.cur_aw is None && m.active.len() + m.b_out.len() < m.config.max_spec()
        && m.w_queue.len() > 0 {
        lemma_live_count(m);
        lemma_ids_suffice(m.config, "axi3_master", awaddr, araddr, m.live());
        assert(whole_write(m.w_queue[0], r.mem.width));
        assert forall|i: int| 0 <= i < n.w_queue.len() implies whole_write(
            #[trigger] n.w_queue[i],
            r.mem.width,
        ) by {
            assert(n.w_queue[i] == m.w_queue[i + 1]);
        }
        assert forall|a: u64| #[trigger] pending(n, a) == pending(m, a) by {
            lemma_queue_hits_drop_first(m.w_queue, a);
        }
        assert forall|a: u64, v: Seq<u64>|
            aligned(a, lane_count(r.mem.width)) == a && becomes(m, r, a, v) implies
            #[trigger] becomes(n, r, a, v) by {
            assert(pending(n, a) == pending(m, a));
            assert(op_carries(m.w_queue[0], 0, a, v));
            assert forall|i: int| 0 <= i < n.w_queue.len() implies op_carries(
                #[trigger] n.w_queue[i],
                0,
                a,
                v,
            ) by {
                assert(n.w_queue[i] == m.w_queue[i + 1]);
            }
        }
    }
}

/// Whether everything queued has been sent.
pub open spec fn writes_done(m: Axi3MasterView) -> bool {
    m.w_queue.len() == 0 && m.cur_aw is None && m.active.len() == 0
}

proof fn lemma_same_end_joins(
    m: Axi3MasterView,
    r: Axi3RamView,
    n: Axi3MasterView,
    t: Axi3RamView,
    o: Axi3MasterView,
    u: Axi3RamView,
)
    requires
        same_end(m, r, n, t),
        same_end(n, t, o, u),
        no_more_hits(m, n),
        no_more_hits(n, o),
        t.mem.width == r.mem.width,
    ensures
        same_end(m, r, o, u),
        no_more_hits(m, o),
{
    assert forall|a: u64, v: Seq<u64>|
        aligned(a, lane_count(r.mem.width)) == a && becomes(m, r, a, v) implies
        #[trigger] becomes(o, u, a, v) by {
        assert(becomes(n, t, a, v));
    }
    assert forall|a: u64| #[trigger] pending(o, a) <= pending(m, a) by {
        assert(pending(n, a) <= pending(m, a));
    }
}

/// What is drawn, read, reserved or readied does not matter to the writes.
proof fn lemma_writes_alone(
    m: Axi3MasterView,
    r: Axi3RamView,
    n: Axi3MasterView,
    t: Axi3RamView,
)
    requires
        writes_linked(m, r),
        n == (Axi3MasterView {
            reads: n.reads,
            lfsr: n.lfsr,
            aw_valid: n.aw_valid,
            w_valid: n.w_valid,
            b_ready: n.b_ready,
            ..m
        }),
        t == (Axi3RamView {
            reads: t.reads,
            lfsr: t.lfsr,
            reserved: t.reserved,
            aw_ready: t.aw_ready,
            w_ready: t.w_ready,
            b_valid: t.b_valid,
            ..r
        }),
    ensures
        writes_linked(n, t),
        same_end(m, r, n, t),
        no_more_hits(m, n),
{
    assert forall|a: u64| #[trigger] pending(n, a) == pending(m, a) by {}
    assert forall|a: u64, v: Seq<u64>|
        aligned(a, lane_count(r.mem.width)) == a && becomes(m, r, a, v) implies
        #[trigger] becomes(n, t, a, v) by {
        assert(pending(n, a) == pending(m, a));
    }
}

/// The master after its write engine moved, up to what it offers.
spec fn sent(m: Axi3MasterView, p: Axi3MasterPorts) -> Axi3MasterView {
    m.write_moved(p).b_received(m.b_fires(p), p).write_issued()
}

/// The memory after its write engine moved, up to what it offers.
spec fn got(r: Axi3RamView, q: Axi3SlavePorts) -> Axi3RamView {
    let s = r.after_aw(q).after_w(q, r.w_ready);
    Axi3RamView { b_queue: taken(s.b_queue, q.bready@.truth() && r.b_valid), ..s }
}

proof fn lemma_writes_move(
    m: Axi3MasterView,
    r: Axi3RamView,
    p: Axi3MasterPorts,
    q: Axi3SlavePorts,
    awaddr: u32,
    araddr: u32,
)
    requires
        writes_linked(m, r),
        writes_guarded(m, r),
        wired(m, r, p, q),
        m.config.width == r.mem.width,
        m.config.error("axi3_master", awaddr, araddr) is None,
    ensures
        ({
            let n = sent(m, p);
            let t = got(r, q);
            &&& m.write_faults(p) == Seq::<MasterFault>::empty()
            &&& writes_linked(n, t)
            &&& same_end(m, r, n, t)
            &&& no_more_hits(m, n)
            &&& t.mem.width == r.mem.width
            &&& writes_done(m) ==> writes_done(n) && t.mem == r.mem
        }),
{
    let m1 = m.aw_taken(p);
    let r1 = r.after_aw(q);
    lemma_address_handover(m, r, p, q);
    let fire = m.w_fires(p);
    let m2 = m1.w_taken(fire);
    let r2 = r1.after_w(q, r.w_ready);
    if fire {
        let w = m.active[0];
        assert(m1.active[0] == w);
        assert(whole_write(w.op, r.mem.width));
        assert(aligned(beat_addr_of(w.op, w.beat), lane_count(r.mem.width)) == beat_addr_of(
            w.op,
            w.beat,
        ));
        assert(r1.writes.contains_key(q.wid));
    }
    lemma_beat_handover(m1, r1, q, fire);
    lemma_same_end_joins(m, r, m1, r1, m2, r2);
    let taken_b = m.b_fires(p);
    let m3 = m2.b_received(taken_b, p);
    let r3 = got(r, q);
    lemma_write_response(m2, r2, taken_b, p);
    lemma_same_end_joins(m, r, m2, r2, m3, r3);
    let n = m3.write_issued();
    lemma_write_issue(m3, r3, awaddr, araddr);
    lemma_same_end_joins(m, r, m3, r3, n, r3);
}

proof fn lemma_write_half(
    m: Axi3MasterView,
    r: Axi3RamView,
    p: Axi3MasterPorts,
    q: Axi3SlavePorts,
    awaddr: u32,
    araddr: u32,
)
    requires
        writes_linked(m, r),
        writes_guarded(m, r),
        wired(m, r, p, q),
        m.config.width == r.mem.width,
        m.config.error("axi3_master", awaddr, araddr) is None,
    ensures
        ({
            let n = m.clocked(false, p);
            let t = r.clocked(false, q);
            &&& m.write_faults(p) == Seq::<MasterFault>::empty()
            &&& writes_linked(n, t)
            &&& writes_guarded(n, t)
            &&& same_end(m, r, n, t)
            &&& no_more_hits(m, n)
            &&& n.config == m.config && n.shadow == m.shadow
            &&& t.config == r.config && t.mem.width == r.mem.width
            &&& writes_done(m) ==> writes_done(n) && t.mem == r.mem
        }),
{
    let m0 = m.drawn();
    let r0 = r.drawn();
    lemma_writes_alone(m, r, m0, r0);
    lemma_writes_move(m0, r0, p, q, awaddr, araddr);
    let m1 = sent(m0, p);
    let r1 = got(r0, q);
    lemma_same_end_joins(m, r, m0, r0, m1, r1);
    let n = m.clocked(false, p);
    let t = r.clocked(false, q);
    lemma_writes_alone(m1, r1, n, t);
    lemma_same_end_joins(m, r, m1, r1, n, t);
    assert(m.write_faults(p) == m0.write_faults(p)) by {
        assert(m0.write_moved(p).b_out == m.write_moved(p).b_out);
    }
}

/// Whether master and memory are in step: they agree on what is in flight, and
/// every checked read expects what the memory will answer.
pub open spec fn in_step(m: Axi3MasterView, r: Axi3RamView) -> bool {
    &&& m.config.width == r.config.width
    &&& r.mem.width == r.config.width
    &&& writes_linked(m, r)
    &&& writes_guarded(m, r)
    &&& reads_linked(m.reads, r.reads, m.config.max_spec())
    &&& reads_fine(m.reads, writes_done(m), r.mem)
    &&& shows_memory(r.reads, r.mem)
    &&& r.reads.r_data.len() == word_count(r.mem.width)
}

proof fn lemma_read_half(
    m: Axi3MasterView,
    r: Axi3RamView,
    p: Axi3MasterPorts,
    q: Axi3SlavePorts,
    awaddr: u32,
    araddr: u32,
)
    requires
        in_step(m, r),
        wired(m, r, p, q),
        m.config.error("axi3_master", awaddr, araddr) is None,
    ensures
        ({
            let n = m.clocked(false, p);
            let t = r.clocked(false, q);
            &&& m.reads.faults(p.read_side(m.config.width)) == Seq::<MasterFault>::empty()
            &&& reads_linked(n.reads, t.reads, m.config.max_spec())
            &&& reads_fine(n.reads, writes_done(m), r.mem)
            &&& shows_memory(t.reads, t.mem)
            &&& t.mem.wf() && t.mem.width == r.mem.width ==> t.reads.r_data.len() == word_count(
                t.mem.width,
            )
        }),
{
    let stall = stalls(m.lfsr, m.config.stall);
    let late = stalls(r.lfsr, r.config.stall);
    let r1 = r.drawn().write_cycle(q, late);
    assert(r1.reads == r.reads && r1.config == r.config);
    assert(p.read_side(m.config.width) == seen_reads(r.reads)) by {
        assert(extended(p.rdata@, word_count(m.config.width)) =~= r.reads.r_data);
    }
    let exclusive = m.reads.cur.lock == 1;
    lemma_reads_move(
        m.reads,
        r.reads,
        exclusive,
        m.config,
        "axi3_master",
        writes_done(m),
        r.mem,
        r1.mem,
        r.config.max_spec(),
        stall,
        late,
        awaddr,
        araddr,
    );
    assert(r1.ar_taken(q) == offered_read(m.reads, r.reads, exclusive));
}

/// Master and memory stay in step: in a cycle in which each sees what the other
/// drives, the master has nothing to report, and what becomes of each word
/// stays the same.
pub proof fn lemma_cycle_keeps_in_step(
    m: Axi3MasterView,
    r: Axi3RamView,
    p: Axi3MasterPorts,
    q: Axi3SlavePorts,
    awaddr: u32,
    araddr: u32,
)
    requires
        in_step(m, r),
        wired(m, r, p, q),
        m.config.error("axi3_master", awaddr, araddr) is None,
    ensures
        ({
            let n = m.clocked(false, p);
            let t = r.clocked(false, q);
            &&& m.faults(false, p) == Seq::<MasterFault>::empty()
            &&& in_step(n, t)
            &&& same_end(m, r, n, t)
            &&& no_more_hits(m, n)
            &&& n.config == m.config && n.shadow == m.shadow && t.mem.width == r.mem.width
            &&& writes_done(m) ==> writes_done(n)
        }),
{
    lemma_write_half(m, r, p, q, awaddr, araddr);
    lemma_read_half(m, r, p, q, awaddr, araddr);
    let n = m.clocked(false, p);
    let t = r.clocked(false, q);
    if !writes_done(m) {
        lemma_unchecked_is_fine(n.reads, r.mem, writes_done(n), t.mem);
    }
    assert(m.faults(false, p) =~= Seq::<MasterFault>::empty());
}

/// Whether every recorded word that was written once becomes what is recorded,
/// and no beat goes to a word that is not recorded.
pub open spec fn agreed(m: Axi3MasterView, r: Axi3RamView) -> bool {
    &&& forall|a: u64| #[trigger]
        m.certain().contains_key(a) ==> aligned(a, lane_count(r.mem.width)) == a && becomes(
            m,
            r,
            a,
            m.shadow.values[a],
        )
    &&& forall|a: u64| !m.shadow.values.contains_key(a) ==> #[trigger] pending(m, a) == 0
}

/// A fresh master and a fresh memory without an end are in step, on a bus of
/// whole bytes.
pub proof fn lemma_fresh_pair_is_in_step(
    config: MasterConfig,
    seed: u64,
    ram: RamConfig,
    ram_seed: u64,
)
    requires
        config.width == ram.width,
        config.width > 0,
        config.width % 8 == 0,
        ram.size is None,
    ensures
        ({
            let m = Axi3MasterView::fresh(config, seed);
            let r = Axi3RamView::fresh(ram, ram_seed);
            in_step(m, r) && agreed(m, r)
        }),
{
    let m = Axi3MasterView::fresh(config, seed);
    assert(work_ids(m.active) =~= seq![]);
}

/// A reset of both leaves them in step: nothing is queued or in flight, and the
/// memory keeps its words.
pub proof fn lemma_reset_keeps_in_step(
    m: Axi3MasterView,
    r: Axi3RamView,
    p: Axi3MasterPorts,
    q: Axi3SlavePorts,
)
    requires
        m.config.width == r.config.width,
        r.wf(),
        r.mem.clean(),
        r.mem.width > 0,
        r.mem.width % 8 == 0,
        answers_okay(r),
        r.reads.r_data.len() == word_count(r.mem.width),
    ensures
        in_step(m.clocked(true, p), r.clocked(true, q)),
        r.clocked(true, q).mem == r.mem,
{
    let n = m.clocked(true, p);
    assert(work_ids(n.active) =~= seq![]);
}

proof fn lemma_no_hits(op: WriteOpView, k: nat, a: u64)
    requires
        op.len < u64::MAX,
    ensures
        op_hits(op, k, a) == 0 <==> forall|j: u64|
            k <= j <= op.len ==> #[trigger] beat_addr_of(op, j) != a,
    decreases op.len + 1 - k,
{
    if k <= op.len {
        lemma_no_hits(op, k + 1, a);
        if beat_addr_of(op, k as u64) != a {
            if op_hits(op, k, a) == 0 {
                assert forall|j: u64| k <= j <= op.len implies #[trigger] beat_addr_of(op, j)
                    != a by {
                    if j == k {
                    }
                }
            }
        }
    }
}

proof fn lemma_one_hit(op: WriteOpView, k: nat, i: u64, a: u64)
    requires
        op.len < u64::MAX,
        k <= i <= op.len,
        beat_addr_of(op, i) == a,
        forall|j: u64| k <= j <= op.len && j != i ==> #[trigger] beat_addr_of(op, j) != a,
    ensures
        op_hits(op, k, a) == 1,
    decreases op.len + 1 - k,
{
    if k == i {
        lemma_no_hits(op, k + 1, a);
    } else {
        lemma_one_hit(op, k + 1, i, a);
        assert(beat_addr_of(op, k as u64) != a);
    }
}

proof fn lemma_no_work_hits(works: Seq<WorkView>, a: u64, i: int)
    requires
        hits(works, a) == 0,
        0 <= i < works.len(),
    ensures
        op_hits(works[i].op, works[i].beat as nat, a) == 0,
    decreases works.len(),
{
    if i < works.len() - 1 {
        lemma_no_work_hits(works.drop_last(), a, i);
    }
}

proof fn lemma_no_queue_hits(ops: Seq<WriteOpView>, a: u64, i: int)
    requires
        queue_hits(ops, a) == 0,
        0 <= i < ops.len(),
    ensures
        op_hits(ops[i], 0, a) == 0,
    decreases ops.len(),
{
    if i < ops.len() - 1 {
        lemma_no_queue_hits(ops.drop_last(), a, i);
    }
}

/// Where no beat goes to a word, all of them carry anything.
proof fn lemma_nothing_carries(m: Axi3MasterView, r: Axi3RamView, a: u64, v: Seq<u64>)
    requires
        writes_linked(m, r),
        pending(m, a) == 0,
    ensures
        carries(m, a, v),
{
    assert forall|i: int| 0 <= i < m.active.len() implies op_carries(
        (#[trigger] m.active[i]).op,
        m.active[i].beat,
        a,
        v,
    ) by {
        lemma_no_work_hits(m.active, a, i);
        lemma_no_hits(m.active[i].op, m.active[i].beat as nat, a);
    }
    if let Some(w) = m.cur_aw {
        lemma_no_hits(w.op, 0, a);
    }
    assert forall|i: int| 0 <= i < m.w_queue.len() implies op_carries(
        #[trigger] m.w_queue[i],
        0,
        a,
        v,
    ) by {
        lemma_no_queue_hits(m.w_queue, a, i);
        lemma_no_hits(m.w_queue[i], 0, a);
    }
}

/// What recording some beats does to an address.
proof fn lemma_noted_all(shadow: ShadowView, beats: Seq<Beat>, a: u64)
    ensures
        ({
            let s = noted_all(shadow, beats);
            &&& s.values.contains_key(a) <==> shadow.values.contains_key(a) || exists|i: int|
                0 <= i < beats.len() && (#[trigger] beats[i]).addr == a
            &&& shadow.repeated.contains(a) ==> s.repeated.contains(a)
            &&& s.values.contains_key(a) && !s.repeated.contains(a) ==> {
                ||| {
                    &&& shadow.values.contains_key(a)
                    &&& s.values[a] == shadow.values[a]
                    &&& forall|i: int| 0 <= i < beats.len() ==> (#[trigger] beats[i]).addr != a
                }
                ||| {
                    &&& !shadow.values.contains_key(a)
                    &&& exists|i: int|
                        {
                            &&& 0 <= i < beats.len()
                            &&& (#[trigger] beats[i]).addr == a
                            &&& beats[i].data == s.values[a]
                            &&& forall|j: int|
                                0 <= j < beats.len() && j != i ==> (#[trigger] beats[j]).addr != a
                        }
                }
            }
        }),
    decreases beats.len(),
{
    if beats.len() > 0 {
        let rest = beats.drop_last();
        let last = beats.len() - 1;
        lemma_noted_all(shadow, rest, a);
        let before = noted_all(shadow, rest);
        let s = noted_all(shadow, beats);
        assert(forall|i: int| 0 <= i < rest.len() ==> rest[i] == beats[i]);
        if beats[last].addr == a {
            assert(s.values.contains_key(a));
            if !before.values.contains_key(a) {
                assert forall|j: int| 0 <= j < last implies (#[trigger] beats[j]).addr != a by {
                    assert(rest[j].addr == beats[j].addr);
                }
            }
        } else {
            if before.values.contains_key(a) {
                if !shadow.values.contains_key(a) {
                    let i = choose|i: int| 0 <= i < rest.len() && (#[trigger] rest[i]).addr == a;
                    assert(beats[i].addr == a);
                    if !before.repeated.contains(a) {
                        let i = choose|i: int|
                            {
                                &&& 0 <= i < rest.len()
                                &&& (#[trigger] rest[i]).addr == a
                                &&& rest[i].data == before.values[a]
                                &&& forall|j: int|
                                    0 <= j < rest.len() && j != i ==> (#[trigger] rest[j]).addr
                                        != a
                            };
                        assert(beats[i].addr == a);
                        assert forall|j: int| 0 <= j < beats.len() && j != i implies (
                        #[trigger] beats[j]).addr != a by {
                            if j < last {
                                assert(rest[j] == beats[j]);
                            }
                        }
                    }
                } else if !before.repeated.contains(a) {
                    assert forall|i: int| 0 <= i < beats.len() implies (#[trigger] beats[i]).addr
                        != a by {
                        if i < last {
                            assert(rest[i] == beats[i]);
                        }
                    }
                }
            } else {
                assert forall|i: int| 0 <= i < beats.len() implies (#[trigger] beats[i]).addr
                    != a by {
                    if i < last {
                        assert(rest[i] == beats[i]);
                    }
                }
            }
        }
    }
}

/// A burst of whole words may be queued and recorded as long as no checked read
/// is pending: each word written once becomes what is recorded.
pub proof fn lemma_recording_keeps_in_step(
    m: Axi3MasterView,
    r: Axi3RamView,
    op: WriteOpView,
    n: Axi3MasterView,
)
    requires
        in_step(m, r),
        agreed(m, r),
        reads_fine(m.reads, false, r.mem),
        whole_write(op, r.mem.width),
        n == (Axi3MasterView {
            shadow: n.shadow,
            traffic_lfsr: n.traffic_lfsr,
            ..m.writing(op)
        }),
        n.shadow == noted_all(m.shadow, beats_of(op)),
    ensures
        in_step(n, r),
        agreed(n, r),
{
    assert(n.w_queue.drop_last() =~= m.w_queue);
    assert(n.live() == m.live());
    assert(writes_linked(n, r));
    lemma_unchecked_is_fine(n.reads, r.mem, writes_done(n), r.mem);
    let beats = beats_of(op);
    assert forall|a: u64| #[trigger] pending(n, a) == pending(m, a) + op_hits(op, 0, a) by {}
    assert forall|a: u64| #[trigger] n.certain().contains_key(a) implies aligned(
        a,
        lane_count(r.mem.width),
    ) == a && becomes(n, r, a, n.shadow.values[a]) by {
        lemma_noted_all(m.shadow, beats, a);
        lemma_queued_word_is_recorded(m, r, op, n, a);
    }
    assert forall|a: u64| !n.shadow.values.contains_key(a) implies #[trigger] pending(n, a)
        == 0 by {
        lemma_noted_all(m.shadow, beats, a);
        assert(pending(m, a) == 0);
        assert forall|j: u64| 0 <= j <= op.len implies #[trigger] beat_addr_of(op, j) != a by {
            assert(beats[j as int].addr == beat_addr_of(op, j));
        }
        lemma_no_hits(op, 0, a);
    }
}

proof fn lemma_queued_word_is_recorded(
    m: Axi3MasterView,
    r: Axi3RamView,
    op: WriteOpView,
    n: Axi3MasterView,
    a: u64,
)
    requires
        in_step(m, r),
        agreed(m, r),
        whole_write(op, r.mem.width),
        n == (Axi3MasterView {
            shadow: n.shadow,
            traffic_lfsr: n.traffic_lfsr,
            ..m.writing(op)
        }),
        n.shadow == noted_all(m.shadow, beats_of(op)),
        n.shadow.values.contains_key(a) && !n.shadow.repeated.contains(a),
    ensures
        aligned(a, lane_count(r.mem.width)) == a,
        becomes(n, r, a, n.shadow.values[a]),
{
    let beats = beats_of(op);
    let v = n.shadow.values[a];
    lemma_noted_all(m.shadow, beats, a);
    assert(n.w_queue.drop_last() =~= m.w_queue);
    assert(pending(n, a) == pending(m, a) + op_hits(op, 0, a));
    if m.shadow.values.contains_key(a) {
        assert(m.certain().contains_key(a));
        assert forall|j: u64| 0 <= j <= op.len implies #[trigger] beat_addr_of(op, j) != a by {
            assert(beats[j as int].addr == beat_addr_of(op, j));
        }
        lemma_no_hits(op, 0, a);
    } else {
        let i = choose|i: int|
            {
                &&& 0 <= i < beats.len()
                &&& (#[trigger] beats[i]).addr == a
                &&& beats[i].data == v
                &&& forall|j: int| 0 <= j < beats.len() && j != i ==> (#[trigger] beats[j]).addr != a
            };
        let k = i as u64;
        assert(beat_addr_of(op, k) == a);
        assert forall|j: u64| 0 <= j <= op.len && j != k implies #[trigger] beat_addr_of(op, j)
            != a by {
            assert(beats[j as int].addr == beat_addr_of(op, j));
        }
        lemma_one_hit(op, 0, k, a);
        assert(pending(m, a) == 0);
        lemma_nothing_carries(m, r, a, v);
        assert(op.data[k as int] == v);
    }
    assert forall|i: int| 0 <= i < n.w_queue.len() implies op_carries(
        #[trigger] n.w_queue[i],
        0,
        a,
        v,
    ) by {
        if i < m.w_queue.len() {
            assert(n.w_queue[i] == m.w_queue[i]);
        } else {
            assert(n.w_queue[i] == op);
        }
    }
}

/// Random burst writes may be queued as long as no checked read is pending: on
/// a bus with a power of two of whole byte lanes, each word written once
/// becomes what the master has recorded, however the beats interleave.
pub proof fn lemma_random_burst_writes_keep_in_step(
    m: Axi3MasterView,
    r: Axi3RamView,
    n: nat,
    span: u64,
    max_len: u64,
    lanes_log: nat,
)
    requires
        in_step(m, r),
        agreed(m, r),
        reads_fine(m.reads, false, r.mem),
        plain_bus(r.mem.width, lanes_log),
        span > 0,
        max_len <= 15,
    ensures
        ({
            let t = m.random_burst_writes(n, span, max_len);
            &&& in_step(t, r)
            &&& agreed(t, r)
            &&& t.reads == m.reads
            &&& t.config == m.config
        }),
    decreases n,
{
    if n > 0 {
        let k = (n - 1) as nat;
        lemma_random_burst_writes_keep_in_step(m, r, k, span, max_len, lanes_log);
        let t = m.random_burst_writes(k, span, max_len);
        let u = m.random_burst_writes(n, span, max_len);
        let width = m.config.width;
        let b = incr_burst(t.traffic_lfsr, t.shadow, span, max_len, width, true);
        let op = b.op(width);
        let x = xorshift(t.traffic_lfsr);
        let y = xorshift(x);
        lemma_aligned_twice(x % span, lane_count(width));
        let drawn = wanted_len(y, b.base, max_len, lane_count(width), span);
        let count = (b.len + 1) as nat;
        lemma_incr_is_noted(y, b, t.shadow, drawn, width, lanes_log, count);
        let beats = beats_of(op);
        assert(beats.take(count as int) =~= beats);
        lemma_clipped_fits(b.base, drawn, lane_count(width), 0);
        lemma_incr_beats_prefix(y, t.shadow, b.base, b.len, width, true, 0, count);
        assert forall|j: u64| j <= op.len implies {
            &&& aligned(#[trigger] beat_addr_of(op, j), lane_count(width)) == beat_addr_of(op, j)
            &&& op.data[j as int].len() == word_count(width)
            &&& masked(op.data[j as int], width) == op.data[j as int]
            &&& op.strb[j as int] == full_strobe(width)
        } by {
            assert(beats[j as int].addr == beat_addr_of(op, j));
            lemma_incr_beats_prefix(y, t.shadow, b.base, b.len, width, true, j as nat, count);
        }
        lemma_recording_keeps_in_step(t, r, op, u);
    }
}

/// Reading back what is recorded may be queued once all writes were sent: every
/// read of a word written once expects what the memory will answer.
pub proof fn lemma_verify_all_keeps_in_step(
    m: Axi3MasterView,
    r: Axi3RamView,
    addrs: Seq<u64>,
    lanes_log: nat,
)
    requires
        in_step(m, r),
        agreed(m, r),
        writes_done(m),
        plain_bus(r.mem.width, lanes_log),
        forall|i: int| 0 <= i < addrs.len() ==> m.certain().contains_key(#[trigger] addrs[i]),
    ensures
        ({
            let n = Axi3MasterView {
                reads: ReadIssueView { queue: m.reads.queue + m.checks(addrs), ..m.reads },
                ..m
            };
            in_step(n, r) && agreed(n, r)
        }),
{
    let e = ReadIssueView { queue: m.reads.queue + m.checks(addrs), ..m.reads };
    let n = Axi3MasterView { reads: e, ..m };
    let lanes = lane_count(r.mem.width);
    lemma_twos_of_pow2(lanes, lanes_log);
    lemma_shift_is_pow2(lanes_log as u64);
    assert forall|i: int| 0 <= i < e.queue.len() implies (#[trigger] e.queue[i]).len < u64::MAX
        && fine(e.queue[i], true, r.mem) by {
        if i < m.reads.queue.len() {
            assert(e.queue[i] == m.reads.queue[i]);
        } else {
            let a = addrs[i - m.reads.queue.len()];
            assert(m.certain().contains_key(a));
            assert(pending(m, a) == 0);
            assert(e.queue[i] == m.checks(addrs)[i - m.reads.queue.len()]);
            assert(0 * lanes == 0);
            assert(beat(a, lanes, INCR, 0, 0) == a);
        }
    }
    lemma_writes_alone(m, r, n, r);
    assert forall|a: u64| #[trigger] pending(n, a) == pending(m, a) by {}
    assert(n.certain() == m.certain());
}

/// The master and the memory after a run of cycles without reset.
pub open spec fn run_pair(
    m: Axi3MasterView,
    r: Axi3RamView,
    cycles: Seq<(Axi3MasterPorts, Axi3SlavePorts)>,
) -> (Axi3MasterView, Axi3RamView)
    decreases cycles.len(),
{
    if cycles.len() == 0 {
        (m, r)
    } else {
        let (n, t) = run_pair(m, r, cycles.drop_last());
        let (p, q) = cycles.last();
        (n.clocked(false, p), t.clocked(false, q))
    }
}

/// Whether in each cycle of a run the ports show what the other side drives.
pub open spec fn all_wired(
    m: Axi3MasterView,
    r: Axi3RamView,
    cycles: Seq<(Axi3MasterPorts, Axi3SlavePorts)>,
) -> bool
    decreases cycles.len(),
{
    if cycles.len() == 0 {
        true
    } else {
        let (n, t) = run_pair(m, r, cycles.drop_last());
        let (p, q) = cycles.last();
        all_wired(m, r, cycles.drop_last()) && wired(n, t, p, q)
    }
}

/// What the master reports in a run of cycles.
pub open spec fn reported(
    m: Axi3MasterView,
    r: Axi3RamView,
    cycles: Seq<(Axi3MasterPorts, Axi3SlavePorts)>,
) -> Seq<MasterFault>
    decreases cycles.len(),
{
    if cycles.len() == 0 {
        seq![]
    } else {
        let (n, t) = run_pair(m, r, cycles.drop_last());
        let (p, q) = cycles.last();
        reported(m, r, cycles.drop_last()) + n.faults(false, p)
    }
}

/// Checked traffic checks out: a master that builds reports nothing on the bus
/// of a memory, in any run of cycles and under every backpressure, however the
/// beats of its writes and reads interleave. Once its writes are sent, a word
/// that one beat goes to holds what that beat carries.
pub proof fn lemma_checked_traffic_checks_out(
    m: Axi3MasterView,
    r: Axi3RamView,
    cycles: Seq<(Axi3MasterPorts, Axi3SlavePorts)>,
    awaddr: u32,
    araddr: u32,
)
    requires
        in_step(m, r),
        all_wired(m, r, cycles),
        m.config.error("axi3_master", awaddr, araddr) is None,
    ensures
        reported(m, r, cycles) == Seq::<MasterFault>::empty(),
        ({
            let (n, t) = run_pair(m, r, cycles);
            &&& in_step(n, t)
            &&& agreed(m, r) ==> agreed(n, t)
            &&& writes_done(n) ==> forall|a: u64, v: Seq<u64>|
                aligned(a, lane_count(r.mem.width)) == a && #[trigger] becomes(m, r, a, v)
                    ==> t.mem.at(a) == v
        }),
{
    lemma_run_keeps_in_step(m, r, cycles, awaddr, araddr);
    let (n, t) = run_pair(m, r, cycles);
    if agreed(m, r) {
        assert(n.certain() == m.certain());
        assert forall|a: u64| #[trigger] n.certain().contains_key(a) implies aligned(
            a,
            lane_count(t.mem.width),
        ) == a && becomes(n, t, a, n.shadow.values[a]) by {
            assert(m.certain().contains_key(a));
        }
        assert forall|a: u64| !n.shadow.values.contains_key(a) implies #[trigger] pending(n, a)
            == 0 by {
            assert(pending(m, a) == 0);
        }
    }
    if writes_done(n) {
        assert forall|a: u64, v: Seq<u64>|
            aligned(a, lane_count(r.mem.width)) == a && #[trigger] becomes(
                m,
                r,
                a,
                v,
            ) implies t.mem.at(a) == v by {
            assert(becomes(n, t, a, v));
            assert(pending(n, a) == 0);
        }
    }
}

proof fn lemma_run_keeps_in_step(
    m: Axi3MasterView,
    r: Axi3RamView,
    cycles: Seq<(Axi3MasterPorts, Axi3SlavePorts)>,
    awaddr: u32,
    araddr: u32,
)
    requires
        in_step(m, r),
        all_wired(m, r, cycles),
        m.config.error("axi3_master", awaddr, araddr) is None,
    ensures
        reported(m, r, cycles) == Seq::<MasterFault>::empty(),
        ({
            let (n, t) = run_pair(m, r, cycles);
            &&& in_step(n, t)
            &&& same_end(m, r, n, t)
            &&& no_more_hits(m, n)
            &&& n.config == m.config && n.shadow == m.shadow && t.mem.width == r.mem.width
        }),
    decreases cycles.len(),
{
    if cycles.len() > 0 {
        let before = cycles.drop_last();
        lemma_run_keeps_in_step(m, r, before, awaddr, araddr);
        let (n, t) = run_pair(m, r, before);
        let (p, q) = cycles.last();
        lemma_cycle_keeps_in_step(n, t, p, q, awaddr, araddr);
        lemma_same_end_joins(m, r, n, t, n.clocked(false, p), t.clocked(false, q));
        assert(reported(m, r, cycles) =~= Seq::<MasterFault>::empty());
    }
}

} // verus!
