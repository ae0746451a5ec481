//! What a master and a memory do together: bursts land in order and checked
//! reads check out.

use crate::axi4::burst::{beat, INCR};
use crate::axi4::generate::{incr_burst, lemma_clipped_fits, wanted_len};
use crate::axi4::issue::{
    awaited, lemma_ids_suffice, response_faults, MasterConfig, ReadInputsView, ReadIssueView,
};
use crate::axi4::laws::{
    applied, applied_all, lemma_incr_applies, lemma_incr_beats_prefix, lemma_plan_applies,
    lemma_plan_beats_prefix, lemma_twos_of_pow2, offers_read, offers_write, plain_bus,
    read_ids_distinct, write_ids_distinct,
};
use crate::axi4::master::{Axi4MasterPorts, Axi4MasterView};
use crate::axi4::narrow::{planned, random_burst};
use crate::axi4::ops::{beat_or, lemma_twos_bound, twos, MasterFault, ReadOpView, WriteOpView};
use crate::axi4::ram::{Axi4RamView, Axi4SlavePorts};
use crate::axi4::slave::{
    advanced, front_answer, joined, offers_front, taken, Answer, Burst, RamConfig, ReadSideView,
};
use crate::common::lanes::{
    lane_count, lemma_aligned_twice, lemma_lanes_fit, lemma_merged_len, lemma_shift_is_pow2,
};
use crate::common::memory::{lemma_memory_stays_clean, MemoryView};
use crate::common::random::{stalls, xorshift};
use crate::common::resp::OKAY;
use crate::common::stimulus::full_strobe;
use crate::common::words::{extended, zeros};
use crate::value::{word_count, ValueView};
use vstd::prelude::*;

verus! {

/// Whether each port of a master and a memory shows what the other drives.
pub open spec fn wired(
    m: Axi4MasterView,
    r: Axi4RamView,
    p: Axi4MasterPorts,
    q: Axi4SlavePorts,
) -> bool {
    &&& p.awready@.truth() == r.aw_ready
    &&& p.wready@.truth() == r.w_ready
    &&& p.bvalid@.truth() == r.b_valid
    &&& p.bresp == front_answer(r.b_queue).resp
    &&& p.bid == front_answer(r.b_queue).id
    &&& p.arready@.truth() == r.reads.ar_ready
    &&& p.rvalid@.truth() == r.reads.r_valid
    &&& p.rdata@ == r.reads.r_data
    &&& p.rid == r.reads.r_id
    &&& p.rlast@.truth() == (r.reads.r_valid && r.reads.r_last)
    &&& q.awvalid@.truth() == m.aw_valid
    &&& q.awaddr == m.cur_w.addr
    &&& q.awlen == m.cur_w.len
    &&& q.awsize == m.cur_w.size_log
    &&& q.awburst == m.cur_w.kind
    &&& q.awid == m.w_id
    &&& q.awlock == m.cur_w.lock
    &&& q.wvalid@.truth() == m.w_valid
    &&& q.wdata@ == beat_or(m.cur_w.data, m.w_beat, zeros(word_count(m.config.width)))
    &&& q.wstrb@ == beat_or(m.cur_w.strb, m.w_beat, full_strobe(m.config.width))
    &&& q.wlast@.truth() == (m.w_beat == m.cur_w.len)
    &&& q.bready@.truth() == m.b_ready
    &&& q.arvalid@.truth() == m.reads.ar_valid
    &&& q.araddr == m.reads.cur.addr
    &&& q.arlen == m.reads.cur.len
    &&& q.arsize == m.reads.cur.size_log
    &&& q.arburst == m.reads.cur.kind
    &&& q.arid == m.reads.id
    &&& q.arlock == m.reads.cur.lock
    &&& q.rready@.truth() == m.reads.r_ready
}

/// A write burst that is not exclusive and has data for each of its beats.
pub open spec fn plain_write(op: WriteOpView) -> bool {
    &&& op.lock == 0
    &&& op.len < u64::MAX
    &&& op.data.len() == op.len + 1
    &&& op.strb.len() == op.len + 1
}

/// The memory after the beats of a write burst from `k` on.
pub open spec fn rest_applied(m: MemoryView, op: WriteOpView, k: nat) -> MemoryView
    decreases op.len + 1 - k,
{
    if k > op.len {
        m
    } else {
        rest_applied(
            m.written(
                beat(op.addr, 1u64 << op.size_log, op.kind, op.len, k as u64) as u64,
                op.data[k as int],
                op.strb[k as int],
            ),
            op,
            k + 1,
        )
    }
}

proof fn lemma_rest_is_applied(m: MemoryView, op: WriteOpView, k: nat)
    requires
        k <= op.len + 1,
    ensures
        rest_applied(applied(m, op, k), op, k) == applied(m, op, (op.len + 1) as nat),
    decreases op.len + 1 - k,
{
    if k <= op.len {
        lemma_rest_is_applied(m, op, k + 1);
    }
}

proof fn lemma_first_is_applied_first(m: MemoryView, ops: Seq<WriteOpView>)
    requires
        ops.len() > 0,
    ensures
        applied_all(m, ops) == applied_all(
            applied(m, ops[0], (ops[0].len + 1) as nat),
            ops.drop_first(),
        ),
    decreases ops.len(),
{
    if ops.len() == 1 {
        assert(ops.drop_last() =~= seq![]);
        assert(ops.drop_first() =~= seq![]);
        assert(applied_all(m, ops.drop_last()) == m);
    } else {
        lemma_first_is_applied_first(m, ops.drop_last());
        assert(ops.drop_last().drop_first() =~= ops.drop_first().drop_last());
    }
}

/// Whether the beats of a write are being sent.
pub open spec fn streaming(m: Axi4MasterView) -> bool {
    m.w_active && m.w_streaming
}

/// The memory once everything queued and being sent has landed.
pub open spec fn ends(m: Axi4MasterView, r: Axi4RamView) -> MemoryView {
    applied_all(
        if streaming(m) {
            rest_applied(r.mem, m.cur_w, m.w_beat as nat)
        } else if m.w_active {
            applied(r.mem, m.cur_w, (m.cur_w.len + 1) as nat)
        } else {
            r.mem
        },
        m.w_queue,
    )
}

/// The burst that a memory holds while a master sends its beats.
pub open spec fn sent_burst(m: Axi4MasterView) -> Burst {
    Burst {
        addr: m.cur_w.addr,
        len: m.cur_w.len,
        size: 1u64 << m.cur_w.size_log,
        kind: m.cur_w.kind,
        id: m.w_id,
        exclusive: false,
        beat: m.w_beat,
    }
}

/// Whether responses have different IDs.
pub open spec fn ids_differ(q: Seq<Answer>) -> bool {
    forall|i: int, j: int| 0 <= i < j < q.len() ==> (#[trigger] q[i]).id != (#[trigger] q[j]).id
}

/// A memory that answers every access with OKAY.
pub open spec fn answers_okay(r: Axi4RamView) -> bool {
    r.mem.size is None && r.mem.errors == Map::<u64, u64>::empty()
}

/// Whether master and memory agree on the writes in flight.
pub open spec fn writes_linked(m: Axi4MasterView, r: Axi4RamView) -> bool {
    &&& answers_okay(r)
    &&& write_ids_distinct(m)
    &&& m.w_active ==> plain_write(m.cur_w)
    &&& forall|i: int| 0 <= i < m.w_queue.len() ==> plain_write(#[trigger] m.w_queue[i])
    &&& r.w_cur == (if streaming(m) {
        Some(sent_burst(m))
    } else {
        None
    })
    &&& streaming(m) ==> m.w_beat <= m.cur_w.len && r.w_commit && r.w_resp == OKAY
    &&& ids_differ(r.b_queue)
    &&& forall|i: int|
        0 <= i < r.b_queue.len() ==> (#[trigger] r.b_queue[i]).resp == OKAY
            && m.b_out.contains_key(r.b_queue[i].id)
}

/// Whether master and memory offer what they hold, and the memory takes nothing
/// that it has no room for.
pub open spec fn writes_guarded(m: Axi4MasterView, r: Axi4RamView) -> bool {
    &&& offers_write(m)
    &&& r.b_valid == (r.b_queue.len() > 0)
    &&& r.aw_ready ==> r.w_cur is None
    &&& r.w_ready ==> r.w_cur is Some
}

proof fn lemma_write_handover(
    m: Axi4MasterView,
    r: Axi4RamView,
    p: Axi4MasterPorts,
    q: Axi4SlavePorts,
)
    requires
        writes_linked(m, r),
        writes_guarded(m, r),
        wired(m, r, p, q),
    ensures
        ({
            let n = m.write_moved(p);
            let t = r.after_aw(q).after_w(q, r.w_ready);
            &&& writes_linked(n, t)
            &&& ends(n, t) == ends(m, r)
            &&& !m.w_active ==> t.mem == r.mem && !n.w_active
            &&& n.w_queue == m.w_queue
            &&& r.b_queue.len() > 0 ==> t.b_queue.len() > 0 && t.b_queue[0] == r.b_queue[0]
        }),
{
    let n = m.write_moved(p);
    let t = r.after_aw(q).after_w(q, r.w_ready);
    if m.aw_fires(p) {
        lemma_rest_is_applied(r.mem, m.cur_w, 0);
        assert(write_ids_distinct(n));
        assert(writes_linked(n, t));
        assert(ends(n, t) == ends(m, r));
    } else if m.w_fires(p) {
        let b = sent_burst(m);
        let op = m.cur_w;
        let k = m.w_beat as nat;
        assert(r.w_cur == Some(b));
        assert(b.at() == beat(op.addr, 1u64 << op.size_log, op.kind, op.len, k as u64));
        assert(t == r.beat_written(b, q.wdata@, q.wstrb@, m.w_beat == op.len));
        assert(t.mem == r.mem.written(b.at() as u64, op.data[k as int], op.strb[k as int]));
        assert(rest_applied(r.mem, op, k) == rest_applied(t.mem, op, k + 1));
        assert(write_ids_distinct(n));
        assert(writes_linked(n, t));
        if m.w_beat == op.len {
            assert(rest_applied(t.mem, op, k + 1) == t.mem);
        }
        assert(ends(n, t) == ends(m, r));
    } else {
        assert(n == m);
        assert(t == r);
    }
}

proof fn lemma_write_response(
    m: Axi4MasterView,
    r: Axi4RamView,
    fire: bool,
    p: Axi4MasterPorts,
)
    requires
        writes_linked(m, r),
        fire ==> r.b_queue.len() > 0 && p.bid == r.b_queue[0].id && p.bresp == r.b_queue[0].resp,
    ensures
        ({
            let n = m.b_received(fire, p);
            let t = Axi4RamView { b_queue: taken(r.b_queue, fire), ..r };
            &&& writes_linked(n, t)
            &&& ends(n, t) == ends(m, r)
            &&& fire ==> response_faults(p.bid, awaited(m.b_out, p.bid), p.bresp) == Seq::<
                MasterFault,
            >::empty()
        }),
{
    let n = m.b_received(fire, p);
    let t = Axi4RamView { b_queue: taken(r.b_queue, fire), ..r };
    if fire {
        assert(write_ids_distinct(n));
        assert forall|i: int| 0 <= i < t.b_queue.len() implies (#[trigger] t.b_queue[i]).resp
            == OKAY && n.b_out.contains_key(t.b_queue[i].id) by {
            assert(t.b_queue[i] == r.b_queue[i + 1]);
            assert(r.b_queue[0].id != r.b_queue[i + 1].id);
        }
        assert(ids_differ(t.b_queue)) by {
            assert forall|i: int, j: int| 0 <= i < j < t.b_queue.len() implies (
            #[trigger] t.b_queue[i]).id != (#[trigger] t.b_queue[j]).id by {
                assert(t.b_queue[i] == r.b_queue[i + 1]);
                assert(t.b_queue[j] == r.b_queue[j + 1]);
            }
        }
    }
}

proof fn lemma_write_issue(m: Axi4MasterView, r: Axi4RamView, awaddr: u32, araddr: u32)
    requires
        writes_linked(m, r),
        m.config.error("axi4_master", awaddr, araddr) is None,
    ensures
        writes_linked(m.write_issued(), r),
        ends(m.write_issued(), r) == ends(m, r),
{
    let n = m.write_issued();
    if !m.w_active && m.b_out.len() < m.config.max_spec() && m.w_queue.len() > 0 {
        lemma_ids_suffice(m.config, "axi4_master", awaddr, araddr, m.b_out.dom());
        lemma_first_is_applied_first(r.mem, m.w_queue);
        assert(plain_write(m.w_queue[0]));
        assert forall|i: int| 0 <= i < n.w_queue.len() implies plain_write(
            #[trigger] n.w_queue[i],
        ) by {
            assert(n.w_queue[i] == m.w_queue[i + 1]);
        }
    }
}

/// The write half of a cycle: nothing is reported, and what everything comes to
/// stays the same.
proof fn lemma_writes_move(
    m: Axi4MasterView,
    r: Axi4RamView,
    p: Axi4MasterPorts,
    q: Axi4SlavePorts,
    stall: bool,
    late: bool,
    awaddr: u32,
    araddr: u32,
)
    requires
        writes_linked(m, r),
        writes_guarded(m, r),
        wired(m, r, p, q),
        m.config.error("axi4_master", awaddr, araddr) is None,
    ensures
        ({
            let n = m.write_cycle(p, stall);
            let t = r.write_cycle(q, late);
            &&& m.write_faults(p) == Seq::<MasterFault>::empty()
            &&& writes_linked(n, t)
            &&& writes_guarded(n, t)
            &&& ends(n, t) == ends(m, r)
            &&& !m.w_active && m.w_queue.len() == 0 ==> t.mem == r.mem && !n.w_active
                && n.w_queue.len() == 0
        }),
{
    let fire = m.b_fires(p);
    let m1 = m.write_moved(p);
    let r1 = r.after_aw(q).after_w(q, r.w_ready);
    lemma_write_handover(m, r, p, q);
    let m2 = m1.b_received(fire, p);
    let r2 = Axi4RamView { b_queue: taken(r1.b_queue, fire), ..r1 };
    lemma_write_response(m1, r1, fire, p);
    let m3 = m2.write_issued();
    lemma_write_issue(m2, r2, awaddr, araddr);
    let n = m.write_cycle(p, stall);
    let t = r.write_cycle(q, late);
    assert(t.b_queue == r2.b_queue && t.mem == r2.mem && t.w_cur == r2.w_cur);
    assert(writes_linked(n, t));
    assert(ends(n, t) == ends(m3, r2));
}

/// Whether a read that a memory runs is one that the master awaits.
pub open spec fn runs(op: ReadOpView, b: Burst) -> bool {
    &&& b.addr == op.addr
    &&& b.len == op.len
    &&& b.size == 1u64 << op.size_log
    &&& b.kind == op.kind
    &&& b.beat == op.beat
    &&& b.beat <= b.len < u64::MAX
}

/// Whether a read, if it is checked, comes after all writes and expects what
/// the memory holds.
pub open spec fn fine(op: ReadOpView, done: bool, mem: MemoryView) -> bool {
    op.expect matches Some(want) ==> {
        &&& done
        &&& want.len() == op.len + 1
        &&& forall|k: u64|
            k <= op.len ==> #[trigger] want[k as int] == mem.at(
                beat(op.addr, 1u64 << op.size_log, op.kind, op.len, k) as u64,
            )
    }
}

/// Whether all reads of an engine are fine and can be counted.
pub open spec fn reads_fine(e: ReadIssueView, done: bool, mem: MemoryView) -> bool {
    &&& forall|i: int|
        0 <= i < e.queue.len() ==> (#[trigger] e.queue[i]).len < u64::MAX && fine(
            e.queue[i],
            done,
            mem,
        )
    &&& e.active ==> e.cur.len < u64::MAX && fine(e.cur, done, mem)
    &&& forall|id: u64| #[trigger] e.out.contains_key(id) ==> fine(e.out[id], done, mem)
}

/// Whether the reads that a memory runs are those that the master awaits, under
/// different IDs.
pub open spec fn reads_linked(e: ReadIssueView, s: ReadSideView, max: u64) -> bool {
    &&& offers_read(e)
    &&& read_ids_distinct(e, max)
    &&& offers_front(s)
    &&& forall|i: int|
        0 <= i < s.reads.len() ==> e.out.contains_key((#[trigger] s.reads[i]).id) && runs(
            e.out[s.reads[i].id],
            s.reads[i],
        )
    &&& forall|i: int, j: int|
        0 <= i < j < s.reads.len() ==> (#[trigger] s.reads[i]).id != (#[trigger] s.reads[j]).id
}

/// Whether the beat offered is what the memory holds.
pub open spec fn shows_memory(s: ReadSideView, mem: MemoryView) -> bool {
    s.r_valid ==> s.r_data == mem.at(s.reads[0].at() as u64)
}

/// The read side of a cycle as a master sees it.
pub open spec fn seen_reads(s: ReadSideView) -> ReadInputsView {
    ReadInputsView {
        arready: s.ar_ready,
        rvalid: s.r_valid,
        rid: s.r_id,
        rdata: s.r_data,
        rlast: s.r_valid && s.r_last,
    }
}

/// The read that a memory takes in a cycle.
pub open spec fn offered_read(e: ReadIssueView, s: ReadSideView, exclusive: bool) -> Option<
    Burst,
> {
    if e.ar_valid && s.ar_ready {
        Some(
            Burst {
                addr: e.cur.addr,
                len: e.cur.len,
                size: 1u64 << e.cur.size_log,
                kind: e.cur.kind,
                id: e.id,
                exclusive,
                beat: 0,
            },
        )
    } else {
        None
    }
}

proof fn lemma_read_taken(
    e: ReadIssueView,
    s: ReadSideView,
    exclusive: bool,
    max: u64,
    done: bool,
    mem: MemoryView,
)
    requires
        reads_linked(e, s, max),
        reads_fine(e, done, mem),
    ensures
        ({
            let f = e.ar_taken(s.ar_ready);
            let all = joined(s.reads, offered_read(e, s, exclusive));
            &&& read_ids_distinct(f, max)
            &&& reads_fine(f, done, mem)
            &&& reads_match(f, all)
            &&& s.reads.len() > 0 ==> all[0] == s.reads[0]
        }),
{
    let f = e.ar_taken(s.ar_ready);
    let all = joined(s.reads, offered_read(e, s, exclusive));
    assert(read_ids_distinct(f, max));
    assert forall|i: int| 0 <= i < all.len() implies f.out.contains_key((#[trigger] all[i]).id)
        && runs(f.out[all[i].id], all[i]) by {
        if i < s.reads.len() {
            assert(all[i] == s.reads[i]);
        }
    }
    assert forall|i: int, j: int| 0 <= i < j < all.len() implies (#[trigger] all[i]).id != (
    #[trigger] all[j]).id by {
        assert(all[i] == s.reads[i]);
        if j < s.reads.len() {
            assert(all[j] == s.reads[j]);
        }
    }
}

/// Whether running reads are those that are awaited, under different IDs.
spec fn reads_match(e: ReadIssueView, all: Seq<Burst>) -> bool {
    &&& forall|i: int|
        0 <= i < all.len() ==> e.out.contains_key((#[trigger] all[i]).id) && runs(
            e.out[all[i].id],
            all[i],
        )
    &&& forall|i: int, j: int|
        0 <= i < j < all.len() ==> (#[trigger] all[i]).id != (#[trigger] all[j]).id
}

proof fn lemma_beat_received(
    e: ReadIssueView,
    all: Seq<Burst>,
    max: u64,
    done: bool,
    mem: MemoryView,
    data: Seq<u64>,
    last: bool,
)
    requires
        read_ids_distinct(e, max),
        reads_fine(e, done, mem),
        reads_match(e, all),
        all.len() > 0,
        data == mem.at(all[0].at() as u64),
        last == (all[0].beat == all[0].len),
    ensures
        ({
            let f = e.r_received(all[0].id, data);
            &&& read_ids_distinct(f, max)
            &&& reads_fine(f, done, mem)
            &&& reads_match(f, advanced(all, true))
            &&& e.r_faults(all[0].id, data, last) == Seq::<MasterFault>::empty()
        }),
{
    let b = all[0];
    let op = e.out[b.id];
    let f = e.r_received(b.id, data);
    let next = advanced(all, true);
    assert(runs(op, b));
    assert(read_ids_distinct(f, max));
    assert(fine(op, done, mem));
    let moved = ReadOpView { beat: (op.beat + 1) as u64, ..op };
    assert(fine(moved, done, mem));
    assert forall|i: int| 0 <= i < next.len() implies f.out.contains_key((#[trigger] next[i]).id)
        && runs(f.out[next[i].id], next[i]) by {
        if i < all.len() - 1 {
            assert(next[i] == all[i + 1]);
            assert(all[0].id != all[i + 1].id);
        } else {
            assert(next[i] == b.next());
        }
    }
    assert forall|i: int, j: int| 0 <= i < j < next.len() implies (#[trigger] next[i]).id != (
    #[trigger] next[j]).id by {
        assert(next[i] == all[i + 1]);
        if j < all.len() - 1 {
            assert(next[j] == all[j + 1]);
        } else {
            assert(next[j] == b.next());
            assert(all[0].id != all[i + 1].id);
        }
    }
    if let Some(want) = op.expect {
        assert(want[op.beat as int] == data);
    }
    assert(e.r_faults(b.id, data, last) =~= Seq::<MasterFault>::empty());
}

/// The read half of a cycle: nothing is reported, and the reads stay linked.
pub proof fn lemma_reads_move(
    e: ReadIssueView,
    s: ReadSideView,
    exclusive: bool,
    config: MasterConfig,
    component: &'static str,
    done: bool,
    mem: MemoryView,
    later: MemoryView,
    ram_max: u64,
    stall: bool,
    late: bool,
    awaddr: u32,
    araddr: u32,
)
    requires
        config.error(component, awaddr, araddr) is None,
        reads_linked(e, s, config.max_spec()),
        reads_fine(e, done, mem),
        shows_memory(s, mem),
    ensures
        ({
            let f = e.clocked(seen_reads(s), config, stall);
            let t = s.clocked(later, offered_read(e, s, exclusive), e.r_ready, ram_max, late);
            &&& e.faults(seen_reads(s)) == Seq::<MasterFault>::empty()
            &&& reads_linked(f, t, config.max_spec())
            &&& reads_fine(f, done, mem)
            &&& shows_memory(t, later)
        }),
{
    let max = config.max_spec();
    let e1 = e.ar_taken(s.ar_ready);
    let all = joined(s.reads, offered_read(e, s, exclusive));
    lemma_read_taken(e, s, exclusive, max, done, mem);
    let fire = e.r_ready && s.r_valid;
    let e2 = if fire {
        e1.r_received(s.r_id, s.r_data)
    } else {
        e1
    };
    if fire {
        lemma_beat_received(e1, all, max, done, mem, s.r_data, s.r_last);
    }
    let e3 = e2.issued(max, config.id_mask_spec());
    if !e2.active && e2.out.len() < max && e2.queue.len() > 0 {
        lemma_ids_suffice(config, component, awaddr, araddr, e2.out.dom());
        assert forall|i: int| 0 <= i < e3.queue.len() implies (#[trigger] e3.queue[i]).len
            < u64::MAX && fine(e3.queue[i], done, mem) by {
            assert(e3.queue[i] == e2.queue[i + 1]);
        }
        assert(e3.cur == e2.queue[0]);
    }
    assert(reads_fine(e3, done, mem));
    assert(read_ids_distinct(e3, max));
    let f = e.clocked(seen_reads(s), config, stall);
    let t = s.clocked(later, offered_read(e, s, exclusive), e.r_ready, ram_max, late);
    assert(t.reads == advanced(all, fire));
    assert(reads_match(f, t.reads));
}

/// Whether every word of a memory stands at an aligned address.
pub open spec fn keys_aligned(m: MemoryView) -> bool {
    forall|a: u64| #[trigger] m.words.contains_key(a) ==> m.key(a) == a
}

/// A strobed write keeps the words of a memory whole.
pub proof fn lemma_written_stays_whole(m: MemoryView, addr: u64, data: Seq<u64>, strb: Seq<u64>)
    requires
        m.wf(),
    ensures
        ({
            let t = m.written(addr, data, strb);
            &&& t.wf()
            &&& t.width == m.width && t.size == m.size && t.errors == m.errors
            &&& keys_aligned(m) ==> keys_aligned(t)
            &&& m.clean() && m.width > 0 && m.width % 8 == 0 ==> t.clean()
        }),
{
    lemma_lanes_fit(m.width);
    lemma_merged_len(m.at(addr), data, strb, lane_count(m.width) as nat);
    lemma_aligned_twice(addr, lane_count(m.width));
    if m.clean() && m.width > 0 && m.width % 8 == 0 {
        lemma_memory_stays_clean(m, addr, data, strb, ValueView::Unit, 0);
    }
}

/// Whether everything queued has been sent.
pub open spec fn writes_done(m: Axi4MasterView) -> bool {
    !m.w_active && m.w_queue.len() == 0
}

/// Whether master and memory are in step: they agree on what is in flight, and
/// every checked read expects what the memory will answer.
pub open spec fn in_step(m: Axi4MasterView, r: Axi4RamView) -> bool {
    &&& r.wf()
    &&& m.config.width == r.config.width
    &&& writes_linked(m, r)
    &&& writes_guarded(m, r)
    &&& reads_linked(m.reads, r.reads, m.config.max_spec())
    &&& reads_fine(m.reads, writes_done(m), r.mem)
    &&& shows_memory(r.reads, r.mem)
    &&& r.reads.r_data.len() == word_count(r.mem.width)
}

proof fn lemma_write_half_leaves_reads(
    m: Axi4MasterView,
    r: Axi4RamView,
    p: Axi4MasterPorts,
    q: Axi4SlavePorts,
    stall: bool,
    late: bool,
)
    requires
        r.wf(),
    ensures
        ({
            let n = m.drawn().write_cycle(p, stall);
            let t = r.drawn().write_cycle(q, late);
            &&& n.reads == m.reads && n.config == m.config && n.shadow == m.shadow
            &&& t.reads == r.reads && t.config == r.config
            &&& t.wf() && t.mem.width == r.mem.width
        }),
{
    let s = r.drawn().after_aw(q);
    if let Some(b) = s.w_cur {
        lemma_written_stays_whole(s.mem, b.at() as u64, q.wdata@, q.wstrb@);
    }
}

/// What is drawn, read or reserved does not matter to the writes.
proof fn lemma_writes_alone(
    m: Axi4MasterView,
    r: Axi4RamView,
    n: Axi4MasterView,
    t: Axi4RamView,
)
    requires
        writes_linked(m, r),
        writes_guarded(m, r),
        n == (Axi4MasterView { reads: n.reads, lfsr: n.lfsr, ..m }),
        t == (Axi4RamView { reads: t.reads, lfsr: t.lfsr, reserved: t.reserved, ..r }),
    ensures
        writes_linked(n, t),
        writes_guarded(n, t),
        ends(n, t) == ends(m, r),
{
}

proof fn lemma_write_half(
    m: Axi4MasterView,
    r: Axi4RamView,
    p: Axi4MasterPorts,
    q: Axi4SlavePorts,
    awaddr: u32,
    araddr: u32,
)
    requires
        r.wf(),
        writes_linked(m, r),
        writes_guarded(m, r),
        wired(m, r, p, q),
        m.config.error("axi4_master", awaddr, araddr) is None,
    ensures
        ({
            let n = m.clocked(false, p);
            let t = r.clocked(false, q);
            &&& m.write_faults(p) == Seq::<MasterFault>::empty()
            &&& writes_linked(n, t)
            &&& writes_guarded(n, t)
            &&& ends(n, t) == ends(m, r)
            &&& n.config == m.config && n.shadow == m.shadow
            &&& t.config == r.config && t.wf() && t.mem.width == r.mem.width
            &&& writes_done(m) ==> writes_done(n) && t.mem == r.mem
        }),
{
    let stall = stalls(m.lfsr, m.config.stall);
    let late = stalls(r.lfsr, r.config.stall);
    let m0 = m.drawn();
    let r0 = r.drawn();
    lemma_writes_alone(m, r, m0, r0);
    lemma_writes_move(m0, r0, p, q, stall, late, awaddr, araddr);
    lemma_write_half_leaves_reads(m, r, p, q, stall, late);
    let m1 = m0.write_cycle(p, stall);
    let r1 = r0.write_cycle(q, late);
    lemma_writes_alone(m1, r1, m.clocked(false, p), r.clocked(false, q));
    assert(m.write_faults(p) == m0.write_faults(p)) by {
        assert(m0.write_moved(p).b_out == m.write_moved(p).b_out);
    }
}

proof fn lemma_read_half(
    m: Axi4MasterView,
    r: Axi4RamView,
    p: Axi4MasterPorts,
    q: Axi4SlavePorts,
    awaddr: u32,
    araddr: u32,
)
    requires
        in_step(m, r),
        wired(m, r, p, q),
        m.config.error("axi4_master", awaddr, araddr) is None,
    ensures
        ({
            let n = m.clocked(false, p);
            let t = r.clocked(false, q);
            &&& m.reads.faults(p.read_side(m.config.width)) == Seq::<MasterFault>::empty()
            &&& reads_linked(n.reads, t.reads, m.config.max_spec())
            &&& reads_fine(n.reads, writes_done(m), r.mem)
            &&& shows_memory(t.reads, t.mem)
            &&& t.wf() ==> t.reads.r_data.len() == word_count(t.mem.width)
        }),
{
    let stall = stalls(m.lfsr, m.config.stall);
    let late = stalls(r.lfsr, r.config.stall);
    let r1 = r.drawn().write_cycle(q, late);
    lemma_write_half_leaves_reads(m, r, p, q, stall, late);
    assert(p.read_side(m.config.width) == seen_reads(r.reads)) by {
        assert(extended(p.rdata@, word_count(m.config.width)) =~= r.reads.r_data);
    }
    lemma_reads_move(
        m.reads,
        r.reads,
        m.reads.cur.lock != 0,
        m.config,
        "axi4_master",
        writes_done(m),
        r.mem,
        r1.mem,
        r.config.max_spec(),
        stall,
        late,
        awaddr,
        araddr,
    );
    assert(r1.ar_taken(q) == offered_read(m.reads, r.reads, m.reads.cur.lock != 0));
}

/// Master and memory stay in step: in a cycle in which each sees what the other
/// drives, the master has nothing to report, and the memory that everything
/// queued and being sent comes to stays the same.
pub proof fn lemma_cycle_keeps_in_step(
    m: Axi4MasterView,
    r: Axi4RamView,
    p: Axi4MasterPorts,
    q: Axi4SlavePorts,
    awaddr: u32,
    araddr: u32,
)
    requires
        in_step(m, r),
        wired(m, r, p, q),
        m.config.error("axi4_master", awaddr, araddr) is None,
    ensures
        ({
            let n = m.clocked(false, p);
            let t = r.clocked(false, q);
            &&& m.faults(false, p) == Seq::<MasterFault>::empty()
            &&& in_step(n, t)
            &&& ends(n, t) == ends(m, r)
            &&& n.config == m.config && n.shadow == m.shadow && t.mem.width == r.mem.width
            &&& writes_done(m) ==> writes_done(n)
        }),
{
    lemma_write_half(m, r, p, q, awaddr, araddr);
    lemma_read_half(m, r, p, q, awaddr, araddr);
    let n = m.clocked(false, p);
    let t = r.clocked(false, q);
    if !writes_done(m) {
        lemma_unchecked_is_fine(n.reads, r.mem, writes_done(n), t.mem);
    }
    assert(m.faults(false, p) =~= Seq::<MasterFault>::empty());
}

/// Where no read is checked, the memory does not matter.
pub proof fn lemma_unchecked_is_fine(e: ReadIssueView, mem: MemoryView, done: bool, other: MemoryView)
    requires
        reads_fine(e, false, mem),
    ensures
        reads_fine(e, done, other),
{
    assert forall|id: u64| #[trigger] e.out.contains_key(id) implies fine(
        e.out[id],
        done,
        other,
    ) by {
        assert(fine(e.out[id], false, mem));
    }
    assert forall|i: int| 0 <= i < e.queue.len() implies (#[trigger] e.queue[i]).len < u64::MAX
        && fine(e.queue[i], done, other) by {
        assert(fine(e.queue[i], false, mem));
    }
}

/// Whether what the master has recorded is what everything queued and being
/// sent comes to.
pub open spec fn agreed(m: Axi4MasterView, r: Axi4RamView) -> bool {
    let e = ends(m, r);
    &&& m.shadow.values == e.words
    &&& e.width == r.mem.width
    &&& e.wf()
    &&& e.clean()
    &&& keys_aligned(e)
}

/// A fresh master and a fresh memory without an end are in step.
pub proof fn lemma_fresh_pair_is_in_step(
    config: MasterConfig,
    seed: u64,
    ram: RamConfig,
    ram_seed: u64,
)
    requires
        config.width == ram.width,
        ram.size is None,
    ensures
        ({
            let m = Axi4MasterView::fresh(config, seed);
            let r = Axi4RamView::fresh(ram, ram_seed);
            in_step(m, r) && agreed(m, r)
        }),
{
    let m = Axi4MasterView::fresh(config, seed);
    let r = Axi4RamView::fresh(ram, ram_seed);
    assert(ends(m, r) == r.mem);
    assert(m.shadow.values =~= r.mem.words);
}

/// A reset of both leaves them in step: nothing is queued or in flight, and the
/// memory keeps its words.
pub proof fn lemma_reset_keeps_in_step(
    m: Axi4MasterView,
    r: Axi4RamView,
    p: Axi4MasterPorts,
    q: Axi4SlavePorts,
)
    requires
        r.wf(),
        answers_okay(r),
        m.config.width == r.config.width,
        r.reads.r_data.len() == word_count(r.mem.width),
    ensures
        ({
            let n = m.clocked(true, p);
            let t = r.clocked(true, q);
            &&& !t.aw_ready && !t.w_ready
            &&& in_step(n, t)
            &&& t.mem == r.mem
        }),
{
}

proof fn lemma_applied_stays_whole(m: MemoryView, op: WriteOpView, n: nat)
    requires
        m.wf(),
        m.clean(),
        m.width > 0,
        m.width % 8 == 0,
        keys_aligned(m),
    ensures
        ({
            let t = applied(m, op, n);
            &&& t.wf() && t.clean() && keys_aligned(t)
            &&& t.width == m.width
        }),
    decreases n,
{
    if n > 0 {
        let k = (n - 1) as nat;
        lemma_applied_stays_whole(m, op, k);
        lemma_written_stays_whole(
            applied(m, op, k),
            beat(op.addr, 1u64 << op.size_log, op.kind, op.len, k as u64) as u64,
            op.data[k as int],
            op.strb[k as int],
        );
    }
}

/// A burst may be queued as long as no checked read is pending: it lands after
/// everything queued before it.
pub proof fn lemma_queueing_keeps_in_step(m: Axi4MasterView, r: Axi4RamView, op: WriteOpView)
    requires
        in_step(m, r),
        reads_fine(m.reads, false, r.mem),
        plain_write(op),
    ensures
        in_step(m.writing(op), r),
        ends(m.writing(op), r) == applied(ends(m, r), op, (op.len + 1) as nat),
{
    let n = m.writing(op);
    assert(n.w_queue.drop_last() =~= m.w_queue);
    assert(writes_linked(n, r));
    lemma_unchecked_is_fine(n.reads, r.mem, writes_done(n), r.mem);
}

proof fn lemma_recording_keeps_agreed(
    m: Axi4MasterView,
    r: Axi4RamView,
    op: WriteOpView,
    n: Axi4MasterView,
)
    requires
        in_step(m, r),
        agreed(m, r),
        reads_fine(m.reads, false, r.mem),
        plain_write(op),
        r.mem.width > 0,
        r.mem.width % 8 == 0,
        n == (Axi4MasterView {
            shadow: n.shadow,
            traffic_lfsr: n.traffic_lfsr,
            ..m.writing(op)
        }),
        n.shadow.values == applied(ends(m, r), op, (op.len + 1) as nat).words,
    ensures
        in_step(n, r),
        agreed(n, r),
        n.reads == m.reads,
        n.config == m.config,
{
    let k = m.writing(op);
    lemma_queueing_keeps_in_step(m, r, op);
    lemma_applied_stays_whole(ends(m, r), op, (op.len + 1) as nat);
    assert(writes_linked(n, r));
    assert(ends(n, r) == ends(k, r));
}

/// Random bursts of any type and size may be queued as long as no checked read
/// is pending: what the master records of them is what the memory will hold.
pub proof fn lemma_random_bursts_keep_in_step(
    m: Axi4MasterView,
    r: Axi4RamView,
    n: nat,
    span: u64,
    max_len: u64,
)
    requires
        in_step(m, r),
        agreed(m, r),
        reads_fine(m.reads, false, r.mem),
        r.mem.width > 0,
        r.mem.width % 8 == 0,
        max_len < u64::MAX,
    ensures
        ({
            let t = m.random_bursts(n, span, max_len);
            &&& in_step(t, r)
            &&& agreed(t, r)
            &&& t.reads == m.reads
            &&& t.config == m.config
        }),
    decreases n,
{
    if n > 0 {
        let k = (n - 1) as nat;
        lemma_random_bursts_keep_in_step(m, r, k, span, max_len);
        let t = m.random_bursts(k, span, max_len);
        let u = m.random_bursts(n, span, max_len);
        let width = m.config.width;
        let (p, x) = planned(t.traffic_lfsr, span, max_len, width);
        let op = random_burst(t.traffic_lfsr, t.shadow, span, max_len, width).0;
        let before = ends(t, r);
        lemma_plan_applies(x, t.shadow, p, op, before, (p.len + 1) as nat);
        lemma_plan_beats_prefix(x, t.shadow, p, width, 0, (p.len + 1) as nat);
        assert(p.len < u64::MAX) by {
            lemma_plan_length(t.traffic_lfsr, span, max_len, width);
        }
        lemma_recording_keeps_agreed(t, r, op, u);
    }
}

proof fn lemma_plan_length(lfsr: u64, span: u64, max_len: u64, width: u32)
    requires
        max_len < u64::MAX,
    ensures
        planned(lfsr, span, max_len, width).0.len < u64::MAX,
{
    let x2 = xorshift(xorshift(lfsr));
    let x3 = xorshift(x2);
    assert(0 <= x3 as int % (max_len + 1) <= max_len);
    let p = planned(lfsr, span, max_len, width).0;
    lemma_twos_bound(lane_count(width));
    assert(p.size_log <= twos(lane_count(width)));
    lemma_shift_is_pow2(p.size_log);
    let bytes = 1u64 << p.size_log;
    let space = 0x1000 - p.base % 0x1000;
    assert(space / bytes as int <= space) by (nonlinear_arith)
        requires
            space >= 0,
            bytes >= 1,
    ;
}

/// Random burst writes may be queued as long as no checked read is pending: on
/// a bus with a power of two of whole byte lanes, what the master records of
/// them is what the memory will hold.
pub proof fn lemma_random_burst_writes_keep_in_step(
    m: Axi4MasterView,
    r: Axi4RamView,
    n: nat,
    span: u64,
    max_len: u64,
    lanes_log: nat,
)
    requires
        in_step(m, r),
        agreed(m, r),
        reads_fine(m.reads, false, r.mem),
        plain_bus(r.mem.width, lanes_log),
        span > 0,
        max_len < u64::MAX,
    ensures
        ({
            let t = m.random_burst_writes(n, span, max_len);
            &&& in_step(t, r)
            &&& agreed(t, r)
            &&& t.reads == m.reads
            &&& t.config == m.config
        }),
    decreases n,
{
    if n > 0 {
        let k = (n - 1) as nat;
        lemma_random_burst_writes_keep_in_step(m, r, k, span, max_len, lanes_log);
        let t = m.random_burst_writes(k, span, max_len);
        let u = m.random_burst_writes(n, span, max_len);
        let width = m.config.width;
        let b = incr_burst(t.traffic_lfsr, t.shadow, span, max_len, width, false);
        let x = xorshift(t.traffic_lfsr);
        let y = xorshift(x);
        lemma_aligned_twice(x % span, lane_count(width));
        let drawn = wanted_len(y, b.base, max_len, lane_count(width), span);
        let count = (b.len + 1) as nat;
        lemma_incr_applies(y, b, t.shadow, drawn, ends(t, r), lanes_log, false, count);
        lemma_incr_beats_prefix(y, t.shadow, b.base, b.len, width, false, 0, count);
        lemma_clipped_fits(b.base, drawn, lane_count(width), 0);
        lemma_recording_keeps_agreed(t, r, b.op(width), u);
    }
}

/// Reading back what is recorded may be queued once all writes were sent: every
/// such read expects what the memory will answer.
pub proof fn lemma_verify_all_keeps_in_step(
    m: Axi4MasterView,
    r: Axi4RamView,
    addrs: Seq<u64>,
    lanes_log: nat,
)
    requires
        in_step(m, r),
        agreed(m, r),
        writes_done(m),
        plain_bus(r.mem.width, lanes_log),
        forall|i: int| 0 <= i < addrs.len() ==> m.shadow.values.contains_key(#[trigger] addrs[i]),
    ensures
        ({
            let n = Axi4MasterView {
                reads: ReadIssueView { queue: m.reads.queue + m.checks(addrs), ..m.reads },
                ..m
            };
            in_step(n, r) && agreed(n, r)
        }),
{
    let e = ReadIssueView { queue: m.reads.queue + m.checks(addrs), ..m.reads };
    let n = Axi4MasterView { reads: e, ..m };
    let lanes = lane_count(r.mem.width);
    lemma_twos_of_pow2(lanes, lanes_log);
    lemma_shift_is_pow2(lanes_log as u64);
    assert(ends(m, r) == r.mem);
    assert forall|i: int| 0 <= i < e.queue.len() implies (#[trigger] e.queue[i]).len < u64::MAX
        && fine(e.queue[i], true, r.mem) by {
        if i < m.reads.queue.len() {
            assert(e.queue[i] == m.reads.queue[i]);
        } else {
            let a = addrs[i - m.reads.queue.len()];
            assert(m.shadow.values.contains_key(a));
            assert(r.mem.key(a) == a);
            assert(e.queue[i] == m.checks(addrs)[i - m.reads.queue.len()]);
            assert(0 * lanes == 0);
            assert(beat(a, lanes, INCR, 0, 0) == a);
        }
    }
    lemma_writes_alone(m, r, n, r);
}

/// The master and the memory after a run of cycles without reset.
pub open spec fn run_pair(
    m: Axi4MasterView,
    r: Axi4RamView,
    cycles: Seq<(Axi4MasterPorts, Axi4SlavePorts)>,
) -> (Axi4MasterView, Axi4RamView)
    decreases cycles.len(),
{
    if cycles.len() == 0 {
        (m, r)
    } else {
        let (n, t) = run_pair(m, r, cycles.drop_last());
        let (p, q) = cycles.last();
        (n.clocked(false, p), t.clocked(false, q))
    }
}

/// Whether in each cycle of a run the ports show what the other side drives.
pub open spec fn all_wired(
    m: Axi4MasterView,
    r: Axi4RamView,
    cycles: Seq<(Axi4MasterPorts, Axi4SlavePorts)>,
) -> bool
    decreases cycles.len(),
{
    if cycles.len() == 0 {
        true
    } else {
        let (n, t) = run_pair(m, r, cycles.drop_last());
        let (p, q) = cycles.last();
        all_wired(m, r, cycles.drop_last()) && wired(n, t, p, q)
    }
}

/// What the master reports in a run of cycles.
pub open spec fn reported(
    m: Axi4MasterView,
    r: Axi4RamView,
    cycles: Seq<(Axi4MasterPorts, Axi4SlavePorts)>,
) -> Seq<MasterFault>
    decreases cycles.len(),
{
    if cycles.len() == 0 {
        seq![]
    } else {
        let (n, t) = run_pair(m, r, cycles.drop_last());
        let (p, q) = cycles.last();
        reported(m, r, cycles.drop_last()) + n.faults(false, p)
    }
}

/// Checked traffic checks out: a master that builds reports nothing on the bus
/// of a memory, in any run of cycles and under every backpressure, however the
/// beats of its reads interleave. Once its writes are sent, the memory holds
/// what they leave in order.
pub proof fn lemma_checked_traffic_checks_out(
    m: Axi4MasterView,
    r: Axi4RamView,
    cycles: Seq<(Axi4MasterPorts, Axi4SlavePorts)>,
    awaddr: u32,
    araddr: u32,
)
    requires
        in_step(m, r),
        all_wired(m, r, cycles),
        m.config.error("axi4_master", awaddr, araddr) is None,
    ensures
        reported(m, r, cycles) == Seq::<MasterFault>::empty(),
        ({
            let (n, t) = run_pair(m, r, cycles);
            &&& in_step(n, t)
            &&& agreed(m, r) ==> agreed(n, t)
            &&& writes_done(n) ==> t.mem == ends(m, r)
        }),
{
    lemma_run_keeps_in_step(m, r, cycles, awaddr, araddr);
}

proof fn lemma_run_keeps_in_step(
    m: Axi4MasterView,
    r: Axi4RamView,
    cycles: Seq<(Axi4MasterPorts, Axi4SlavePorts)>,
    awaddr: u32,
    araddr: u32,
)
    requires
        in_step(m, r),
        all_wired(m, r, cycles),
        m.config.error("axi4_master", awaddr, araddr) is None,
    ensures
        reported(m, r, cycles) == Seq::<MasterFault>::empty(),
        ({
            let (n, t) = run_pair(m, r, cycles);
            &&& in_step(n, t)
            &&& ends(n, t) == ends(m, r)
            &&& n.config == m.config && n.shadow == m.shadow && t.mem.width == r.mem.width
        }),
    decreases cycles.len(),
{
    if cycles.len() > 0 {
        let before = cycles.drop_last();
        lemma_run_keeps_in_step(m, r, before, awaddr, araddr);
        let (n, t) = run_pair(m, r, before);
        let (p, q) = cycles.last();
        lemma_cycle_keeps_in_step(n, t, p, q, awaddr, araddr);
        assert(reported(m, r, cycles) =~= Seq::<MasterFault>::empty());
    }
}

} // verus!
