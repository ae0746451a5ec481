//! What a checker sees of a master and a memory: nothing to report.

use crate::axi3::bus::{
    agreed, answers_okay, in_step, lemma_cycle_keeps_in_step, lemma_fresh_pair_is_in_step,
    lemma_random_burst_writes_keep_in_step, lemma_verify_all_keeps_in_step, wired, writes_done,
};
use crate::axi3::checker::{Axi3CheckerView, Axi3MonitorPorts};
use crate::axi3::fault::{lines, Axi3Fault};
use crate::axi3::laws::{
    announced, lemma_beat_in_page, lemma_offers_are_stable, lemma_random_burst_is_legal,
    lemma_taken_address_keeps_ids, lemma_taken_beat_keeps_ids,
};
use crate::axi3::master::{work_ids, Axi3MasterPorts, Axi3MasterView, WorkView};
use crate::axi3::ram::{lemma_answer_is_stable, Axi3RamView, Axi3SlavePorts};
use crate::axi3::rules::Announced;
use crate::axi4::bus::{offered_read, reads_fine, seen_reads};
use crate::axi4::issue::{MasterConfig, ReadIssueView};
use crate::axi4::laws::{lemma_twos_of_pow2, plain_bus};
use crate::axi4::ops::{beat_or, PendingBurst, ReadOpView};
use crate::axi4::slave::{advanced, front_answer, joined, RamConfig, ReadSideView};
use crate::collections::{front_of, queue_of};
use crate::common::lanes::{aligned, lane_count, lemma_aligned_is_rounding, lemma_shift_is_pow2};
use crate::common::monitor::{unknown_lines, unknown_payloads, Chan, LineFault};
use crate::common::resp::{EXOKAY, OKAY};
use crate::common::shown::{bit_of, goes_on, lemma_shown_channel, lemma_shown_line, shown, shows};
use crate::common::stimulus::full_strobe;
use crate::common::traffic::{count_of, TrafficView};
use crate::common::words::{extended, zeros};
use crate::value::{word_count, ValueView};
use vstd::arithmetic::power2::{lemma2_to64, lemma_pow2_adds, pow2};
use vstd::prelude::*;

verus! {

/// The write under an ID among those that send data.
pub open spec fn work_of(active: Seq<WorkView>, id: u64) -> Option<WorkView>
    decreases active.len(),
{
    if active.len() == 0 {
        None
    } else if active.last().id == id {
        Some(active.last())
    } else {
        work_of(active.drop_last(), id)
    }
}

proof fn lemma_work_found(active: Seq<WorkView>, i: int)
    requires
        work_ids(active).no_duplicates(),
        0 <= i < active.len(),
    ensures
        work_of(active, active[i].id) == Some(active[i]),
    decreases active.len(),
{
    let ids = work_ids(active);
    let rest = active.drop_last();
    assert(work_ids(rest) =~= ids.drop_last());
    if i < rest.len() {
        lemma_work_found(rest, i);
        assert(ids[i] != ids[active.len() - 1]);
    }
}

proof fn lemma_work_push(active: Seq<WorkView>, w: WorkView, id: u64)
    ensures
        work_of(active.push(w), id) == (if id == w.id {
            Some(w)
        } else {
            work_of(active, id)
        }),
{
    assert(active.push(w).drop_last() =~= active);
}

proof fn lemma_work_drop_first(active: Seq<WorkView>, id: u64)
    requires
        work_ids(active).no_duplicates(),
        active.len() > 0,
    ensures
        work_of(active.drop_first(), id) == (if id == active[0].id {
            None
        } else {
            work_of(active, id)
        }),
    decreases active.len(),
{
    let ids = work_ids(active);
    if active.len() > 1 {
        let rest = active.drop_last();
        assert(work_ids(rest) =~= ids.drop_last());
        lemma_work_drop_first(rest, id);
        assert(active.drop_first().drop_last() =~= rest.drop_first());
        assert(ids[0] != ids[active.len() - 1]);
    } else {
        assert(active.drop_first() =~= seq![]);
        assert(active.drop_last() =~= seq![]);
        assert(work_of(active.drop_last(), id) is None);
    }
}

proof fn lemma_no_work(active: Seq<WorkView>, id: u64)
    requires
        !work_ids(active).contains(id),
    ensures
        work_of(active, id) is None,
    decreases active.len(),
{
    if active.len() > 0 {
        let ids = work_ids(active);
        let rest = active.drop_last();
        assert(ids[active.len() - 1] == active.last().id);
        assert forall|k: int| 0 <= k < rest.len() implies work_ids(rest)[k] != id by {
            assert(ids[k] == work_ids(rest)[k]);
        }
        lemma_no_work(rest, id);
    }
}

/// Whether what a checker knows of the writes under an ID is what the master has
/// done: one sends data or awaits its response, or none does.
pub open spec fn write_known(
    t: TrafficView,
    active: Seq<WorkView>,
    out: Map<u64, PendingBurst>,
    id: u64,
) -> bool {
    let w = work_of(active, id);
    let live = w is Some || out.contains_key(id);
    &&& queue_of(t.expect, id) == (match w {
        Some(w) => seq![(w.op.len + 1) as u64],
        None => seq![],
    })
    &&& count_of(t.count, id) == (match w {
        Some(w) => w.beat,
        None => 0,
    })
    &&& queue_of(t.excl, id) == (if live {
        seq![false]
    } else {
        seq![]
    })
    &&& queue_of(t.cycles, id).len() == (if live {
        1int
    } else {
        0int
    })
}

/// Whether what a checker knows of the writes is what the master has done.
pub open spec fn writes_followed(
    t: TrafficView,
    active: Seq<WorkView>,
    out: Map<u64, PendingBurst>,
) -> bool {
    forall|id: u64| #[trigger] write_known(t, active, out, id)
}

/// Whether what a checker knows of the reads under an ID is what the master has
/// done: one awaits data, or none does.
pub open spec fn read_known(t: TrafficView, out: Map<u64, ReadOpView>, id: u64) -> bool {
    let op = read_of(out, id);
    &&& queue_of(t.expect, id) == (match op {
        Some(op) => seq![(op.len + 1) as u64],
        None => seq![],
    })
    &&& count_of(t.count, id) == (match op {
        Some(op) => op.beat,
        None => 0,
    })
    &&& queue_of(t.excl, id) == (match op {
        Some(op) => seq![op.lock == 1],
        None => seq![],
    })
    &&& queue_of(t.cycles, id).len() == (if op is Some {
        1int
    } else {
        0int
    })
}

/// The read that awaits data under an ID.
pub open spec fn read_of(out: Map<u64, ReadOpView>, id: u64) -> Option<ReadOpView> {
    if out.contains_key(id) {
        Some(out[id])
    } else {
        None
    }
}

/// Whether what a checker knows of the reads is what the master has done.
pub open spec fn reads_followed(t: TrafficView, out: Map<u64, ReadOpView>) -> bool {
    forall|id: u64| #[trigger] read_known(t, out, id)
}

proof fn lemma_write_announced(
    t: TrafficView,
    active: Seq<WorkView>,
    out: Map<u64, PendingBurst>,
    w: WorkView,
    now: u64,
)
    requires
        writes_followed(t, active, out),
        work_of(active, w.id) is None,
        !out.contains_key(w.id),
        w.beat == 0,
    ensures
        writes_followed(t.announced(w.id, (w.op.len + 1) as u64, now, false), active.push(w), out),
{
    let u = t.announced(w.id, (w.op.len + 1) as u64, now, false);
    assert forall|id: u64| #[trigger] write_known(u, active.push(w), out, id) by {
        lemma_work_push(active, w, id);
        assert(write_known(t, active, out, id));
        if id == w.id {
            assert(queue_of(u.expect, id) =~= seq![(w.op.len + 1) as u64]);
            assert(queue_of(u.excl, id) =~= seq![false]);
        }
    }
}

proof fn lemma_write_beat(m: Axi3MasterView, t: TrafficView)
    requires
        work_ids(m.active).no_duplicates(),
        m.active.len() > 0,
        writes_followed(t, m.active, m.b_out),
        m.active[0].beat <= m.active[0].op.len < u64::MAX,
        !m.b_out.contains_key(m.active[0].id),
    ensures
        ({
            let w = m.active[0];
            let n = m.w_taken(true);
            &&& writes_followed(t.beat(w.id, w.beat == w.op.len), n.active, n.b_out)
            &&& front_of(t.expect, w.id) == Some((w.op.len + 1) as u64)
            &&& count_of(t.count, w.id) == w.beat
        }),
{
    let w = m.active[0];
    let last = w.beat == w.op.len;
    let n = m.w_taken(true);
    let u = t.beat(w.id, last);
    let moved = WorkView { beat: (w.beat + 1) as u64, ..w };
    lemma_work_found(m.active, 0);
    assert(write_known(t, m.active, m.b_out, w.id));
    assert forall|id: u64| #[trigger] write_known(u, n.active, n.b_out, id) by {
        lemma_work_drop_first(m.active, id);
        lemma_work_push(m.active.drop_first(), moved, id);
        assert(write_known(t, m.active, m.b_out, id));
        if id == w.id && last {
            assert(queue_of(u.expect, id) =~= seq![]);
        }
    }
}

proof fn lemma_write_answered(
    t: TrafficView,
    active: Seq<WorkView>,
    out: Map<u64, PendingBurst>,
    id: u64,
)
    requires
        writes_followed(t, active, out),
        out.contains_key(id),
        work_of(active, id) is None,
    ensures
        writes_followed(t.answered(id), active, out.remove(id)),
        front_of(t.cycles, id) is Some,
{
    let u = t.answered(id);
    assert(write_known(t, active, out, id));
    assert forall|x: u64| #[trigger] write_known(u, active, out.remove(id), x) by {
        assert(write_known(t, active, out, x));
        if x == id {
            assert(queue_of(u.excl, x) =~= seq![]);
        }
    }
}

proof fn lemma_read_announced(
    t: TrafficView,
    out: Map<u64, ReadOpView>,
    id: u64,
    op: ReadOpView,
    now: u64,
)
    requires
        reads_followed(t, out),
        !out.contains_key(id),
        op.beat == 0,
    ensures
        reads_followed(
            t.announced(id, (op.len + 1) as u64, now, op.lock == 1),
            out.insert(id, op),
        ),
{
    let u = t.announced(id, (op.len + 1) as u64, now, op.lock == 1);
    let more = out.insert(id, op);
    assert forall|x: u64| #[trigger] read_known(u, more, x) by {
        assert(read_known(t, out, x));
        if x == id {
            assert(queue_of(u.expect, x) =~= seq![(op.len + 1) as u64]);
            assert(queue_of(u.excl, x) =~= seq![op.lock == 1]);
        }
    }
}

/// The reads after a beat under `id`.
spec fn reads_after_beat(t: TrafficView, id: u64, last: bool) -> TrafficView {
    if last {
        t.beat(id, true).answered(id)
    } else {
        t.beat(id, false)
    }
}

proof fn lemma_read_beat(t: TrafficView, e: ReadIssueView, id: u64, data: Seq<u64>)
    requires
        reads_followed(t, e.out),
        e.out.contains_key(id),
        e.out[id].beat <= e.out[id].len < u64::MAX,
    ensures
        ({
            let op = e.out[id];
            let u = reads_after_beat(t, id, op.beat == op.len);
            &&& reads_followed(u, e.r_received(id, data).out)
            &&& front_of(t.expect, id) == Some((op.len + 1) as u64)
            &&& count_of(t.count, id) == op.beat
            &&& t.exclusive(id) == (op.lock == 1)
        }),
{
    let op = e.out[id];
    let last = op.beat == op.len;
    let u = reads_after_beat(t, id, last);
    let less = e.r_received(id, data).out;
    assert(read_known(t, e.out, id));
    assert forall|x: u64| #[trigger] read_known(u, less, x) by {
        assert(read_known(t, e.out, x));
        if x == id && last {
            assert(queue_of(u.expect, x) =~= seq![]);
            assert(queue_of(u.excl, x) =~= seq![]);
        }
    }
}

/// The widths of the signals on a bus.
pub ghost struct Widths {
    pub addr: u32,
    pub len: u32,
    pub size: u32,
    pub burst: u32,
    pub id: u32,
    pub lock: u32,
    pub data: u32,
    pub strb: u32,
    pub resp: u32,
}

impl Widths {
    /// Whether every signal but the data is at most 64 bits wide.
    pub open spec fn fit(self) -> bool {
        &&& self.addr <= 64 && self.len <= 64 && self.size <= 64 && self.burst <= 64
        &&& self.id <= 64 && self.lock <= 64 && self.resp <= 64
    }
}

/// What the write address channel shows.
pub open spec fn aw_payload(m: Axi3MasterView, w: Widths) -> Seq<ValueView> {
    let x = m.aw_driven();
    seq![
        shown(seq![x.op.addr], w.addr),
        shown(seq![x.op.len], w.len),
        shown(seq![x.op.size_log], w.size),
        shown(seq![x.op.kind], w.burst),
        shown(seq![x.id], w.id),
        shown(seq![x.op.lock], w.lock),
    ]
}

/// What the write data channel shows.
pub open spec fn w_payload(m: Axi3MasterView, w: Widths) -> Seq<ValueView> {
    let blank = zeros(word_count(m.config.width));
    let full = full_strobe(m.config.width);
    if m.active.len() > 0 {
        let x = m.active[0];
        seq![
            shown(beat_or(x.op.data, x.beat, blank), w.data),
            shown(beat_or(x.op.strb, x.beat, full), w.strb),
            shown(seq![bit_of(x.beat == x.op.len)], 1),
            shown(seq![x.id], w.id),
        ]
    } else {
        seq![shown(blank, w.data), shown(full, w.strb), shown(seq![0], 1), shown(seq![0], w.id)]
    }
}

/// What the write response channel shows.
pub open spec fn b_payload(r: Axi3RamView, w: Widths) -> Seq<ValueView> {
    let x = front_answer(r.b_queue);
    seq![shown(seq![x.resp], w.resp), shown(seq![x.id], w.id)]
}

/// What the read address channel shows.
pub open spec fn ar_payload(m: Axi3MasterView, w: Widths) -> Seq<ValueView> {
    let x = m.reads.cur;
    seq![
        shown(seq![x.addr], w.addr),
        shown(seq![x.len], w.len),
        shown(seq![x.size_log], w.size),
        shown(seq![x.kind], w.burst),
        shown(seq![m.reads.id], w.id),
        shown(seq![x.lock], w.lock),
    ]
}

/// What the read data channel shows.
pub open spec fn r_payload(r: Axi3RamView, w: Widths) -> Seq<ValueView> {
    let x = r.reads;
    seq![
        shown(x.r_data, w.data),
        shown(seq![x.r_resp], w.resp),
        shown(seq![x.r_id], w.id),
        shown(seq![bit_of(x.r_valid && x.r_last)], 1),
    ]
}

/// Whether a monitor sees what a master and a memory drive.
pub open spec fn watched(
    m: Axi3MasterView,
    r: Axi3RamView,
    w: Widths,
    o: Axi3MonitorPorts,
) -> bool {
    let l = o.channels();
    &&& shows(l.aw, m.aw_valid, r.aw_ready, aw_payload(m, w))
    &&& shows(l.w, m.w_valid, r.w_ready, w_payload(m, w))
    &&& shows(l.b, r.b_valid, m.b_ready, b_payload(r, w))
    &&& shows(l.ar, m.reads.ar_valid, r.reads.ar_ready, ar_payload(m, w))
    &&& shows(l.r, r.reads.r_valid, m.reads.r_ready, r_payload(r, w))
}

/// Whether the reads that a memory runs are exclusive where the master's are,
/// and the beat offered is answered accordingly.
pub open spec fn exclusives_linked(e: ReadIssueView, s: ReadSideView) -> bool {
    &&& forall|i: int|
        0 <= i < s.reads.len() ==> (#[trigger] s.reads[i]).exclusive == (e.out[s.reads[i].id].lock
            == 1)
    &&& s.r_valid ==> s.r_resp == (if s.reads[0].exclusive {
        EXOKAY
    } else {
        OKAY
    })
}

/// Whether what a checker remembers is what the master and the memory have
/// done.
pub open spec fn followed(
    c: Axi3CheckerView,
    m: Axi3MasterView,
    r: Axi3RamView,
    w: Widths,
) -> bool {
    &&& goes_on(c.lines.aw, m.aw_valid, aw_payload(m, w))
    &&& goes_on(c.lines.w, m.w_valid, w_payload(m, w))
    &&& goes_on(c.lines.b, r.b_valid, b_payload(r, w))
    &&& goes_on(c.lines.ar, m.reads.ar_valid, ar_payload(m, w))
    &&& goes_on(c.lines.r, r.reads.r_valid, r_payload(r, w))
    &&& writes_followed(c.writes, m.active, m.b_out)
    &&& reads_followed(c.reads, m.reads.out)
    &&& exclusives_linked(m.reads, r.reads)
}

/// How a read is announced on the bus.
pub open spec fn announced_read(op: ReadOpView) -> Announced {
    Announced { addr: op.addr, len: op.len, size: op.size_log, kind: op.kind, lock: op.lock }
}

/// Whether a burst that is announced on channel `c` keeps the rules.
#[verifier::opaque]
pub open spec fn keeps_rules(a: Announced, c: Chan, lanes: u64) -> bool {
    a.faults(c, lanes) == Seq::<Axi3Fault>::empty()
}

/// Whether every burst that is yet to be announced keeps the rules.
pub open spec fn legal(m: Axi3MasterView, lanes: u64) -> bool {
    &&& forall|i: int|
        0 <= i < m.w_queue.len() ==> keeps_rules(
            announced(#[trigger] m.w_queue[i]),
            Chan::Aw,
            lanes,
        )
    &&& m.cur_aw matches Some(w) ==> keeps_rules(announced(w.op), Chan::Aw, lanes)
    &&& forall|i: int|
        0 <= i < m.reads.queue.len() ==> keeps_rules(
            announced_read(#[trigger] m.reads.queue[i]),
            Chan::Ar,
            lanes,
        )
    &&& m.reads.active ==> keeps_rules(announced_read(m.reads.cur), Chan::Ar, lanes)
}

/// What each channel of a watched bus shows.
proof fn lemma_watched_channels(
    m: Axi3MasterView,
    r: Axi3RamView,
    w: Widths,
    o: Axi3MonitorPorts,
)
    requires
        watched(m, r, w, o),
    ensures
        ({
            let l = o.channels();
            &&& l.aw.valid.high() == m.aw_valid && l.aw.fires() == (m.aw_valid && r.aw_ready)
            &&& l.w.valid.high() == m.w_valid && l.w.fires() == (m.w_valid && r.w_ready)
            &&& l.b.valid.high() == r.b_valid && l.b.fires() == (r.b_valid && m.b_ready)
            &&& l.ar.valid.high() == m.reads.ar_valid
            &&& l.ar.fires() == (m.reads.ar_valid && r.reads.ar_ready)
            &&& l.r.valid.high() == r.reads.r_valid
            &&& l.r.fires() == (r.reads.r_valid && m.reads.r_ready)
            &&& unknown_lines(l) == Seq::<LineFault>::empty()
            &&& unknown_payloads(l) == Seq::<LineFault>::empty()
        }),
{
    let l = o.channels();
    lemma_shown_channel(l.aw, m.aw_valid, r.aw_ready, aw_payload(m, w));
    lemma_shown_channel(l.w, m.w_valid, r.w_ready, w_payload(m, w));
    lemma_shown_channel(l.b, r.b_valid, m.b_ready, b_payload(r, w));
    lemma_shown_channel(l.ar, m.reads.ar_valid, r.reads.ar_ready, ar_payload(m, w));
    lemma_shown_channel(l.r, r.reads.r_valid, m.reads.r_ready, r_payload(r, w));
    assert(unknown_lines(l) =~= Seq::<LineFault>::empty());
    assert(unknown_payloads(l) =~= Seq::<LineFault>::empty());
}

/// What a checker reads off the address and write data channels.
proof fn lemma_announcements(m: Axi3MasterView, r: Axi3RamView, w: Widths, o: Axi3MonitorPorts)
    requires
        watched(m, r, w, o),
        w.fit(),
    ensures
        o.aw_burst() == announced(m.aw_driven().op),
        o.awid@.number_or_zero() == m.aw_driven().id,
        o.ar_burst() == announced_read(m.reads.cur),
        o.arid@.number_or_zero() == m.reads.id,
        m.active.len() > 0 ==> o.wid@.number_or_zero() == m.active[0].id && o.wlast@.high() == (
        m.active[0].beat == m.active[0].op.len),
{
    let l = o.channels();
    let aw = l.aw.payload;
    let ar = l.ar.payload;
    assert(o.awaddr@ == aw[0] && o.awlen@ == aw[1] && o.awsize@ == aw[2] && o.awburst@ == aw[3]
        && o.awid@ == aw[4] && o.awlock@ == aw[5]);
    assert(o.araddr@ == ar[0] && o.arlen@ == ar[1] && o.arsize@ == ar[2] && o.arburst@ == ar[3]
        && o.arid@ == ar[4] && o.arlock@ == ar[5]);
    if m.active.len() > 0 {
        assert(o.wlast@ == l.w.payload[2] && o.wid@ == l.w.payload[3]);
        lemma_shown_line(m.active[0].beat == m.active[0].op.len);
    }
}

/// What a checker reads off the response channels.
proof fn lemma_answers(m: Axi3MasterView, r: Axi3RamView, w: Widths, o: Axi3MonitorPorts)
    requires
        watched(m, r, w, o),
        w.fit(),
    ensures
        o.bid@.number_or_zero() == front_answer(r.b_queue).id,
        o.bresp@.number_or_zero() == front_answer(r.b_queue).resp,
        o.rid@.number_or_zero() == r.reads.r_id,
        o.rresp@.number_or_zero() == r.reads.r_resp,
        o.rlast@.high() == (r.reads.r_valid && r.reads.r_last),
{
    let l = o.channels();
    assert(o.bresp@ == l.b.payload[0] && o.bid@ == l.b.payload[1]);
    assert(o.rresp@ == l.r.payload[1] && o.rid@ == l.r.payload[2] && o.rlast@ == l.r.payload[3]);
    lemma_shown_line(r.reads.r_valid && r.reads.r_last);
}

/// The write half of a watched cycle: no rule is broken, and the checker goes on
/// following.
proof fn lemma_writes_are_followed(
    c: Axi3CheckerView,
    m: Axi3MasterView,
    r: Axi3RamView,
    p: Axi3MasterPorts,
    q: Axi3SlavePorts,
    w: Widths,
    o: Axi3MonitorPorts,
    now: u64,
)
    requires
        in_step(m, r),
        wired(m, r, p, q),
        watched(m, r, w, o),
        writes_followed(c.writes, m.active, m.b_out),
        w.fit(),
    ensures
        ({
            let n = m.clocked(false, p);
            let s3 = c.after_lines(o).after_aw(o, now).after_ar(o, now);
            &&& s3.w_faults(o) == Seq::<Axi3Fault>::empty()
            &&& s3.after_w(o).after_r(o, now).b_faults(o) == Seq::<Axi3Fault>::empty()
            &&& writes_followed(c.clocked(false, o, now).writes, n.active, n.b_out)
        }),
{
    lemma_watched_channels(m, r, w, o);
    lemma_announcements(m, r, w, o);
    lemma_answers(m, r, w, o);
    let s2 = c.after_lines(o).after_aw(o, now);
    let s3 = s2.after_ar(o, now);
    let s4 = s3.after_w(o);
    let s5 = s4.after_r(o, now);
    let m0 = m.drawn();
    let m1 = m0.aw_taken(p);
    let fire = m.w_fires(p);
    let m2 = m1.w_taken(fire);
    lemma_taken_address_keeps_ids(m0, p);
    lemma_taken_beat_keeps_ids(m1, fire);
    assert(writes_followed(s2.writes, m1.active, m1.b_out)) by {
        if let Some(x) = m.cur_aw {
            if r.aw_ready {
                let ids = work_ids(m.active);
                if ids.contains(x.id) {
                    assert(ids.to_set().contains(x.id));
                }
                lemma_no_work(m.active, x.id);
                lemma_write_announced(c.writes, m.active, m.b_out, x, now);
            }
        }
    }
    assert(s3.writes == s2.writes);
    if fire {
        assert(m1.active[0] == m.active[0]);
        lemma_write_beat(m1, s3.writes);
    }
    assert(writes_followed(s4.writes, m2.active, m2.b_out));
    assert(s3.w_faults(o) =~= Seq::<Axi3Fault>::empty());
    assert(s5.writes == s4.writes);
    if r.b_valid && m.b_ready {
        let id = r.b_queue[0].id;
        assert(m2.b_out.contains_key(id));
        let ids = work_ids(m2.active);
        if ids.contains(id) {
            let k = choose|k: int| 0 <= k < ids.len() && ids[k] == id;
            assert(m2.active[k].id == id);
        }
        lemma_no_work(m2.active, id);
        lemma_write_answered(s5.writes, m2.active, m2.b_out, id);
    }
    assert(s5.b_faults(o) =~= Seq::<Axi3Fault>::empty());
}

/// The read half of a watched cycle: no rule is broken, and the checker goes on
/// following.
proof fn lemma_reads_are_followed(
    c: Axi3CheckerView,
    m: Axi3MasterView,
    r: Axi3RamView,
    p: Axi3MasterPorts,
    q: Axi3SlavePorts,
    w: Widths,
    o: Axi3MonitorPorts,
    now: u64,
)
    requires
        in_step(m, r),
        wired(m, r, p, q),
        watched(m, r, w, o),
        reads_followed(c.reads, m.reads.out),
        exclusives_linked(m.reads, r.reads),
        w.fit(),
    ensures
        ({
            let n = m.clocked(false, p);
            let s4 = c.after_lines(o).after_aw(o, now).after_ar(o, now).after_w(o);
            &&& s4.r_faults(o) == Seq::<Axi3Fault>::empty()
            &&& reads_followed(c.clocked(false, o, now).reads, n.reads.out)
        }),
{
    lemma_watched_channels(m, r, w, o);
    lemma_announcements(m, r, w, o);
    lemma_answers(m, r, w, o);
    let s2 = c.after_lines(o).after_aw(o, now);
    let s3 = s2.after_ar(o, now);
    let s4 = s3.after_w(o);
    let s5 = s4.after_r(o, now);
    let e = m.reads;
    let e1 = e.ar_taken(r.reads.ar_ready);
    assert(reads_followed(s3.reads, e1.out)) by {
        if e.ar_valid && r.reads.ar_ready {
            lemma_read_announced(s2.reads, e.out, e.id, ReadOpView { beat: 0, ..e.cur }, now);
        }
    }
    assert(s4.reads == s3.reads);
    if r.reads.r_valid && e.r_ready {
        let b = r.reads.reads[0];
        assert(e1.out.contains_key(b.id) && e1.out[b.id] == e.out[b.id]);
        lemma_read_beat(s4.reads, e1, b.id, r.reads.r_data);
        assert(s5.reads == reads_after_beat(s4.reads, b.id, b.beat == b.len));
    }
    assert(s4.r_faults(o) =~= Seq::<Axi3Fault>::empty());
    let side = p.read_side(m.config.width);
    assert(extended(p.rdata@, word_count(m.config.width)) =~= r.reads.r_data);
    assert(side == seen_reads(r.reads));
    let n = m.clocked(false, p);
    assert(c.clocked(false, o, now).reads == s5.reads);
    let e2 = if e.r_ready && r.reads.r_valid {
        e1.r_received(r.reads.r_id, r.reads.r_data)
    } else {
        e1
    };
    assert(n.reads.out == e2.out);
}

/// The memory goes on answering exclusive reads as such.
proof fn lemma_exclusives_stay_linked(
    m: Axi3MasterView,
    r: Axi3RamView,
    p: Axi3MasterPorts,
    q: Axi3SlavePorts,
)
    requires
        in_step(m, r),
        wired(m, r, p, q),
        exclusives_linked(m.reads, r.reads),
        answers_okay(r.clocked(false, q)),
    ensures
        exclusives_linked(m.clocked(false, p).reads, r.clocked(false, q).reads),
{
    let n = m.clocked(false, p);
    let t = r.clocked(false, q);
    let e = m.reads;
    let e1 = e.ar_taken(r.reads.ar_ready);
    let ar = offered_read(e, r.reads, e.cur.lock == 1);
    let all = joined(r.reads.reads, ar);
    let fire = e.r_ready && r.reads.r_valid;
    assert(extended(p.rdata@, word_count(m.config.width)) =~= r.reads.r_data);
    assert(p.read_side(m.config.width) == seen_reads(r.reads));
    assert(t.reads.reads == advanced(all, fire));
    assert forall|i: int| 0 <= i < all.len() implies (#[trigger] all[i]).exclusive == (
    e1.out[all[i].id].lock == 1) by {
        if i < r.reads.reads.len() {
            assert(all[i] == r.reads.reads[i]);
        }
    }
    assert forall|i: int| 0 <= i < t.reads.reads.len() implies (
    #[trigger] t.reads.reads[i]).exclusive == (n.reads.out[t.reads.reads[i].id].lock == 1) by {
        if fire {
            if i < all.len() - 1 {
                assert(t.reads.reads[i] == all[i + 1]);
                if i + 1 < r.reads.reads.len() {
                    assert(all[i + 1] == r.reads.reads[i + 1]);
                }
                assert(all[i + 1].id != all[0].id);
            } else {
                assert(t.reads.reads[i] == all[0].next());
            }
        } else {
            assert(t.reads.reads[i] == all[i]);
        }
    }
}

/// Whether the word that a memory shows to a master that stalls is not written
/// in a cycle.
pub open spec fn shown_word_stays(m: Axi3MasterView, r: Axi3RamView, q: Axi3SlavePorts) -> bool {
    let a = r.reads.reads[0].at() as u64;
    r.reads.r_valid && !m.reads.r_ready ==> r.clocked(false, q).mem.at(a) == r.mem.at(a)
}

/// What is offered and not taken goes on being offered.
proof fn lemma_lines_go_on(
    c: Axi3CheckerView,
    m: Axi3MasterView,
    r: Axi3RamView,
    p: Axi3MasterPorts,
    q: Axi3SlavePorts,
    w: Widths,
    o: Axi3MonitorPorts,
    now: u64,
)
    requires
        in_step(m, r),
        in_step(m.clocked(false, p), r.clocked(false, q)),
        wired(m, r, p, q),
        watched(m, r, w, o),
        shown_word_stays(m, r, q),
        exclusives_linked(m.reads, r.reads),
        exclusives_linked(m.clocked(false, p).reads, r.clocked(false, q).reads),
    ensures
        ({
            let d = c.clocked(false, o, now);
            let n = m.clocked(false, p);
            let t = r.clocked(false, q);
            &&& goes_on(d.lines.aw, n.aw_valid, aw_payload(n, w))
            &&& goes_on(d.lines.w, n.w_valid, w_payload(n, w))
            &&& goes_on(d.lines.b, t.b_valid, b_payload(t, w))
            &&& goes_on(d.lines.ar, n.reads.ar_valid, ar_payload(n, w))
            &&& goes_on(d.lines.r, t.reads.r_valid, r_payload(t, w))
        }),
{
    let n = m.clocked(false, p);
    let t = r.clocked(false, q);
    lemma_watched_channels(m, r, w, o);
    lemma_offers_are_stable(m, false, p);
    lemma_answer_is_stable(r, false, q);
    let d = c.clocked(false, o, now);
    assert(d.lines == c.lines.after(o.channels()));
    if r.reads.r_valid && !m.reads.r_ready {
        let all = joined(r.reads.reads, offered_read(m.reads, r.reads, m.reads.cur.lock == 1));
        assert(t.reads.reads == all);
        assert(all[0] == r.reads.reads[0]);
    }
}

/// What is yet to be announced stays legal.
proof fn lemma_stays_legal(m: Axi3MasterView, p: Axi3MasterPorts, lanes: u64)
    requires
        legal(m, lanes),
    ensures
        legal(m.clocked(false, p), lanes),
{
    let n = m.clocked(false, p);
    let moved = m.drawn().write_moved(p).b_received(m.b_fires(p), p);
    assert(moved.w_queue == m.w_queue);
    assert(n.w_queue == moved.write_issued().w_queue);
    assert forall|i: int| 0 <= i < n.w_queue.len() implies keeps_rules(
        announced(#[trigger] n.w_queue[i]),
        Chan::Aw,
        lanes,
    ) by {
        if n.w_queue != m.w_queue {
            assert(n.w_queue[i] == m.w_queue[i + 1]);
        }
    }
    assert forall|i: int| 0 <= i < n.reads.queue.len() implies keeps_rules(
        announced_read(#[trigger] n.reads.queue[i]),
        Chan::Ar,
        lanes,
    ) by {
        if n.reads.queue != m.reads.queue {
            assert(n.reads.queue[i] == m.reads.queue[i + 1]);
        }
    }
}

/// In a cycle of a watched bus no rule is broken.
proof fn lemma_no_rule_is_broken(
    c: Axi3CheckerView,
    m: Axi3MasterView,
    r: Axi3RamView,
    p: Axi3MasterPorts,
    q: Axi3SlavePorts,
    w: Widths,
    o: Axi3MonitorPorts,
    four_state: bool,
    now: u64,
)
    requires
        in_step(m, r),
        wired(m, r, p, q),
        watched(m, r, w, o),
        followed(c, m, r, w),
        legal(m, lane_count(c.width)),
        w.fit(),
        c.timeout is None,
    ensures
        c.faults(false, o, four_state, now) == Seq::<Axi3Fault>::empty(),
{
    let l = o.channels();
    reveal(keeps_rules);
    lemma_watched_channels(m, r, w, o);
    lemma_announcements(m, r, w, o);
    lemma_writes_are_followed(c, m, r, p, q, w, o, now);
    lemma_reads_are_followed(c, m, r, p, q, w, o, now);
    assert(c.lines.violations(l) =~= Seq::<LineFault>::empty());
    assert(lines(Seq::<LineFault>::empty()) =~= Seq::<Axi3Fault>::empty());
    let s1 = c.after_lines(o);
    assert(s1.lines.timeouts(c.timeout) =~= Seq::<LineFault>::empty());
    assert(c.early_faults(o, four_state, now) =~= Seq::<Axi3Fault>::empty());
    assert(c.faults(false, o, four_state, now) =~= Seq::<Axi3Fault>::empty());
}

/// A cycle of a watched bus: what each side sees, and when.
pub ghost struct BusCycle {
    pub master: Axi3MasterPorts,
    pub slave: Axi3SlavePorts,
    pub monitor: Axi3MonitorPorts,
    pub now: u64,
}

/// The master, the memory and the checker of a bus.
pub ghost struct Bus {
    pub master: Axi3MasterView,
    pub ram: Axi3RamView,
    pub checker: Axi3CheckerView,
}

impl Bus {
    /// After a cycle without reset.
    pub open spec fn clocked(self, k: BusCycle) -> Bus {
        Bus {
            master: self.master.clocked(false, k.master),
            ram: self.ram.clocked(false, k.slave),
            checker: self.checker.clocked(false, k.monitor, k.now),
        }
    }

    /// After a run of cycles without reset.
    pub open spec fn run(self, cycles: Seq<BusCycle>) -> Bus
        decreases cycles.len(),
    {
        if cycles.len() == 0 {
            self
        } else {
            self.run(cycles.drop_last()).clocked(cycles.last())
        }
    }

    /// Whether in a cycle each sees what the others drive, and no beat is
    /// written over a word that is shown to a stalling master.
    pub open spec fn connected(self, w: Widths, k: BusCycle) -> bool {
        &&& wired(self.master, self.ram, k.master, k.slave)
        &&& watched(self.master, self.ram, w, k.monitor)
        &&& shown_word_stays(self.master, self.ram, k.slave)
    }

    /// Whether the bus is in step, what is queued is legal, and the checker,
    /// which has no time limit, has followed it.
    pub open spec fn is_followed(self, w: Widths) -> bool {
        &&& in_step(self.master, self.ram)
        &&& self.master.config.error("axi3_master", w.addr, w.addr) is None
        &&& followed(self.checker, self.master, self.ram, w)
        &&& legal(self.master, lane_count(self.checker.width))
        &&& self.checker.timeout is None
        &&& w.fit()
    }
}

/// A checker between a master and a memory has nothing to report: in every
/// cycle of a run in which each sees what the others drive, no rule of the
/// protocol is broken, provided that the bursts queued keep the rules. The time
/// limit is left out, since a side that always stalls would pass any.
pub proof fn lemma_traffic_is_legal(
    bus: Bus,
    w: Widths,
    cycles: Seq<BusCycle>,
    i: int,
    four_state: bool,
)
    requires
        bus.is_followed(w),
        forall|j: int|
            0 <= j < cycles.len() ==> bus.run(cycles.take(j)).connected(w, #[trigger] cycles[j]),
        0 <= i < cycles.len(),
    ensures
        bus.run(cycles.take(i)).checker.faults(false, cycles[i].monitor, four_state, cycles[i].now)
            == Seq::<Axi3Fault>::empty(),
{
    lemma_run_is_followed(bus, w, cycles, i);
    let b = bus.run(cycles.take(i));
    let k = cycles[i];
    lemma_no_rule_is_broken(
        b.checker,
        b.master,
        b.ram,
        k.master,
        k.slave,
        w,
        k.monitor,
        four_state,
        k.now,
    );
}

proof fn lemma_run_is_followed(bus: Bus, w: Widths, cycles: Seq<BusCycle>, i: int)
    requires
        bus.is_followed(w),
        forall|j: int|
            0 <= j < cycles.len() ==> bus.run(cycles.take(j)).connected(w, #[trigger] cycles[j]),
        0 <= i <= cycles.len(),
    ensures
        bus.run(cycles.take(i)).is_followed(w),
    decreases i,
{
    if i == 0 {
        assert(bus.run(cycles.take(0)) == bus);
    } else {
        lemma_run_is_followed(bus, w, cycles, i - 1);
        let b = bus.run(cycles.take(i - 1));
        let k = cycles[i - 1];
        assert(b.connected(w, k));
        assert(cycles.take(i).drop_last() =~= cycles.take(i - 1));
        assert(bus.run(cycles.take(i)) == b.clocked(k));
        lemma_cycle_is_followed(b, w, k);
    }
}

/// The checker goes on following.
proof fn lemma_checker_follows(
    c: Axi3CheckerView,
    m: Axi3MasterView,
    r: Axi3RamView,
    p: Axi3MasterPorts,
    q: Axi3SlavePorts,
    w: Widths,
    o: Axi3MonitorPorts,
    now: u64,
)
    requires
        in_step(m, r),
        in_step(m.clocked(false, p), r.clocked(false, q)),
        wired(m, r, p, q),
        watched(m, r, w, o),
        shown_word_stays(m, r, q),
        followed(c, m, r, w),
        w.fit(),
    ensures
        followed(c.clocked(false, o, now), m.clocked(false, p), r.clocked(false, q), w),
{
    assert(exclusives_linked(m.clocked(false, p).reads, r.clocked(false, q).reads)) by {
        lemma_exclusives_stay_linked(m, r, p, q);
    }
    lemma_lines_go_on(c, m, r, p, q, w, o, now);
    assert(writes_followed(
        c.clocked(false, o, now).writes,
        m.clocked(false, p).active,
        m.clocked(false, p).b_out,
    )) by {
        lemma_writes_are_followed(c, m, r, p, q, w, o, now);
    }
    assert(reads_followed(c.clocked(false, o, now).reads, m.clocked(false, p).reads.out)) by {
        lemma_reads_are_followed(c, m, r, p, q, w, o, now);
    }
}

proof fn lemma_settings_stay(c: Axi3CheckerView, o: Axi3MonitorPorts, now: u64)
    ensures
        c.clocked(false, o, now).width == c.width,
        c.clocked(false, o, now).timeout == c.timeout,
{
}

proof fn lemma_cycle_is_followed(b: Bus, w: Widths, k: BusCycle)
    requires
        b.is_followed(w),
        b.connected(w, k),
    ensures
        b.clocked(k).is_followed(w),
{
    let (c, m, r) = (b.checker, b.master, b.ram);
    let n = m.clocked(false, k.master);
    let t = r.clocked(false, k.slave);
    assert(in_step(n, t) && n.config == m.config) by {
        lemma_cycle_keeps_in_step(m, r, k.master, k.slave, w.addr, w.addr);
    }
    lemma_checker_follows(c, m, r, k.master, k.slave, w, k.monitor, k.now);
    lemma_stays_legal(m, k.master, lane_count(c.width));
    lemma_settings_stay(c, k.monitor, k.now);
}

/// A fresh checker follows a fresh master and a fresh memory.
pub proof fn lemma_fresh_bus_is_followed(
    config: MasterConfig,
    seed: u64,
    ram: RamConfig,
    ram_seed: u64,
    w: Widths,
)
    requires
        config.width == ram.width,
        config.width > 0,
        config.width % 8 == 0,
        config.error("axi3_master", w.addr, w.addr) is None,
        ram.size is None,
        w.fit(),
    ensures
        (Bus {
            master: Axi3MasterView::fresh(config, seed),
            ram: Axi3RamView::fresh(ram, ram_seed),
            checker: Axi3CheckerView::fresh(ram.width, None),
        }).is_followed(w),
{
    lemma_fresh_pair_is_in_step(config, seed, ram, ram_seed);
}

/// Random burst writes keep what is queued legal, on a bus with a power of two
/// of whole byte lanes that a 4 KiB page can hold.
pub proof fn lemma_random_burst_writes_are_legal(
    m: Axi3MasterView,
    n: nat,
    span: u64,
    max_len: u64,
    lanes_log: nat,
)
    requires
        legal(m, lane_count(m.config.width)),
        plain_bus(m.config.width, lanes_log),
        lanes_log <= 12,
        span > 0,
        max_len <= 15,
    ensures
        ({
            let t = m.random_burst_writes(n, span, max_len);
            &&& legal(t, lane_count(m.config.width))
            &&& t == (Axi3MasterView {
                w_queue: t.w_queue,
                shadow: t.shadow,
                traffic_lfsr: t.traffic_lfsr,
                ..m
            })
        }),
    decreases n,
{
    reveal(keeps_rules);
    if n > 0 {
        let k = (n - 1) as nat;
        lemma_random_burst_writes_are_legal(m, k, span, max_len, lanes_log);
        let t = m.random_burst_writes(k, span, max_len);
        lemma_random_burst_is_legal(
            t.traffic_lfsr,
            t.shadow,
            span,
            max_len,
            m.config.width,
            lanes_log,
            Chan::Aw,
        );
    }
}

/// The checked reads of recorded words keep what is queued legal, on a bus with
/// a power of two of whole byte lanes that a 4 KiB page can hold.
pub proof fn lemma_checks_are_legal(m: Axi3MasterView, addrs: Seq<u64>, lanes_log: nat)
    requires
        legal(m, lane_count(m.config.width)),
        plain_bus(m.config.width, lanes_log),
        lanes_log <= 12,
        forall|i: int|
            0 <= i < addrs.len() ==> aligned(#[trigger] addrs[i], lane_count(m.config.width))
                == addrs[i],
    ensures
        legal(
            Axi3MasterView {
                reads: ReadIssueView { queue: m.reads.queue + m.checks(addrs), ..m.reads },
                ..m
            },
            lane_count(m.config.width),
        ),
{
    reveal(keeps_rules);
    let queue = m.reads.queue + m.checks(addrs);
    let lanes = lane_count(m.config.width);
    lemma_twos_of_pow2(lanes, lanes_log);
    lemma_shift_is_pow2(lanes_log as u64);
    lemma_pow2_adds(lanes_log, (12 - lanes_log) as nat);
    lemma2_to64();
    let k = pow2((12 - lanes_log) as nat) as int;
    assert(lanes * k == 4096);
    assert forall|i: int| 0 <= i < queue.len() implies keeps_rules(
        announced_read(#[trigger] queue[i]),
        Chan::Ar,
        lanes,
    ) by {
        if i < m.reads.queue.len() {
            assert(queue[i] == m.reads.queue[i]);
        } else {
            let x = addrs[i - m.reads.queue.len()];
            let a = announced_read(queue[i]);
            assert(queue[i] == m.checks(addrs)[i - m.reads.queue.len()]);
            assert(a.bytes() == lanes && a.addr == x && a.len == 0 && a.total() == lanes);
            lemma_aligned_is_rounding(x, lanes, lanes_log);
            lemma_beat_in_page(x as int, lanes as int, k);
            assert(a.faults(Chan::Ar, lanes) =~= Seq::<Axi3Fault>::empty());
        }
    }
}

/// A checker goes on following a bus whose master queues random burst writes.
pub proof fn lemma_random_burst_writes_are_followed(
    bus: Bus,
    w: Widths,
    n: nat,
    span: u64,
    max_len: u64,
    lanes_log: nat,
)
    requires
        bus.is_followed(w),
        bus.checker.width == bus.ram.mem.width,
        agreed(bus.master, bus.ram),
        reads_fine(bus.master.reads, false, bus.ram.mem),
        plain_bus(bus.ram.mem.width, lanes_log),
        lanes_log <= 12,
        span > 0,
        max_len <= 15,
    ensures
        (Bus { master: bus.master.random_burst_writes(n, span, max_len), ..bus }).is_followed(w),
{
    lemma_random_burst_writes_keep_in_step(bus.master, bus.ram, n, span, max_len, lanes_log);
    lemma_random_burst_writes_are_legal(bus.master, n, span, max_len, lanes_log);
}

/// A checker goes on following a bus whose master queues checked reads of
/// recorded words.
pub proof fn lemma_checks_are_followed(bus: Bus, w: Widths, addrs: Seq<u64>, lanes_log: nat)
    requires
        bus.is_followed(w),
        bus.checker.width == bus.ram.mem.width,
        agreed(bus.master, bus.ram),
        writes_done(bus.master),
        plain_bus(bus.ram.mem.width, lanes_log),
        lanes_log <= 12,
        forall|i: int|
            0 <= i < addrs.len() ==> bus.master.certain().contains_key(#[trigger] addrs[i]),
    ensures
        ({
            let m = bus.master;
            (Bus {
                master: Axi3MasterView {
                    reads: ReadIssueView { queue: m.reads.queue + m.checks(addrs), ..m.reads },
                    ..m
                },
                ..bus
            }).is_followed(w)
        }),
{
    lemma_verify_all_keeps_in_step(bus.master, bus.ram, addrs, lanes_log);
    lemma_checks_are_legal(bus.master, addrs, lanes_log);
}

} // verus!
