//! What a checker reports over a whole history of cycles.

use crate::axi3::checker::{Axi3CheckerView, Axi3MonitorPorts};
use crate::axi3::fault::{lines, Axi3Fault};
use crate::axi3::rules::Announced;
use crate::collections::queue_of;
use crate::common::lanes::lane_count;
use crate::common::monitor::{Chan, LineFault};
use crate::common::report::only_if;
use crate::common::traffic::{count_of, TrafficView};
use vstd::prelude::*;

verus! {

/// A cycle that a checker sees, and when.
pub ghost struct Seen {
    pub bus: Axi3MonitorPorts,
    pub now: u64,
}

impl Seen {
    /// The ID of the write address that is handed over, if any.
    pub open spec fn aw(self) -> Option<u64> {
        if self.bus.channels().aw.fires() {
            Some(self.bus.awid@.number_or_zero())
        } else {
            None
        }
    }

    /// The ID of the read address that is handed over, if any.
    pub open spec fn ar(self) -> Option<u64> {
        if self.bus.channels().ar.fires() {
            Some(self.bus.arid@.number_or_zero())
        } else {
            None
        }
    }

    /// The ID of the beat of write data that is handed over, if any.
    pub open spec fn w(self) -> Option<u64> {
        if self.bus.channels().w.fires() {
            Some(self.bus.wid@.number_or_zero())
        } else {
            None
        }
    }

    /// The ID of the beat of read data that is handed over, if any.
    pub open spec fn r(self) -> Option<u64> {
        if self.bus.channels().r.fires() {
            Some(self.bus.rid@.number_or_zero())
        } else {
            None
        }
    }

    /// The ID of the write response that is handed over, if any.
    pub open spec fn b(self) -> Option<u64> {
        if self.bus.channels().b.fires() {
            Some(self.bus.bid@.number_or_zero())
        } else {
            None
        }
    }
}

/// The checker after a history without reset.
pub open spec fn run(c: Axi3CheckerView, h: Seq<Seen>) -> Axi3CheckerView
    decreases h.len(),
{
    if h.len() == 0 {
        c
    } else {
        run(c, h.drop_last()).clocked(false, h.last().bus, h.last().now)
    }
}

/// What is reported in the cycle `k` after a history.
pub open spec fn reported(c: Axi3CheckerView, h: Seq<Seen>, k: Seen, four_state: bool) -> Seq<
    Axi3Fault,
> {
    run(c, h).faults(false, k.bus, four_state, k.now)
}

/// With what a cycle announces for an ID: the beats of its burst.
pub open spec fn with_burst(waiting: Seq<u64>, announced: bool, a: Announced) -> Seq<u64> {
    if announced {
        waiting.push((a.len + 1) as u64)
    } else {
        waiting
    }
}

/// Without the oldest entry, where there is one.
pub open spec fn without_oldest(waiting: Seq<u64>, gone: bool) -> Seq<u64> {
    if gone && waiting.len() > 0 {
        waiting.drop_first()
    } else {
        waiting
    }
}

/// The beats of the write bursts of an ID that no WLAST beat has matched,
/// oldest first.
pub open spec fn unmatched(h: Seq<Seen>, id: u64) -> Seq<u64>
    decreases h.len(),
{
    if h.len() == 0 {
        seq![]
    } else {
        let k = h.last();
        without_oldest(
            with_burst(unmatched(h.drop_last(), id), k.aw() == Some(id), k.bus.aw_burst()),
            k.w() == Some(id) && k.bus.wlast@.high(),
        )
    }
}

/// The beats of write data of an ID since its last WLAST beat.
pub open spec fn since_last(h: Seq<Seen>, id: u64) -> nat
    decreases h.len(),
{
    if h.len() == 0 {
        0
    } else {
        let n = since_last(h.drop_last(), id);
        let k = h.last();
        if k.w() != Some(id) {
            n
        } else if k.bus.wlast@.high() {
            0
        } else {
            n + 1
        }
    }
}

/// The write bursts of an ID that were not answered.
pub open spec fn unanswered(h: Seq<Seen>, id: u64) -> nat
    decreases h.len(),
{
    if h.len() == 0 {
        0
    } else {
        let k = h.last();
        let n = unanswered(h.drop_last(), id) + count(k.aw() == Some(id));
        if k.b() == Some(id) && n > 0 {
            (n - 1) as nat
        } else {
            n
        }
    }
}

/// The read bursts of an ID whose last beat has not come.
pub open spec fn unread(h: Seq<Seen>, id: u64) -> nat
    decreases h.len(),
{
    if h.len() == 0 {
        0
    } else {
        let k = h.last();
        let n = unread(h.drop_last(), id) + count(k.ar() == Some(id));
        if k.r() == Some(id) && k.bus.rlast@.high() && n > 0 {
            (n - 1) as nat
        } else {
            n
        }
    }
}

/// One where something holds.
pub open spec fn count(c: bool) -> nat {
    if c {
        1
    } else {
        0
    }
}

/// Whether nothing is outstanding for a checker, as at the start and after a
/// reset.
pub open spec fn clear(c: Axi3CheckerView) -> bool {
    c.writes == TrafficView::none() && c.reads == TrafficView::none()
}

/// A fresh checker, and one that has seen a reset, has nothing outstanding.
pub proof fn lemma_reset_leaves_nothing(
    c: Axi3CheckerView,
    p: Axi3MonitorPorts,
    now: u64,
    timeout: Option<u64>,
)
    ensures
        clear(c.clocked(true, p, now)),
        clear(Axi3CheckerView::fresh(c.width, timeout)),
{
}

proof fn lemma_history_of_writes(c: Axi3CheckerView, h: Seq<Seen>, id: u64)
    requires
        clear(c),
        h.len() < u64::MAX,
    ensures
        ({
            let w = run(c, h).writes;
            &&& queue_of(w.expect, id) == unmatched(h, id)
            &&& count_of(w.count, id) == since_last(h, id) <= h.len()
            &&& queue_of(w.cycles, id).len() == unanswered(h, id)
        }),
    decreases h.len(),
{
    if h.len() > 0 {
        let before = h.drop_last();
        let k = h.last();
        lemma_history_of_writes(c, before, id);
        let s = run(c, before);
        let s1 = s.after_lines(k.bus).after_aw(k.bus, k.now);
        let s2 = s1.after_ar(k.bus, k.now).after_w(k.bus);
        let s3 = s2.after_r(k.bus, k.now).after_b(k.bus, k.now);
        assert(run(c, h) == s3);
        let waiting = with_burst(unmatched(before, id), k.aw() == Some(id), k.bus.aw_burst());
        assert(queue_of(s1.writes.expect, id) =~= waiting);
        assert(queue_of(s1.writes.cycles, id).len() == unanswered(before, id) + count(
            k.aw() == Some(id),
        ));
        assert(queue_of(s2.writes.expect, id) =~= unmatched(h, id));
        assert(s2.writes.cycles == s1.writes.cycles);
        assert(s3.writes.expect == s2.writes.expect && s3.writes.count == s2.writes.count);
    } else {
        assert(queue_of(c.writes.expect, id) =~= unmatched(h, id));
    }
}

proof fn lemma_history_of_reads(c: Axi3CheckerView, h: Seq<Seen>, id: u64)
    requires
        clear(c),
    ensures
        queue_of(run(c, h).reads.expect, id).len() == unread(h, id),
    decreases h.len(),
{
    if h.len() > 0 {
        let before = h.drop_last();
        let k = h.last();
        lemma_history_of_reads(c, before, id);
        let s = run(c, before);
        let s1 = s.after_lines(k.bus).after_aw(k.bus, k.now).after_ar(k.bus, k.now);
        assert(queue_of(s1.reads.expect, id).len() == unread(before, id) + count(
            k.ar() == Some(id),
        ));
    }
}

/// What a fault says of the order of data and responses.
#[verifier::opaque]
spec fn about_order(f: Axi3Fault) -> bool {
    f is WriteLength || f is ResponseWithoutWrite || f is DataWithoutRead
}

/// Whether no fault is about the order of data and responses.
#[verifier::opaque]
spec fn no_order(faults: Seq<Axi3Fault>) -> bool {
    forall|i: int| 0 <= i < faults.len() ==> !about_order(#[trigger] faults[i])
}

broadcast proof fn lemma_no_order_together(a: Seq<Axi3Fault>, b: Seq<Axi3Fault>)
    ensures
        no_order(a) && no_order(b) ==> #[trigger] no_order(a + b),
{
    reveal(no_order);
}

broadcast proof fn lemma_no_order_alone(c: bool, f: Axi3Fault)
    ensures
        !about_order(f) ==> #[trigger] no_order(only_if(c, f)),
{
    reveal(no_order);
}

broadcast proof fn lemma_no_order_lines(faults: Seq<LineFault>)
    ensures
        #[trigger] no_order(lines(faults)),
{
    reveal(no_order);
    reveal(about_order);
}

proof fn lemma_burst_faults_are_no_order(fires: bool, a: Announced, c: Chan, lanes: u64)
    ensures
        no_order(
            if fires {
                a.faults(c, lanes)
            } else {
                seq![]
            },
        ),
{
    broadcast use {lemma_no_order_together, lemma_no_order_alone};

    reveal(about_order);
    assert(no_order(seq![])) by {
        reveal(no_order);
    }
    assert(no_order(a.faults(c, lanes)));
}

/// The faults before those of the write data phase.
spec fn first_faults(
    s: Axi3CheckerView,
    p: Axi3MonitorPorts,
    four_state: bool,
    now: u64,
) -> Seq<Axi3Fault> {
    let s3 = s.after_lines(p).after_aw(p, now).after_ar(p, now);
    let all = s.early_faults(p, four_state, now);
    all.take(all.len() - s3.w_faults(p).len())
}

proof fn lemma_first_faults_are_no_order(
    s: Axi3CheckerView,
    p: Axi3MonitorPorts,
    four_state: bool,
    now: u64,
)
    ensures
        no_order(first_faults(s, p, four_state, now)),
        ({
            let s3 = s.after_lines(p).after_aw(p, now).after_ar(p, now);
            s.early_faults(p, four_state, now) == first_faults(s, p, four_state, now)
                + s3.w_faults(p)
        }),
{
    broadcast use {lemma_no_order_together, lemma_no_order_lines};

    let l = p.channels();
    let lanes = lane_count(s.width);
    let s1 = s.after_lines(p);
    let s3 = s1.after_aw(p, now).after_ar(p, now);
    let aw = if l.aw.fires() {
        p.aw_burst().faults(Chan::Aw, lanes)
    } else {
        seq![]
    };
    let ar = if l.ar.fires() {
        p.ar_burst().faults(Chan::Ar, lanes)
    } else {
        seq![]
    };
    lemma_burst_faults_are_no_order(l.aw.fires(), p.aw_burst(), Chan::Aw, lanes);
    lemma_burst_faults_are_no_order(l.ar.fires(), p.ar_burst(), Chan::Ar, lanes);
    let unknown = lines(
        if four_state {
            crate::common::monitor::unknown_lines(l)
        } else {
            seq![]
        },
    );
    let payloads = lines(
        if four_state {
            crate::common::monitor::unknown_payloads(l)
        } else {
            seq![]
        },
    );
    let first = unknown + payloads + lines(s.lines.violations(l)) + lines(
        s1.lines.timeouts(s.timeout),
    ) + aw + ar;
    assert(no_order(first));
    let all = s.early_faults(p, four_state, now);
    assert(all == first + s3.w_faults(p));
    assert(first_faults(s, p, four_state, now) =~= first);
}

/// Where the faults of a cycle stand.
proof fn lemma_parts(s: Axi3CheckerView, p: Axi3MonitorPorts, four_state: bool, now: u64, f: Axi3Fault)
    requires
        about_order(f),
    ensures
        ({
            let s3 = s.after_lines(p).after_aw(p, now).after_ar(p, now);
            let s4 = s3.after_w(p);
            s.faults(false, p, four_state, now).contains(f) <==> s3.w_faults(p).contains(f)
                || s4.r_faults(p).contains(f) || s4.after_r(p, now).b_faults(p).contains(f)
        }),
{
    let s3 = s.after_lines(p).after_aw(p, now).after_ar(p, now);
    let s4 = s3.after_w(p);
    let first = first_faults(s, p, four_state, now);
    lemma_first_faults_are_no_order(s, p, four_state, now);
    let (w, r, b) = (s3.w_faults(p), s4.r_faults(p), s4.after_r(p, now).b_faults(p));
    assert(s.faults(false, p, four_state, now) == first + w + r + b);
    assert(!first.contains(f)) by {
        reveal(no_order);
    }
    lemma_contains_parts(first, w, r, b, f);
}

proof fn lemma_contains_parts(
    a: Seq<Axi3Fault>,
    b: Seq<Axi3Fault>,
    c: Seq<Axi3Fault>,
    d: Seq<Axi3Fault>,
    f: Axi3Fault,
)
    ensures
        (a + b + c + d).contains(f) <==> a.contains(f) || b.contains(f) || c.contains(f)
            || d.contains(f),
{
    let all = a + b + c + d;
    if all.contains(f) {
        let i = choose|i: int| 0 <= i < all.len() && all[i] == f;
        if i < a.len() {
            assert(a[i] == f);
        } else if i < a.len() + b.len() {
            assert(b[i - a.len()] == f);
        } else if i < a.len() + b.len() + c.len() {
            assert(c[i - a.len() - b.len()] == f);
        } else {
            assert(d[i - a.len() - b.len() - c.len()] == f);
        }
    }
    if a.contains(f) {
        let i = choose|i: int| 0 <= i < a.len() && a[i] == f;
        assert(all[i] == f);
    }
    if b.contains(f) {
        let i = choose|i: int| 0 <= i < b.len() && b[i] == f;
        assert(all[a.len() + i] == f);
    }
    if c.contains(f) {
        let i = choose|i: int| 0 <= i < c.len() && c[i] == f;
        assert(all[a.len() + b.len() + i] == f);
    }
    if d.contains(f) {
        let i = choose|i: int| 0 <= i < d.len() && d[i] == f;
        assert(all[a.len() + b.len() + c.len() + i] == f);
    }
}

/// What the data and response phases report.
proof fn lemma_kinds(s: Axi3CheckerView, p: Axi3MonitorPorts, f: Axi3Fault)
    ensures
        s.w_faults(p).contains(f) ==> f is DataWithoutWrite || f is WriteLength,
        s.r_faults(p).contains(f) ==> f is DataWithoutRead || f is ReadLength || f is ExokayRead,
        s.b_faults(p).contains(f) ==> f is ResponseWithoutWrite || f is ExokayWrite,
{
    let w = s.w_faults(p);
    assert(forall|i: int|
        0 <= i < w.len() ==> (#[trigger] w[i]) is DataWithoutWrite || w[i] is WriteLength);
    let r = s.r_faults(p);
    assert(forall|i: int|
        0 <= i < r.len() ==> (#[trigger] r[i]) is DataWithoutRead || r[i] is ReadLength
            || r[i] is ExokayRead);
    let b = s.b_faults(p);
    assert(forall|i: int|
        0 <= i < b.len() ==> (#[trigger] b[i]) is ResponseWithoutWrite || b[i] is ExokayWrite);
}

/// What the write data phase reports of a WLAST beat.
proof fn lemma_wlast_faults(s: Axi3CheckerView, p: Axi3MonitorPorts, beats: u64, expected: u64)
    requires
        p.channels().w.fires(),
        p.wlast@.high(),
    ensures
        ({
            let id = p.wid@.number_or_zero();
            let waiting = queue_of(s.writes.expect, id);
            s.w_faults(p).contains(Axi3Fault::WriteLength { id, count: beats, expected }) <==> {
                &&& waiting.len() > 0
                &&& expected == waiting[0]
                &&& beats == (count_of(s.writes.count, id) + 1) as u64
                &&& beats != expected
            }
        }),
{
    let id = p.wid@.number_or_zero();
    let waiting = queue_of(s.writes.expect, id);
    let n = (count_of(s.writes.count, id) + 1) as u64;
    let w = s.w_faults(p);
    if waiting.len() > 0 && n != waiting[0] {
        let f = Axi3Fault::WriteLength { id, count: n, expected: waiting[0] };
        assert(w =~= seq![f]);
        assert(w[0] == f);
    } else if waiting.len() > 0 {
        assert(w =~= seq![]);
    } else {
        assert(w =~= seq![Axi3Fault::DataWithoutWrite(id)]);
    }
}

/// What the write response phase reports of a response.
proof fn lemma_response_faults(s: Axi3CheckerView, p: Axi3MonitorPorts)
    requires
        p.channels().b.fires(),
    ensures
        ({
            let id = p.bid@.number_or_zero();
            s.b_faults(p).contains(Axi3Fault::ResponseWithoutWrite(id)) <==> queue_of(
                s.writes.cycles,
                id,
            ).len() == 0
        }),
{
    let b = s.b_faults(p);
    let id = p.bid@.number_or_zero();
    if queue_of(s.writes.cycles, id).len() == 0 {
        assert(b[0] == Axi3Fault::ResponseWithoutWrite(id));
    } else {
        assert(forall|i: int| 0 <= i < b.len() ==> (#[trigger] b[i]) is ExokayWrite);
    }
}

/// What the read data phase reports of a beat.
proof fn lemma_beat_faults(s: Axi3CheckerView, p: Axi3MonitorPorts)
    requires
        p.channels().r.fires(),
    ensures
        ({
            let id = p.rid@.number_or_zero();
            s.r_faults(p).contains(Axi3Fault::DataWithoutRead(id)) <==> queue_of(
                s.reads.expect,
                id,
            ).len() == 0
        }),
{
    let r = s.r_faults(p);
    let id = p.rid@.number_or_zero();
    if queue_of(s.reads.expect, id).len() == 0 {
        assert(r[0] == Axi3Fault::DataWithoutRead(id));
    } else {
        assert(forall|i: int|
            0 <= i < r.len() ==> (#[trigger] r[i]) is ReadLength || r[i] is ExokayRead);
    }
}

/// WLAST is checked per ID over any history: at a WLAST beat of an ID, the beats
/// of that ID since its previous WLAST beat, this one included, are reported as
/// a wrong length exactly where they differ from the beats of its oldest write
/// burst that no WLAST beat has matched, one announced in the same cycle
/// included. Cycles of other IDs have no part in it.
pub proof fn lemma_wlast_is_checked_over_history(
    c: Axi3CheckerView,
    h: Seq<Seen>,
    k: Seen,
    four_state: bool,
    id: u64,
    beats: u64,
    expected: u64,
)
    requires
        clear(c),
        h.len() < u64::MAX,
        k.w() == Some(id),
        k.bus.wlast@.high(),
    ensures
        ({
            let waiting = with_burst(unmatched(h, id), k.aw() == Some(id), k.bus.aw_burst());
            reported(c, h, k, four_state).contains(
                Axi3Fault::WriteLength { id, count: beats, expected },
            ) <==> {
                &&& waiting.len() > 0
                &&& expected == waiting[0]
                &&& beats == since_last(h, id) + 1
                &&& beats != expected
            }
        }),
{
    let s = run(c, h);
    let p = k.bus;
    let f = Axi3Fault::WriteLength { id, count: beats, expected };
    assert(about_order(f)) by {
        reveal(about_order);
    }
    lemma_parts(s, p, four_state, k.now, f);
    lemma_history_of_writes(c, h, id);
    let s2 = s.after_lines(p).after_aw(p, k.now);
    let s3 = s2.after_ar(p, k.now);
    let waiting = with_burst(unmatched(h, id), k.aw() == Some(id), k.bus.aw_burst());
    assert(queue_of(s3.writes.expect, id) =~= waiting);
    assert(count_of(s3.writes.count, id) == since_last(h, id));
    lemma_wlast_faults(s3, p, beats, expected);
    lemma_kinds(s3.after_w(p), p, f);
    lemma_kinds(s3.after_w(p).after_r(p, k.now), p, f);
}

/// A write response is checked per ID over any history: it is reported as one
/// without a write exactly where every write burst of its ID, one announced in
/// the same cycle included, was answered before.
pub proof fn lemma_responses_are_checked_over_history(
    c: Axi3CheckerView,
    h: Seq<Seen>,
    k: Seen,
    four_state: bool,
    id: u64,
)
    requires
        clear(c),
        h.len() < u64::MAX,
        k.b() == Some(id),
    ensures
        reported(c, h, k, four_state).contains(Axi3Fault::ResponseWithoutWrite(id))
            <==> unanswered(h, id) + count(k.aw() == Some(id)) == 0,
{
    let s = run(c, h);
    let p = k.bus;
    let f = Axi3Fault::ResponseWithoutWrite(id);
    assert(about_order(f)) by {
        reveal(about_order);
    }
    lemma_parts(s, p, four_state, k.now, f);
    lemma_history_of_writes(c, h, id);
    let s2 = s.after_lines(p).after_aw(p, k.now);
    let s3 = s2.after_ar(p, k.now);
    let s5 = s3.after_w(p).after_r(p, k.now);
    assert(s5.writes.cycles == s2.writes.cycles);
    assert(queue_of(s2.writes.cycles, id).len() == unanswered(h, id) + count(
        k.aw() == Some(id),
    ));
    lemma_response_faults(s5, p);
    lemma_kinds(s3, p, f);
    lemma_kinds(s3.after_w(p), p, f);
}

/// Read data is checked per ID over any history: a beat is reported as one
/// without a read exactly where every read burst of its ID, one announced in
/// the same cycle included, has had its last beat before.
pub proof fn lemma_read_data_is_checked_over_history(
    c: Axi3CheckerView,
    h: Seq<Seen>,
    k: Seen,
    four_state: bool,
    id: u64,
)
    requires
        clear(c),
        k.r() == Some(id),
    ensures
        reported(c, h, k, four_state).contains(Axi3Fault::DataWithoutRead(id)) <==> unread(h, id)
            + count(k.ar() == Some(id)) == 0,
{
    let s = run(c, h);
    let p = k.bus;
    let f = Axi3Fault::DataWithoutRead(id);
    assert(about_order(f)) by {
        reveal(about_order);
    }
    lemma_parts(s, p, four_state, k.now, f);
    lemma_history_of_reads(c, h, id);
    let s3 = s.after_lines(p).after_aw(p, k.now).after_ar(p, k.now);
    let s4 = s3.after_w(p);
    assert(s4.reads == s3.reads);
    assert(queue_of(s3.reads.expect, id).len() == unread(h, id) + count(k.ar() == Some(id)));
    lemma_beat_faults(s4, p);
    lemma_kinds(s3, p, f);
    lemma_kinds(s4.after_r(p, k.now), p, f);
}

/// After a reset every request counts anew: in any later history, a write
/// response of an ID without a new write address, and read data of an ID
/// without a new read address, are reported.
pub proof fn lemma_reset_forgets_requests(
    c: Axi3CheckerView,
    p: Axi3MonitorPorts,
    now: u64,
    h: Seq<Seen>,
    k: Seen,
    four_state: bool,
    id: u64,
)
    requires
        h.len() < u64::MAX,
    ensures
        ({
            let f = reported(c.clocked(true, p, now), h, k, four_state);
            &&& k.b() == Some(id) && k.aw() != Some(id) && (forall|i: int|
                0 <= i < h.len() ==> (#[trigger] h[i]).aw() != Some(id)) ==> f.contains(
                Axi3Fault::ResponseWithoutWrite(id),
            )
            &&& k.r() == Some(id) && k.ar() != Some(id) && (forall|i: int|
                0 <= i < h.len() ==> (#[trigger] h[i]).ar() != Some(id)) ==> f.contains(
                Axi3Fault::DataWithoutRead(id),
            )
        }),
{
    let d = c.clocked(true, p, now);
    lemma_nothing_new(h, id);
    if k.b() == Some(id) {
        lemma_responses_are_checked_over_history(d, h, k, four_state, id);
    }
    if k.r() == Some(id) {
        lemma_read_data_is_checked_over_history(d, h, k, four_state, id);
    }
}

proof fn lemma_nothing_new(h: Seq<Seen>, id: u64)
    ensures
        (forall|i: int| 0 <= i < h.len() ==> (#[trigger] h[i]).aw() != Some(id)) ==> unanswered(
            h,
            id,
        ) == 0,
        (forall|i: int| 0 <= i < h.len() ==> (#[trigger] h[i]).ar() != Some(id)) ==> unread(h, id)
            == 0,
    decreases h.len(),
{
    if h.len() > 0 {
        let before = h.drop_last();
        lemma_nothing_new(before, id);
        assert(h.last() == h[h.len() - 1]);
        assert forall|i: int| 0 <= i < before.len() implies #[trigger] before[i] == h[i] by {}
    }
}

} // verus!
