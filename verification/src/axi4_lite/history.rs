//! The order of a master's accesses over a whole history.

use crate::axi4_lite::laws::{
    b_addrs, flights, lemma_ar_keeps_flights, lemma_data_ends_flight, lemma_fresh_has_no_flight,
    lemma_issue_starts_read_flight, lemma_issue_starts_write_flight, lemma_moving_keeps_flights,
    lemma_response_ends_flight, lemma_same_flights, one_flight_per_address, r_addrs, tally,
};
use crate::axi4_lite::master::{Axi4LiteMasterPorts, Axi4LiteMasterView, LiteMasterConfig};
use crate::axi4_lite::op::{
    issuable, lemma_oldest_access_goes_first, modified, next_issuable, OpView, ReadView,
};
use crate::common::lanes::{lane_count, merged};
use crate::common::random::{stalls, xorshift, xorshift_nth};
use crate::common::stimulus::{after_data, full_strobe, placed, random_data, random_strobe};
use crate::value::word_count;
use vstd::prelude::*;

verus! {

/// What happens to a master: a cycle without reset, or a call between cycles,
/// which queues accesses and records what they leave, or takes read data out.
pub ghost enum Event {
    Cycle(Axi4LiteMasterPorts),
    Call {
        /// The accesses that are queued, in order.
        ops: Seq<OpView>,
        reads: Seq<Seq<u64>>,
        traffic_lfsr: u64,
        shadow: Map<u64, Seq<u64>>,
        latest: Map<u64, Seq<u64>>,
    },
}

/// A master after an event.
pub open spec fn after(s: Axi4LiteMasterView, e: Event) -> Axi4LiteMasterView {
    match e {
        Event::Cycle(p) => s.clocked(false, p),
        Event::Call { ops, reads, traffic_lfsr, shadow, latest } => Axi4LiteMasterView {
            ops: s.ops + ops,
            reads,
            traffic_lfsr,
            shadow,
            latest,
            ..s
        },
    }
}

/// The call that leads from `s` to `t`.
pub open spec fn call(s: Axi4LiteMasterView, t: Axi4LiteMasterView) -> Event {
    Event::Call {
        ops: t.ops.skip(s.ops.len() as int),
        reads: t.reads,
        traffic_lfsr: t.traffic_lfsr,
        shadow: t.shadow,
        latest: t.latest,
    }
}

/// Whether one call leads from `s` to `t`.
pub open spec fn one_call(s: Axi4LiteMasterView, t: Axi4LiteMasterView) -> bool {
    after(s, call(s, t)) == t
}

/// A master after a history.
pub open spec fn run(s: Axi4LiteMasterView, h: Seq<Event>) -> Axi4LiteMasterView
    decreases h.len(),
{
    if h.len() == 0 {
        s
    } else {
        after(run(s, h.drop_last()), h.last())
    }
}

/// The master in a cycle when it picks a write: what was handed over on the
/// write channels is noted.
pub open spec fn at_write(s: Axi4LiteMasterView, p: Axi4LiteMasterPorts) -> Axi4LiteMasterView {
    s.drawn().write_moved(p).b_received(s.b_fires(p), p.bresp)
}

/// The master in a cycle when read data comes: a read address that was handed
/// over is noted.
pub open spec fn at_data(s: Axi4LiteMasterView, p: Axi4LiteMasterPorts) -> Axi4LiteMasterView {
    let w = s.drawn().write_cycle(p, stalls(s.lfsr, s.config.stall));
    w.ar_taken(w.ar_valid && p.arready@.truth())
}

/// The master in a cycle when it picks a read: what was handed over on the read
/// channels is noted.
pub open spec fn at_read(s: Axi4LiteMasterView, p: Axi4LiteMasterPorts) -> Axi4LiteMasterView {
    at_data(s, p).r_received(s.r_fires(p), s.r_data(p))
}

/// The write that a master presents, if any.
pub open spec fn issued_write(m: Axi4LiteMasterView) -> Option<OpView> {
    match next_issuable(m.ops, m.inflight, true, 0) {
        Some(i) => if m.write_idle() {
            Some(m.ops[i])
        } else {
            None
        },
        None => None,
    }
}

/// The read that a master presents, if any.
pub open spec fn issued_read(m: Axi4LiteMasterView) -> Option<OpView> {
    match next_issuable(m.ops, m.inflight, false, 0) {
        Some(i) => if !m.ar_valid && m.r_expect.len() < m.config.max() {
            Some(m.ops[i])
        } else {
            None
        },
        None => None,
    }
}

/// The read-modify-write whose data comes, if any, and its write-back.
pub open spec fn written_back(m: Axi4LiteMasterView, fire: bool, data: Seq<u64>) -> Option<
    (ReadView, OpView),
> {
    if fire && m.r_expect.len() > 0 {
        let read = m.r_expect[0];
        match (read.expect, read.rmw) {
            (None, Some(p)) => Some(
                (
                    read,
                    OpView::Write {
                        addr: read.addr,
                        data: modified(data, p.0, p.1),
                        strb: full_strobe(m.config.width),
                        expect_ok: true,
                    },
                ),
            ),
            _ => None,
        }
    } else {
        None
    }
}

/// An access, where there is one and it is to `a`.
pub open spec fn if_to(op: Option<OpView>, a: u64) -> Seq<OpView> {
    match op {
        Some(op) => if op.addr() == a {
            seq![op]
        } else {
            seq![]
        },
        None => seq![],
    }
}

/// The accesses to `a`, in order.
pub open spec fn of_addr(ops: Seq<OpView>, a: u64) -> Seq<OpView>
    decreases ops.len(),
{
    if ops.len() == 0 {
        seq![]
    } else {
        of_addr(ops.drop_last(), a) + if_to(Some(ops.last()), a)
    }
}

/// The accesses to `a` that were presented in a history, in order.
pub open spec fn presented(s: Axi4LiteMasterView, h: Seq<Event>, a: u64) -> Seq<OpView>
    decreases h.len(),
{
    if h.len() == 0 {
        seq![]
    } else {
        let before = presented(s, h.drop_last(), a);
        let m = run(s, h.drop_last());
        match h.last() {
            Event::Cycle(p) => before + if_to(issued_write(at_write(m, p)), a) + if_to(
                issued_read(at_read(m, p)),
                a,
            ),
            Event::Call { .. } => before,
        }
    }
}

/// The accesses to `a` in program order: in the order they were queued, and the
/// write of a read-modify-write, once its data has come, directly after what
/// was presented by then.
pub open spec fn program(s: Axi4LiteMasterView, h: Seq<Event>, a: u64) -> Seq<OpView>
    decreases h.len(),
{
    if h.len() == 0 {
        of_addr(s.ops, a)
    } else {
        let before = program(s, h.drop_last(), a);
        let m = run(s, h.drop_last());
        match h.last() {
            Event::Cycle(p) => match written_back(at_data(m, p), m.r_fires(p), m.r_data(p)) {
                Some((_, op)) => if op.addr() == a {
                    let n = presented(s, h.drop_last(), a).len() as int;
                    before.take(n) + seq![op] + before.skip(n)
                } else {
                    before
                },
                None => before,
            },
            Event::Call { ops, .. } => before + of_addr(ops, a),
        }
    }
}

/// Whether the data of a read-modify-write of `a` comes only while it is the
/// access to `a` that was presented last, so that its write-back stands directly
/// after it in program order.
pub open spec fn writes_back_directly(s: Axi4LiteMasterView, h: Seq<Event>, a: u64) -> bool
    decreases h.len(),
{
    if h.len() == 0 {
        true
    } else {
        let m = run(s, h.drop_last());
        let done = presented(s, h.drop_last(), a);
        &&& writes_back_directly(s, h.drop_last(), a)
        &&& match h.last() {
            Event::Cycle(p) => written_back(at_data(m, p), m.r_fires(p), m.r_data(p)) matches Some(
                (read, _),
            ) ==> read.addr == a ==> done.len() > 0 && done.last() == OpView::Read(read),
            Event::Call { .. } => true,
        }
    }
}

proof fn lemma_of_addr_front(x: OpView, ops: Seq<OpView>, a: u64)
    ensures
        of_addr(seq![x] + ops, a) == if_to(Some(x), a) + of_addr(ops, a),
    decreases ops.len(),
{
    let all = seq![x] + ops;
    if ops.len() == 0 {
        assert(all.drop_last() =~= ops);
        assert(of_addr(ops, a) =~= seq![]);
        assert(of_addr(all, a) =~= if_to(Some(x), a) + of_addr(ops, a));
    } else {
        lemma_of_addr_front(x, ops.drop_last(), a);
        assert(all.drop_last() =~= seq![x] + ops.drop_last());
        assert(all.last() == ops.last());
        assert(of_addr(all, a) =~= if_to(Some(x), a) + of_addr(ops, a));
    }
}

proof fn lemma_of_addr_concat(ops: Seq<OpView>, more: Seq<OpView>, a: u64)
    ensures
        of_addr(ops + more, a) == of_addr(ops, a) + of_addr(more, a),
    decreases more.len(),
{
    let all = ops + more;
    if more.len() == 0 {
        assert(all =~= ops);
        assert(of_addr(all, a) =~= of_addr(ops, a) + of_addr(more, a));
    } else {
        lemma_of_addr_concat(ops, more.drop_last(), a);
        assert(all.drop_last() =~= ops + more.drop_last());
        assert(all.last() == more.last());
        assert(of_addr(all, a) =~= of_addr(ops, a) + of_addr(more, a));
    }
}

proof fn lemma_of_addr_none(ops: Seq<OpView>, a: u64)
    requires
        forall|j: int| 0 <= j < ops.len() ==> (#[trigger] ops[j]).addr() != a,
    ensures
        of_addr(ops, a) == Seq::<OpView>::empty(),
    decreases ops.len(),
{
    if ops.len() > 0 {
        let rest = ops.drop_last();
        assert forall|j: int| 0 <= j < rest.len() implies (#[trigger] rest[j]).addr() != a by {
            assert(rest[j] == ops[j]);
        }
        lemma_of_addr_none(rest, a);
        assert(ops[ops.len() - 1].addr() != a);
        assert(of_addr(ops, a) =~= Seq::<OpView>::empty());
    }
}

/// Taking the first access to its address out leaves the order of the others.
proof fn lemma_of_addr_remove(ops: Seq<OpView>, i: int, a: u64)
    requires
        0 <= i < ops.len(),
        forall|j: int| 0 <= j < i ==> (#[trigger] ops[j]).addr() != ops[i].addr(),
    ensures
        of_addr(ops, a) == if_to(Some(ops[i]), a) + of_addr(ops.remove(i), a),
    decreases ops.len(),
{
    let rest = ops.drop_last();
    if i == ops.len() - 1 {
        assert(ops.remove(i) =~= rest);
        if ops[i].addr() == a {
            assert forall|j: int| 0 <= j < rest.len() implies (#[trigger] rest[j]).addr()
                != a by {
                assert(rest[j] == ops[j]);
            }
            lemma_of_addr_none(rest, a);
        }
        assert(of_addr(ops, a) =~= if_to(Some(ops[i]), a) + of_addr(rest, a));
    } else {
        assert forall|j: int| 0 <= j < i implies (#[trigger] rest[j]).addr() != rest[i].addr() by {
            assert(rest[j] == ops[j]);
        }
        lemma_of_addr_remove(rest, i, a);
        assert(ops.remove(i).drop_last() =~= rest.remove(i));
        assert(ops.remove(i).last() == ops.last());
        assert(of_addr(ops, a) =~= if_to(Some(ops[i]), a) + of_addr(ops.remove(i), a));
    }
}

proof fn lemma_tally_none(addrs: Seq<u64>, a: u64, i: int)
    requires
        tally(addrs, a) == 0,
        0 <= i < addrs.len(),
    ensures
        addrs[i] != a,
    decreases addrs.len(),
{
    if i < addrs.len() - 1 {
        lemma_tally_none(addrs.drop_last(), a, i);
    }
}

/// Whether a read of `a` that is in flight is the access that was presented
/// last.
spec fn flying_read_is_last(m: Axi4LiteMasterView, done: Seq<OpView>, a: u64) -> bool {
    &&& m.ar_valid && m.cur_ar.addr == a ==> done.len() > 0 && done.last() == OpView::Read(
        m.cur_ar,
    )
    &&& forall|i: int|
        0 <= i < m.r_expect.len() && (#[trigger] m.r_expect[i]).addr == a ==> done.len() > 0
            && done.last() == OpView::Read(m.r_expect[i])
}

proof fn lemma_no_flight_no_read(m: Axi4LiteMasterView, a: u64)
    requires
        one_flight_per_address(m),
        !m.inflight.contains(a),
    ensures
        !(m.ar_valid && m.cur_ar.addr == a),
        forall|i: int| 0 <= i < m.r_expect.len() ==> (#[trigger] m.r_expect[i]).addr != a,
{
    assert(flights(m, a) == 0);
    assert forall|i: int| 0 <= i < m.r_expect.len() implies (#[trigger] m.r_expect[i]).addr
        != a by {
        lemma_tally_none(r_addrs(m), a, i);
        assert(r_addrs(m)[i] == m.r_expect[i].addr);
    }
}

proof fn lemma_write_step(m: Axi4LiteMasterView, done: Seq<OpView>, a: u64)
    requires
        one_flight_per_address(m),
        flying_read_is_last(m, done, a),
    ensures
        ({
            let n = m.write_issued();
            let now = done + if_to(issued_write(m), a);
            &&& one_flight_per_address(n)
            &&& flying_read_is_last(n, now, a)
            &&& done + of_addr(m.ops, a) == now + of_addr(n.ops, a)
            &&& n.config == m.config
        }),
{
    let n = m.write_issued();
    let now = done + if_to(issued_write(m), a);
    lemma_issue_starts_write_flight(m);
    lemma_oldest_access_goes_first(m.ops, m.inflight, true);
    match issued_write(m) {
        Some(op) => {
            let i = next_issuable(m.ops, m.inflight, true, 0)->0;
            assert(issuable(m.ops, m.inflight, true, i));
            assert(n.ops == m.ops.remove(i));
            lemma_of_addr_remove(m.ops, i, a);
            if op.addr() == a {
                lemma_no_flight_no_read(m, a);
            } else {
                assert(now =~= done);
            }
            assert(done + of_addr(m.ops, a) =~= now + of_addr(n.ops, a));
        },
        None => {
            assert(n == m);
            assert(now =~= done);
        },
    }
}

proof fn lemma_read_step(m: Axi4LiteMasterView, done: Seq<OpView>, a: u64)
    requires
        one_flight_per_address(m),
        flying_read_is_last(m, done, a),
    ensures
        ({
            let n = m.read_issued();
            let now = done + if_to(issued_read(m), a);
            &&& one_flight_per_address(n)
            &&& flying_read_is_last(n, now, a)
            &&& done + of_addr(m.ops, a) == now + of_addr(n.ops, a)
        }),
{
    let n = m.read_issued();
    let now = done + if_to(issued_read(m), a);
    lemma_issue_starts_read_flight(m);
    lemma_oldest_access_goes_first(m.ops, m.inflight, false);
    match issued_read(m) {
        Some(op) => {
            let i = next_issuable(m.ops, m.inflight, false, 0)->0;
            assert(issuable(m.ops, m.inflight, false, i));
            assert(n.ops == m.ops.remove(i));
            lemma_of_addr_remove(m.ops, i, a);
            if op.addr() == a {
                lemma_no_flight_no_read(m, a);
                assert(now.last() == op);
            } else {
                assert(now =~= done);
            }
            assert(done + of_addr(m.ops, a) =~= now + of_addr(n.ops, a));
        },
        None => {
            assert(n == m);
            assert(now =~= done);
        },
    }
}

proof fn lemma_data_step(
    m: Axi4LiteMasterView,
    fire: bool,
    data: Seq<u64>,
    done: Seq<OpView>,
    a: u64,
)
    requires
        one_flight_per_address(m),
        flying_read_is_last(m, done, a),
    ensures
        ({
            let n = m.r_received(fire, data);
            let back = written_back(m, fire, data);
            &&& one_flight_per_address(n)
            &&& flying_read_is_last(n, done, a)
            &&& of_addr(n.ops, a) == if_to(
                match back {
                    Some((_, op)) => Some(op),
                    None => None,
                },
                a,
            ) + of_addr(m.ops, a)
            &&& back matches Some((read, op)) ==> op.addr() == read.addr && (read.addr == a
                ==> done.len() > 0 && done.last() == OpView::Read(read))
        }),
{
    let n = m.r_received(fire, data);
    lemma_data_ends_flight(m, fire, data);
    match written_back(m, fire, data) {
        Some((read, op)) => {
            assert(n.ops == seq![op] + m.ops);
            lemma_of_addr_front(op, m.ops, a);
            assert(read == m.r_expect[0]);
        },
        None => {
            assert(n.ops == m.ops);
            assert(of_addr(n.ops, a) =~= Seq::<OpView>::empty() + of_addr(m.ops, a));
        },
    }
    assert forall|i: int|
        0 <= i < n.r_expect.len() && (#[trigger] n.r_expect[i]).addr == a implies done.len() > 0
        && done.last() == OpView::Read(n.r_expect[i]) by {
        if fire && m.r_expect.len() > 0 {
            assert(n.r_expect[i] == m.r_expect[i + 1]);
        }
    }
}

proof fn lemma_up_to_write(
    s: Axi4LiteMasterView,
    p: Axi4LiteMasterPorts,
    done: Seq<OpView>,
    a: u64,
)
    requires
        one_flight_per_address(s),
        flying_read_is_last(s, done, a),
    ensures
        ({
            let m = at_write(s, p);
            &&& one_flight_per_address(m)
            &&& flying_read_is_last(m, done, a)
            &&& m.ops == s.ops
        }),
{
    lemma_same_flights(s, s.drawn());
    lemma_moving_keeps_flights(s.drawn(), p);
    lemma_response_ends_flight(s.drawn().write_moved(p), s.b_fires(p), p.bresp);
    let m = at_write(s, p);
    assert(m.r_expect == s.r_expect && m.ar_valid == s.ar_valid && m.cur_ar == s.cur_ar);
}

proof fn lemma_up_to_data(
    s: Axi4LiteMasterView,
    p: Axi4LiteMasterPorts,
    done: Seq<OpView>,
    a: u64,
)
    requires
        one_flight_per_address(s),
        flying_read_is_last(s, done, a),
    ensures
        ({
            let m = at_data(s, p);
            let now = done + if_to(issued_write(at_write(s, p)), a);
            &&& one_flight_per_address(m)
            &&& flying_read_is_last(m, now, a)
            &&& done + of_addr(s.ops, a) == now + of_addr(m.ops, a)
            &&& written_back(m, s.r_fires(p), s.r_data(p)) matches Some((read, _)) ==> read.addr
                == a ==> now == done
        }),
{
    lemma_up_to_write(s, p, done, a);
    let w = at_write(s, p);
    lemma_write_step(w, done, a);
    let n = w.write_issued();
    let stall = stalls(s.lfsr, s.config.stall);
    let v = s.drawn().write_cycle(p, stall);
    lemma_same_flights(n, v);
    let fire = v.ar_valid && p.arready@.truth();
    lemma_ar_keeps_flights(v, fire);
    let m = at_data(s, p);
    let now = done + if_to(issued_write(w), a);
    assert(v.r_expect == n.r_expect && v.ar_valid == n.ar_valid && v.cur_ar == n.cur_ar);
    assert forall|i: int|
        0 <= i < m.r_expect.len() && (#[trigger] m.r_expect[i]).addr == a implies now.len() > 0
        && now.last() == OpView::Read(m.r_expect[i]) by {
        if i < n.r_expect.len() {
            assert(m.r_expect[i] == n.r_expect[i]);
        }
    }
    if let Some((read, _)) = written_back(m, s.r_fires(p), s.r_data(p)) {
        if read.addr == a {
            assert(read == m.r_expect[0]);
            assert(now.last() == OpView::Read(read));
            match issued_write(w) {
                Some(op) => {
                    lemma_oldest_access_goes_first(w.ops, w.inflight, true);
                    let i = next_issuable(w.ops, w.inflight, true, 0)->0;
                    assert(issuable(w.ops, w.inflight, true, i));
                    if op.addr() == a {
                        assert(now.last() == op);
                    } else {
                        assert(now =~= done);
                    }
                },
                None => {
                    assert(now =~= done);
                },
            }
        }
    }
}

/// Whether a history has kept the order of the accesses to `a`.
spec fn in_order(s: Axi4LiteMasterView, h: Seq<Event>, a: u64) -> bool {
    let t = run(s, h);
    let done = presented(s, h, a);
    &&& one_flight_per_address(t)
    &&& flying_read_is_last(t, done, a)
    &&& done + of_addr(t.ops, a) == program(s, h, a)
}

proof fn lemma_cycle_keeps_order(
    s: Axi4LiteMasterView,
    h: Seq<Event>,
    p: Axi4LiteMasterPorts,
    a: u64,
)
    requires
        in_order(s, h, a),
    ensures
        ({
            let all = h.push(Event::Cycle(p));
            &&& in_order(s, all, a)
            &&& writes_back_directly(s, h, a) ==> writes_back_directly(s, all, a)
        }),
{
    let all = h.push(Event::Cycle(p));
    assert(all.drop_last() =~= h);
    let m = run(s, h);
    let done = presented(s, h, a);
    let prog = program(s, h, a);
    lemma_up_to_data(m, p, done, a);
    let d = at_data(m, p);
    let now = done + if_to(issued_write(at_write(m, p)), a);
    lemma_data_step(d, m.r_fires(p), m.r_data(p), now, a);
    let r = at_read(m, p);
    lemma_read_step(r, now, a);
    let t = run(s, all);
    let n = r.read_issued();
    lemma_cycle_in_steps(m, p);
    lemma_same_flights(n, t);
    let end = now + if_to(issued_read(r), a);
    assert(presented(s, all, a) == end);
    assert(t.r_expect == n.r_expect && t.ar_valid == n.ar_valid && t.cur_ar == n.cur_ar);
    assert(flying_read_is_last(t, end, a));
    assert(end + of_addr(t.ops, a) == now + of_addr(r.ops, a));
    match written_back(d, m.r_fires(p), m.r_data(p)) {
        Some((read, op)) => {
            if op.addr() == a {
                let k = done.len() as int;
                assert(prog.take(k) =~= done);
                assert(prog.skip(k) =~= of_addr(d.ops, a)) by {
                    assert(done + of_addr(m.ops, a) == now + of_addr(d.ops, a));
                }
                assert(now + of_addr(r.ops, a) =~= done + seq![op] + of_addr(d.ops, a));
            } else {
                assert(of_addr(r.ops, a) =~= of_addr(d.ops, a));
            }
        },
        None => {
            assert(of_addr(r.ops, a) =~= of_addr(d.ops, a));
        },
    }
}

/// A cycle, step by step.
proof fn lemma_cycle_in_steps(m: Axi4LiteMasterView, p: Axi4LiteMasterPorts)
    ensures
        ({
            let n = at_read(m, p).read_issued();
            let t = m.clocked(false, p);
            t == (Axi4LiteMasterView { r_ready: t.r_ready, ..n })
        }),
{
    let stall = stalls(m.lfsr, m.config.stall);
    let w = m.drawn().write_cycle(p, stall);
    assert(w.r_ready == m.r_ready && w.config == m.config);
}

proof fn lemma_call_keeps_order(s: Axi4LiteMasterView, h: Seq<Event>, e: Event, a: u64)
    requires
        in_order(s, h, a),
        e is Call,
    ensures
        in_order(s, h.push(e), a),
        writes_back_directly(s, h, a) ==> writes_back_directly(s, h.push(e), a),
{
    let all = h.push(e);
    assert(all.drop_last() =~= h);
    let m = run(s, h);
    let t = run(s, all);
    let more = e->ops;
    assert(t.ops == m.ops + more);
    lemma_of_addr_concat(m.ops, more, a);
    assert forall|x: u64| flights(t, x) == (if t.inflight.contains(x) {
        1nat
    } else {
        0nat
    }) by {
        assert(r_addrs(t) == r_addrs(m));
        assert(b_addrs(t) == b_addrs(m));
        assert(flights(m, x) == (if m.inflight.contains(x) {
            1nat
        } else {
            0nat
        }));
    }
    let done = presented(s, h, a);
    assert(done + of_addr(t.ops, a) =~= program(s, h, a) + of_addr(more, a));
}

proof fn lemma_history_keeps_order(s: Axi4LiteMasterView, h: Seq<Event>, a: u64)
    requires
        one_flight_per_address(s),
        s.inflight == Set::<u64>::empty(),
    ensures
        in_order(s, h, a),
        writes_back_directly(s, h, a),
    decreases h.len(),
{
    if h.len() == 0 {
        lemma_no_flight_no_read(s, a);
        assert(presented(s, h, a) + of_addr(s.ops, a) =~= of_addr(s.ops, a));
    } else {
        let before = h.drop_last();
        lemma_history_keeps_order(s, before, a);
        assert(h =~= before.push(h.last()));
        match h.last() {
            Event::Cycle(p) => lemma_cycle_keeps_order(s, before, p, a),
            Event::Call { .. } => lemma_call_keeps_order(s, before, h.last(), a),
        }
    }
}

/// Accesses to one address keep program order, over any history of cycles and
/// calls from a master with nothing in flight: those presented are
/// the first in program order and those queued are the rest, reads and writes
/// together. The write of a read-modify-write stands directly after its read.
/// At most one access to the address is in flight, so each is presented only
/// once the one before it was answered.
pub proof fn lemma_accesses_keep_program_order(s: Axi4LiteMasterView, h: Seq<Event>, a: u64)
    requires
        one_flight_per_address(s),
        s.inflight == Set::<u64>::empty(),
    ensures
        presented(s, h, a) + of_addr(run(s, h).ops, a) == program(s, h, a),
        writes_back_directly(s, h, a),
        flights(run(s, h), a) <= 1,
{
    lemma_history_keeps_order(s, h, a);
    assert(flights(run(s, h), a) == (if run(s, h).inflight.contains(a) {
        1nat
    } else {
        0nat
    }));
}

/// A fresh master has nothing in flight, so its whole history is in order.
pub proof fn lemma_fresh_master_keeps_program_order(
    config: LiteMasterConfig,
    seed: u64,
    h: Seq<Event>,
    a: u64,
)
    ensures
        ({
            let s = Axi4LiteMasterView::fresh(config, seed);
            &&& presented(s, h, a) + of_addr(run(s, h).ops, a) == program(s, h, a)
            &&& writes_back_directly(s, h, a)
            &&& flights(run(s, h), a) <= 1
        }),
{
    lemma_fresh_has_no_flight(config, seed);
    lemma_accesses_keep_program_order(Axi4LiteMasterView::fresh(config, seed), h, a);
}

/// A reset drops what is in flight, so the history after it is in order,
/// whatever was before.
pub proof fn lemma_reset_master_keeps_program_order(
    before: Axi4LiteMasterView,
    p: Axi4LiteMasterPorts,
    h: Seq<Event>,
    a: u64,
)
    ensures
        ({
            let s = before.clocked(true, p);
            &&& presented(s, h, a) + of_addr(run(s, h).ops, a) == program(s, h, a)
            &&& writes_back_directly(s, h, a)
            &&& flights(run(s, h), a) <= 1
        }),
{
    let s = before.clocked(true, p);
    assert forall|x: u64| flights(s, x) == 0 by {
        assert(b_addrs(s) =~= seq![]);
        assert(r_addrs(s) =~= seq![]);
    }
    lemma_accesses_keep_program_order(s, h, a);
}

proof fn lemma_calls_join(
    s: Axi4LiteMasterView,
    m: Axi4LiteMasterView,
    t: Axi4LiteMasterView,
)
    requires
        one_call(s, m),
        one_call(m, t),
    ensures
        one_call(s, t),
{
    assert(t.ops == s.ops + m.ops.skip(s.ops.len() as int) + t.ops.skip(m.ops.len() as int));
    assert(t.ops =~= s.ops + t.ops.skip(s.ops.len() as int));
    assert(after(s, call(s, t)) =~= t);
}

/// Queueing any access is a call.
pub proof fn lemma_queueing_is_a_call(s: Axi4LiteMasterView, op: OpView)
    ensures
        one_call(s, s.queued(op)),
{
    let t = s.queued(op);
    assert(t.ops =~= s.ops + t.ops.skip(s.ops.len() as int));
    assert(after(s, call(s, t)) =~= t);
}

proof fn lemma_made_up_write_is_a_call(
    s: Axi4LiteMasterView,
    addr: u64,
    data: Seq<u64>,
    strb: Seq<u64>,
    kept: Seq<u64>,
    x: u64,
)
    ensures
        one_call(s, (Axi4LiteMasterView { traffic_lfsr: x, ..s.wrote(addr, data, strb, kept) })),
{
    let t = Axi4LiteMasterView { traffic_lfsr: x, ..s.wrote(addr, data, strb, kept) };
    assert(t.ops =~= s.ops + t.ops.skip(s.ops.len() as int));
    assert(after(s, call(s, t)) =~= t);
}

proof fn lemma_nothing_is_a_call(s: Axi4LiteMasterView)
    ensures
        one_call(s, s),
{
    assert(s.ops =~= s.ops + s.ops.skip(s.ops.len() as int));
    assert(after(s, call(s, s)) =~= s);
}

/// Queueing made-up writes is a call.
pub proof fn lemma_random_writes_are_a_call(s: Axi4LiteMasterView, n: nat, span: u64)
    ensures
        one_call(s, s.random_writes(n, span)),
        one_call(s, s.random_strobed_writes(n, span)),
    decreases n,
{
    if n == 0 {
        lemma_nothing_is_a_call(s);
    } else {
        lemma_random_writes_are_a_call(s, (n - 1) as nat, span);
        let m = s.random_writes((n - 1) as nat, span);
        let width = m.config.width;
        let lanes = lane_count(width);
        let x = xorshift(m.traffic_lfsr);
        lemma_made_up_write_is_a_call(
            m,
            placed(x, span, lanes),
            random_data(x, width),
            full_strobe(width),
            random_data(x, width),
            after_data(x, width),
        );
        lemma_calls_join(s, m, m.random_write(span));
        let m = s.random_strobed_writes((n - 1) as nat, span);
        let width = m.config.width;
        let lanes = lane_count(width);
        let x = xorshift(m.traffic_lfsr);
        let y = after_data(x, width);
        let addr = placed(x, span, lanes);
        let data = random_data(x, width);
        let strb = random_strobe(y, word_count(lanes as u32), lanes as nat);
        lemma_made_up_write_is_a_call(
            m,
            addr,
            data,
            strb,
            merged(m.kept(addr), data, strb, lanes as nat),
            xorshift_nth(y, lanes as nat),
        );
        lemma_calls_join(s, m, m.random_strobed_write(span));
    }
}

/// Queueing made-up accesses is a call.
pub proof fn lemma_random_traffic_is_a_call(
    s: Axi4LiteMasterView,
    n: nat,
    span: u64,
    read_percent: u64,
)
    ensures
        one_call(s, s.random_traffic(n, span, read_percent)),
    decreases n,
{
    if n == 0 {
        lemma_nothing_is_a_call(s);
    } else {
        lemma_random_traffic_is_a_call(s, (n - 1) as nat, span, read_percent);
        let m = s.random_traffic((n - 1) as nat, span, read_percent);
        let t = m.random_access(span, read_percent);
        assert(t.ops =~= m.ops + t.ops.skip(m.ops.len() as int));
        assert(after(m, call(m, t)) =~= t);
        lemma_calls_join(s, m, t);
    }
}

/// Queueing the reads that check what was written is a call.
pub proof fn lemma_verify_all_is_a_call(s: Axi4LiteMasterView, addrs: Seq<u64>)
    ensures
        one_call(s, (Axi4LiteMasterView { ops: s.ops + s.checks(addrs), ..s })),
{
    let t = Axi4LiteMasterView { ops: s.ops + s.checks(addrs), ..s };
    assert(t.ops =~= s.ops + t.ops.skip(s.ops.len() as int));
    assert(after(s, call(s, t)) =~= t);
}

} // verus!
