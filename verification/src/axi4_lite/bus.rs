//! What a master and a memory do together: checked traffic checks out.

use crate::axi4_lite::laws::{
    clean, lemma_random_data_is_clean, lemma_write_keeps_clean, lemma_zeros_are_clean, phases_fit,
    writing,
};
use crate::axi4_lite::master::{Axi4LiteMasterPorts, Axi4LiteMasterView, LiteMasterConfig};
use crate::axi4_lite::op::{
    issuable, left_by, left_by_all, lemma_oldest_access_goes_first, modified, next_issuable,
    LiteMasterFaultView, OpView, ReadView,
};
use crate::axi4_lite::ram::{Axi4LiteRamView, Axi4LiteSlavePorts, LiteRamConfig};
use crate::common::lanes::{
    aligned, lane_count, lemma_aligned_twice, lemma_lanes_fit, lemma_merged_len, merged,
};
use crate::common::random::{stalls, xorshift, xorshift_nth};
use crate::common::resp::OKAY;
use crate::common::stimulus::{
    after_data, full_strobe, lemma_full_write_replaces, lemma_random_strobe_lanes, placed,
    random_data, random_strobe,
};
use crate::common::words::masked;
use crate::value::{top_mask, word_count};
use vstd::prelude::*;

verus! {

/// The word at `a` after an access, where it was `v` before.
pub open spec fn applied(op: OpView, a: u64, v: Seq<u64>, width: u32) -> Seq<u64> {
    match op {
        OpView::Write { addr, data, strb, .. } => if addr == a {
            merged(v, data, strb, lane_count(width) as nat)
        } else {
            v
        },
        OpView::Read(r) => match (r.expect, r.rmw) {
            (None, Some(p)) => if r.addr == a {
                merged(v, modified(v, p.0, p.1), full_strobe(width), lane_count(width) as nat)
            } else {
                v
            },
            _ => v,
        },
    }
}

/// Whether an access that reads `a` expects `v`, if it is checked.
pub open spec fn content_with(op: OpView, a: u64, v: Seq<u64>) -> bool {
    op matches OpView::Read(r) ==> r.addr == a ==> (r.expect matches Some(want) ==> want == v)
}

/// The word at `a` after accesses in program order.
pub open spec fn applied_all(ops: Seq<OpView>, a: u64, v: Seq<u64>, width: u32) -> Seq<u64>
    decreases ops.len(),
{
    if ops.len() == 0 {
        v
    } else {
        applied_all(ops.drop_first(), a, applied(ops[0], a, v, width), width)
    }
}

/// Whether every checked read of `a` expects what is there when the accesses
/// before it have been applied.
pub open spec fn content_all(ops: Seq<OpView>, a: u64, v: Seq<u64>, width: u32) -> bool
    decreases ops.len(),
{
    if ops.len() == 0 {
        true
    } else {
        &&& content_with(ops[0], a, v)
        &&& content_all(ops.drop_first(), a, applied(ops[0], a, v, width), width)
    }
}

/// An access may be taken out of program order where none before it has its
/// address: nothing changes for any address.
proof fn lemma_first_to_its_address_may_go(
    ops: Seq<OpView>,
    i: int,
    a: u64,
    v: Seq<u64>,
    width: u32,
)
    requires
        0 <= i < ops.len(),
        forall|j: int| 0 <= j < i ==> (#[trigger] ops[j]).addr() != ops[i].addr(),
    ensures
        applied_all(ops.remove(i), a, applied(ops[i], a, v, width), width) == applied_all(
            ops,
            a,
            v,
            width,
        ),
        content_all(ops, a, v, width) ==> content_with(ops[i], a, v) && content_all(
            ops.remove(i),
            a,
            applied(ops[i], a, v, width),
            width,
        ),
    decreases i,
{
    if i == 0 {
        assert(ops.remove(0) =~= ops.drop_first());
    } else {
        let rest = ops.drop_first();
        assert(ops[0].addr() != ops[i].addr());
        assert forall|j: int| 0 <= j < i - 1 implies (#[trigger] rest[j]).addr() != rest[i - 1].addr() by {
            assert(rest[j] == ops[j + 1]);
        }
        let u = applied(ops[0], a, v, width);
        lemma_first_to_its_address_may_go(rest, i - 1, a, u, width);
        assert(ops.remove(i).drop_first() =~= rest.remove(i - 1));
        assert(ops.remove(i)[0] == ops[0]);
        assert(applied(ops[0], a, applied(ops[i], a, v, width), width) == applied(
            ops[i],
            a,
            u,
            width,
        ));
    }
}

/// An access queued last is applied last.
proof fn lemma_queued_last(ops: Seq<OpView>, op: OpView, a: u64, v: Seq<u64>, width: u32)
    ensures
        applied_all(ops.push(op), a, v, width) == applied(
            op,
            a,
            applied_all(ops, a, v, width),
            width,
        ),
        content_all(ops.push(op), a, v, width) == (content_all(ops, a, v, width) && content_with(
            op,
            a,
            applied_all(ops, a, v, width),
        )),
    decreases ops.len(),
{
    let all = ops.push(op);
    if ops.len() == 0 {
        assert(all.drop_first() =~= seq![]);
        reveal_with_fuel(applied_all, 2);
        reveal_with_fuel(content_all, 2);
    } else {
        assert(all.drop_first() =~= ops.drop_first().push(op));
        lemma_queued_last(ops.drop_first(), op, a, applied(ops[0], a, v, width), width);
    }
}

/// Whether each port of a master and a memory shows what the other drives.
pub open spec fn wired(
    m: Axi4LiteMasterView,
    r: Axi4LiteRamView,
    p: Axi4LiteMasterPorts,
    q: Axi4LiteSlavePorts,
) -> bool {
    &&& p.awready@.truth() == r.aw_ready
    &&& p.wready@.truth() == r.w_ready
    &&& p.bvalid@.truth() == r.b_valid
    &&& p.bresp == r.b_resp
    &&& p.arready@.truth() == r.ar_ready
    &&& p.rvalid@.truth() == r.r_valid
    &&& p.rdata@ == r.r_data
    &&& q.awvalid@.truth() == m.aw_valid
    &&& q.awaddr == m.aw_addr
    &&& q.wvalid@.truth() == m.w_valid
    &&& q.wdata@ == m.w_data
    &&& q.wstrb@ == m.w_strb
    &&& q.bready@.truth() == m.b_ready
    &&& q.arvalid@.truth() == m.ar_valid
    &&& q.araddr == m.ar_addr
    &&& q.rready@.truth() == m.r_ready
}

/// Whether a memory has taken both halves of a write and not applied it.
pub open spec fn holds_write(r: Axi4LiteRamView) -> bool {
    r.have_aw && r.have_w
}

/// Whether a memory has taken a read and its data was not taken.
pub open spec fn holds_read(r: Axi4LiteRamView) -> bool {
    r.r_valid || r.read_delay is Some
}

/// The word at `a` once the access to it that is in flight, if any, has been
/// applied, and what a read-modify-write makes of its data was written back.
pub open spec fn settled_at(m: Axi4LiteMasterView, r: Axi4LiteRamView, a: u64) -> Seq<u64> {
    let lanes = lane_count(r.mem.width) as nat;
    if holds_write(r) && r.addr == a {
        merged(r.mem.at(a), r.data, r.strb, lanes)
    } else if writing(m) && m.cur_w.addr == a {
        merged(r.mem.at(a), m.w_data, m.w_strb, lanes)
    } else if m.ar_valid && m.cur_ar.addr == a {
        applied(OpView::Read(m.cur_ar), a, r.mem.at(a), r.mem.width)
    } else if holds_read(r) && r.r_addr == a {
        applied(OpView::Read(m.r_expect[0]), a, r.mem.at(a), r.mem.width)
    } else {
        r.mem.at(a)
    }
}

/// Whether an access is to a whole word and, for a write, as wide as the bus.
pub open spec fn whole(op: OpView, width: u32) -> bool {
    &&& aligned(op.addr(), lane_count(width)) == op.addr()
    &&& match op {
        OpView::Write { data, strb, .. } => data.len() == word_count(width) && strb.len()
            == word_count(lane_count(width) as u32),
        OpView::Read(_) => true,
    }
}

/// A memory that answers every access with OKAY.
pub open spec fn answers_okay(r: Axi4LiteRamView) -> bool {
    &&& r.mem.size is None
    &&& r.mem.errors == Map::<u64, u64>::empty()
    &&& r.readonly.len() == 0
}

/// Whether master and memory agree on what is in flight.
pub open spec fn linked(m: Axi4LiteMasterView, r: Axi4LiteRamView) -> bool {
    &&& r.wf()
    &&& answers_okay(r)
    &&& m.config.width == r.config.width
    &&& phases_fit(m)
    // Writes: answered, taken, half taken.
    &&& m.b_expect.len() == (if r.b_valid {
        1int
    } else {
        0int
    }) + (if holds_write(r) {
        1int
    } else {
        0int
    })
    &&& if holds_write(r) {
        &&& !m.aw_acked && !m.w_acked
        &&& r.addr == m.b_expect.last().addr
    } else {
        &&& r.have_aw == m.aw_acked
        &&& r.have_w == m.w_acked
        &&& r.have_aw ==> r.addr == m.cur_w.addr
        &&& r.have_w ==> r.data == m.w_data && r.strb == m.w_strb
    }
    &&& r.write_delay is Some ==> holds_write(r) && !r.b_valid
    &&& r.b_valid ==> r.b_resp == OKAY
    &&& r.r_valid ==> r.r_resp == OKAY
    &&& m.aw_valid ==> m.aw_addr == m.cur_w.addr
    &&& writing(m) ==> m.w_data.len() == word_count(r.mem.width) && m.w_strb.len() == word_count(
        lane_count(r.mem.width) as u32,
    )
    // Reads: offered, taken.
    &&& m.r_expect.len() == (if holds_read(r) {
        1int
    } else {
        0int
    })
    &&& !(r.r_valid && r.read_delay is Some)
    &&& holds_read(r) ==> r.r_addr == m.r_expect[0].addr
    &&& m.ar_valid ==> m.ar_addr == m.cur_ar.addr
    // What is queued.
    &&& forall|i: int| 0 <= i < m.ops.len() ==> whole(#[trigger] m.ops[i], r.mem.width)
}

/// Whether the accesses in flight have different addresses, which the master
/// knows and which are whole words.
pub open spec fn apart(m: Axi4LiteMasterView, r: Axi4LiteRamView) -> bool {
    let lanes = lane_count(r.mem.width);
    &&& forall|i: int|
        0 <= i < m.b_expect.len() ==> m.inflight.contains((#[trigger] m.b_expect[i]).addr)
            && aligned(m.b_expect[i].addr, lanes) == m.b_expect[i].addr && (writing(m)
            ==> m.b_expect[i].addr != m.cur_w.addr) && (m.ar_valid ==> m.b_expect[i].addr
            != m.cur_ar.addr) && (holds_read(r) ==> m.b_expect[i].addr != r.r_addr)
    &&& m.b_expect.len() == 2 ==> m.b_expect[0].addr != m.b_expect[1].addr
    &&& writing(m) ==> {
        &&& m.inflight.contains(m.cur_w.addr)
        &&& aligned(m.cur_w.addr, lanes) == m.cur_w.addr
        &&& m.ar_valid ==> m.cur_w.addr != m.cur_ar.addr
        &&& holds_read(r) ==> m.cur_w.addr != r.r_addr
    }
    &&& m.ar_valid ==> {
        &&& m.inflight.contains(m.cur_ar.addr)
        &&& aligned(m.cur_ar.addr, lanes) == m.cur_ar.addr
        &&& holds_read(r) ==> m.cur_ar.addr != r.r_addr
    }
    &&& holds_read(r) ==> m.inflight.contains(r.r_addr) && aligned(r.r_addr, lanes) == r.r_addr
}

/// Whether a read expects `v`, if it is checked.
pub open spec fn read_content(read: ReadView, v: Seq<u64>) -> bool {
    read.expect matches Some(want) ==> want == v
}

/// Whether every checked read, queued or in flight, expects what it gets.
pub open spec fn sound(m: Axi4LiteMasterView, r: Axi4LiteRamView) -> bool {
    &&& forall|a: u64|
        aligned(a, lane_count(r.mem.width)) == a ==> #[trigger] content_all(
            m.ops,
            a,
            settled_at(m, r, a),
            r.mem.width,
        )
    &&& m.ar_valid ==> read_content(m.cur_ar, r.mem.at(m.cur_ar.addr))
    &&& holds_read(r) ==> read_content(m.r_expect[0], r.mem.at(r.r_addr))
    &&& r.r_valid ==> r.r_data == r.mem.at(r.r_addr)
}

/// The word at `a` once everything queued and in flight has been applied.
pub open spec fn final_at(m: Axi4LiteMasterView, r: Axi4LiteRamView, a: u64) -> Seq<u64> {
    applied_all(m.ops, a, settled_at(m, r, a), r.mem.width)
}

/// Whether a memory takes nothing that it has no room for.
pub open spec fn guarded(r: Axi4LiteRamView) -> bool {
    &&& r.aw_ready ==> !r.have_aw
    &&& r.w_ready ==> !r.have_w
    &&& r.ar_ready ==> !holds_read(r)
}

/// Whether master and memory are in step: they agree on what is in flight, and
/// every checked read expects what the memory will answer.
pub open spec fn in_step(m: Axi4LiteMasterView, r: Axi4LiteRamView) -> bool {
    linked(m, r) && apart(m, r) && sound(m, r)
}

/// Whether the words that everything comes to are the same.
pub open spec fn same_end(
    m: Axi4LiteMasterView,
    r: Axi4LiteRamView,
    n: Axi4LiteMasterView,
    t: Axi4LiteRamView,
) -> bool {
    forall|a: u64|
        aligned(a, lane_count(r.mem.width)) == a ==> #[trigger] final_at(n, t, a) == final_at(m, r, a)
}

proof fn lemma_handover(
    m: Axi4LiteMasterView,
    r: Axi4LiteRamView,
    p: Axi4LiteMasterPorts,
    q: Axi4LiteSlavePorts,
)
    requires
        in_step(m, r),
        guarded(r),
        wired(m, r, p, q),
    ensures
        ({
            let n = m.drawn().write_moved(p).b_received(m.b_fires(p), p.bresp);
            let t = r.drawn().captured(q);
            &&& in_step(n, t)
            &&& same_end(m, r, n, t)
            &&& m.drawn().write_moved(p).b_faults(m.b_fires(p), p.bresp) == Seq::<
                LiteMasterFaultView,
            >::empty()
        }),
{
    let m1 = m.drawn().write_moved(p);
    let n = m1.b_received(m.b_fires(p), p.bresp);
    let t = r.drawn().captured(q);
    assert(crate::common::words::extended(m.w_data, word_count(r.config.width)) =~= m.w_data || !m.w_valid);
    assert(crate::common::words::extended(m.w_strb, word_count(lane_count(r.config.width) as u32)) =~= m.w_strb || !m.w_valid);
    assert(linked(n, t));
    assert(apart(n, t));
    assert forall|a: u64| aligned(a, lane_count(r.mem.width)) == a implies #[trigger] settled_at(n, t, a)
        == settled_at(m, r, a) by {}
    assert(n.ops == m.ops);
}

proof fn lemma_commit(m: Axi4LiteMasterView, r: Axi4LiteRamView)
    requires
        in_step(m, r),
    ensures
        in_step(m, r.write_started().write_timed()),
        same_end(m, r, m, r.write_started().write_timed()),
{
    let u = r.write_started();
    let t = u.write_timed();
    lemma_lanes_fit(r.mem.width);
    lemma_merged_len(r.mem.at(r.addr), r.data, r.strb, lane_count(r.mem.width) as nat);
    assert(!u.refuses(u.addr, u.strb));
    assert(linked(m, t));
    assert(apart(m, t));
    assert forall|a: u64| aligned(a, lane_count(r.mem.width)) == a implies #[trigger] settled_at(m, t, a)
        == settled_at(m, r, a) by {}
}

proof fn lemma_issue_write(m: Axi4LiteMasterView, r: Axi4LiteRamView)
    requires
        in_step(m, r),
    ensures
        in_step(m.write_issued(), r),
        same_end(m, r, m.write_issued(), r),
{
    let n = m.write_issued();
    lemma_oldest_access_goes_first(m.ops, m.inflight, true);
    if n != m {
        let i = next_issuable(m.ops, m.inflight, true, 0)->0;
        let op = m.ops[i];
        assert(issuable(m.ops, m.inflight, true, i));
        assert(whole(op, r.mem.width));
        assert(n.ops == m.ops.remove(i));
        assert(linked(n, r));
        assert(apart(n, r));
        assert forall|a: u64| aligned(a, lane_count(r.mem.width)) == a implies {
            &&& #[trigger] content_all(n.ops, a, settled_at(n, r, a), r.mem.width)
            &&& final_at(n, r, a) == final_at(m, r, a)
        } by {
            let v = settled_at(m, r, a);
            assert(content_all(m.ops, a, v, r.mem.width));
            lemma_first_to_its_address_may_go(m.ops, i, a, v, r.mem.width);
            assert(settled_at(n, r, a) == applied(op, a, v, r.mem.width));
        }
        assert forall|a: u64| aligned(a, lane_count(r.mem.width)) == a implies #[trigger] final_at(n, r, a)
            == final_at(m, r, a) by {
            assert(content_all(n.ops, a, settled_at(n, r, a), r.mem.width));
        }
    }
}

proof fn lemma_issue_read(m: Axi4LiteMasterView, r: Axi4LiteRamView)
    requires
        in_step(m, r),
    ensures
        in_step(m.read_issued(), r),
        same_end(m, r, m.read_issued(), r),
{
    let n = m.read_issued();
    lemma_oldest_access_goes_first(m.ops, m.inflight, false);
    if n != m {
        let i = next_issuable(m.ops, m.inflight, false, 0)->0;
        let op = m.ops[i];
        assert(issuable(m.ops, m.inflight, false, i));
        assert(whole(op, r.mem.width));
        assert(n.ops == m.ops.remove(i));
        assert(linked(n, r));
        assert(apart(n, r));
        assert forall|a: u64| aligned(a, lane_count(r.mem.width)) == a implies {
            &&& #[trigger] content_all(n.ops, a, settled_at(n, r, a), r.mem.width)
            &&& final_at(n, r, a) == final_at(m, r, a)
            &&& content_with(op, a, settled_at(m, r, a))
        } by {
            let v = settled_at(m, r, a);
            assert(content_all(m.ops, a, v, r.mem.width));
            lemma_first_to_its_address_may_go(m.ops, i, a, v, r.mem.width);
            assert(settled_at(n, r, a) == applied(op, a, v, r.mem.width));
        }
        assert forall|a: u64| aligned(a, lane_count(r.mem.width)) == a implies #[trigger] final_at(n, r, a)
            == final_at(m, r, a) by {
            assert(content_all(n.ops, a, settled_at(n, r, a), r.mem.width));
        }
        let a = op.addr();
        assert(content_all(n.ops, a, settled_at(n, r, a), r.mem.width));
        assert(settled_at(m, r, a) == r.mem.at(a));
    }
}

proof fn lemma_read_handover(
    m: Axi4LiteMasterView,
    r: Axi4LiteRamView,
    q: Axi4LiteSlavePorts,
    data: Seq<u64>,
)
    requires
        in_step(m, r),
        r.ar_ready ==> !holds_read(r),
        q.arvalid@.truth() == m.ar_valid,
        q.araddr == m.ar_addr,
        q.rready@.truth() == m.r_ready,
        r.r_valid ==> data == r.r_data,
    ensures
        ({
            let m1 = m.ar_taken(m.ar_valid && r.ar_ready);
            let n = m1.r_received(m.r_ready && r.r_valid, data);
            let t = r.read_started(q);
            &&& in_step(n, t)
            &&& same_end(m, r, n, t)
            &&& agreed(m, r) ==> agreed(n, t)
            &&& m1.r_faults(m.r_ready && r.r_valid, data) == Seq::<LiteMasterFaultView>::empty()
        }),
{
    let m1 = m.ar_taken(m.ar_valid && r.ar_ready);
    let n = m1.r_received(m.r_ready && r.r_valid, data);
    let t = r.read_started(q);
    let width = r.mem.width;
    let back = m.r_ready && r.r_valid && OpView::Read(m.r_expect[0]).changes();
    assert(linked(n, t));
    assert(apart(n, t));
    if back {
        lemma_write_back(m, r, n, t, data);
    } else {
        assert forall|a: u64| aligned(a, lane_count(width)) == a implies #[trigger] settled_at(n, t, a)
            == settled_at(m, r, a) by {}
        assert(n.ops == m.ops);
        assert(same_end(m, r, n, t));
        if agreed(m, r) {
            lemma_agreed_carries(m, r, n, t);
        }
    }
}

/// The data of a read-modify-write comes: the write-back that is queued first
/// of all leaves what the read was to leave.
proof fn lemma_write_back(
    m: Axi4LiteMasterView,
    r: Axi4LiteRamView,
    n: Axi4LiteMasterView,
    t: Axi4LiteRamView,
    data: Seq<u64>,
)
    requires
        in_step(m, r),
        linked(n, t),
        apart(n, t),
        r.r_valid,
        data == r.r_data,
        OpView::Read(m.r_expect[0]).changes(),
        n == m.r_received(true, data),
        t == (Axi4LiteRamView { r_valid: false, ..r }),
    ensures
        in_step(n, t),
        same_end(m, r, n, t),
        agreed(m, r) ==> agreed(n, t),
{
    let width = r.mem.width;
    let lanes = lane_count(width);
    let read = m.r_expect[0];
    let p = read.rmw->0;
    let w = OpView::Write {
        addr: read.addr,
        data: modified(data, p.0, p.1),
        strb: full_strobe(width),
        expect_ok: true,
    };
    assert(n.ops == seq![w] + m.ops);
    assert(n.ops.drop_first() =~= m.ops);
    assert(n.ops[0] == w);
    assert forall|a: u64| aligned(a, lanes) == a implies {
        &&& #[trigger] content_all(n.ops, a, settled_at(n, t, a), width)
        &&& final_at(n, t, a) == final_at(m, r, a)
    } by {
        assert(content_all(m.ops, a, settled_at(m, r, a), width));
        assert(applied(w, a, settled_at(n, t, a), width) == settled_at(m, r, a));
    }
    assert forall|a: u64| aligned(a, lanes) == a implies #[trigger] final_at(n, t, a) == final_at(
        m,
        r,
        a,
    ) by {
        assert(content_all(n.ops, a, settled_at(n, t, a), width));
    }
    if agreed(m, r) {
        assert forall|a: u64| aligned(a, lanes) == a implies n.recorded(a) == #[trigger] final_at(
            n,
            t,
            a,
        ) by {
            assert(m.recorded(a) == final_at(m, r, a));
            if a == read.addr {
                assert(settled_at(n, t, a) == data);
                lemma_left_is_applied(n.ops, a, data, width);
            }
        }
    }
}

/// What the master works out from the queue is what the queue comes to.
proof fn lemma_left_is_applied(ops: Seq<OpView>, a: u64, v: Seq<u64>, width: u32)
    requires
        aligned(a, lane_count(width)) == a,
        forall|i: int| 0 <= i < ops.len() ==> whole(#[trigger] ops[i], width),
    ensures
        left_by_all(ops, a, v, width) == applied_all(ops, a, v, width),
    decreases ops.len(),
{
    if ops.len() > 0 {
        let rest = ops.drop_last();
        let op = ops.last();
        assert forall|i: int| 0 <= i < rest.len() implies whole(#[trigger] rest[i], width) by {
            assert(rest[i] == ops[i]);
        }
        lemma_left_is_applied(rest, a, v, width);
        assert(ops =~= rest.push(op));
        lemma_queued_last(rest, op, a, v, width);
        assert(whole(ops[ops.len() - 1], width));
    }
}

/// The record stays what everything comes to where neither changes.
proof fn lemma_agreed_carries(
    m: Axi4LiteMasterView,
    r: Axi4LiteRamView,
    n: Axi4LiteMasterView,
    t: Axi4LiteRamView,
)
    requires
        agreed(m, r),
        same_end(m, r, n, t),
        n.latest == m.latest,
        n.config == m.config,
        t.mem.width == r.mem.width,
    ensures
        agreed(n, t),
{
    assert forall|a: u64| aligned(a, lane_count(t.mem.width)) == a implies n.recorded(a)
        == #[trigger] final_at(n, t, a) by {
        assert(final_at(m, r, a) == m.recorded(a));
    }
}

proof fn lemma_read_answer(m: Axi4LiteMasterView, r: Axi4LiteRamView)
    requires
        in_step(m, r),
    ensures
        in_step(m, r.read_timed()),
        same_end(m, r, m, r.read_timed()),
{
    let t = r.read_timed();
    assert(linked(m, t));
    assert(apart(m, t));
    assert forall|a: u64| aligned(a, lane_count(r.mem.width)) == a implies #[trigger] settled_at(m, t, a)
        == settled_at(m, r, a) by {}
}

/// The memory after the write half of a cycle.
spec fn write_half(r: Axi4LiteRamView, q: Axi4LiteSlavePorts) -> Axi4LiteRamView {
    r.drawn().captured(q).write_started().write_timed()
}

proof fn lemma_write_half_leaves_reads(
    m: Axi4LiteMasterView,
    r: Axi4LiteRamView,
    p: Axi4LiteMasterPorts,
    q: Axi4LiteSlavePorts,
    stall: bool,
)
    ensures
        ({
            let n = m.drawn().write_cycle(p, stall);
            let t = write_half(r, q);
            &&& n.config == m.config && n.latest == m.latest
            &&& n.ar_valid == m.ar_valid && n.ar_addr == m.ar_addr && n.r_ready == m.r_ready
            &&& t.ar_ready == r.ar_ready && t.r_valid == r.r_valid && t.r_data == r.r_data
            &&& t.read_delay == r.read_delay && t.r_addr == r.r_addr
            &&& t.mem.width == r.mem.width && t.config == r.config
        }),
{
}

proof fn lemma_write_half(
    m: Axi4LiteMasterView,
    r: Axi4LiteRamView,
    p: Axi4LiteMasterPorts,
    q: Axi4LiteSlavePorts,
    stall: bool,
)
    requires
        in_step(m, r),
        guarded(r),
        wired(m, r, p, q),
    ensures
        ({
            let n = m.drawn().write_cycle(p, stall);
            let t = write_half(r, q);
            &&& in_step(n, t)
            &&& same_end(m, r, n, t)
            &&& m.drawn().write_moved(p).b_faults(m.b_fires(p), p.bresp) == Seq::<
                LiteMasterFaultView,
            >::empty()
        }),
{
    let m1 = m.drawn().write_moved(p).b_received(m.b_fires(p), p.bresp);
    let r1 = r.drawn().captured(q);
    lemma_handover(m, r, p, q);
    let r2 = write_half(r, q);
    lemma_commit(m1, r1);
    let m2 = m1.write_issued();
    lemma_issue_write(m1, r2);
    let n = m.drawn().write_cycle(p, stall);
    lemma_same_step(m2, r2, n, r2);
    lemma_same_end_joins(m, r, m1, r1, m1, r2);
    lemma_same_end_joins(m, r, m1, r2, m2, r2);
    lemma_same_end_joins(m, r, m2, r2, n, r2);
}

proof fn lemma_same_end_joins(
    m: Axi4LiteMasterView,
    r: Axi4LiteRamView,
    n: Axi4LiteMasterView,
    t: Axi4LiteRamView,
    o: Axi4LiteMasterView,
    u: Axi4LiteRamView,
)
    requires
        same_end(m, r, n, t),
        same_end(n, t, o, u),
        t.mem.width == r.mem.width,
    ensures
        same_end(m, r, o, u),
{
    assert forall|a: u64| aligned(a, lane_count(r.mem.width)) == a implies #[trigger] final_at(o, u, a)
        == final_at(m, r, a) by {
        assert(final_at(n, t, a) == final_at(m, r, a));
    }
}

proof fn lemma_read_half(
    m: Axi4LiteMasterView,
    r: Axi4LiteRamView,
    p: Axi4LiteMasterPorts,
    q: Axi4LiteSlavePorts,
    stall: bool,
    late: bool,
)
    requires
        in_step(m, r),
        r.ar_ready ==> !holds_read(r),
        q.arvalid@.truth() == m.ar_valid,
        q.araddr == m.ar_addr,
        q.rready@.truth() == m.r_ready,
        p.arready@.truth() == r.ar_ready,
        p.rvalid@.truth() == r.r_valid,
        p.rdata@ == r.r_data,
    ensures
        ({
            let n = m.read_cycle(p, stall);
            let t = r.read_started(q).read_timed().readied(late);
            &&& in_step(n, t)
            &&& guarded(t)
            &&& same_end(m, r, n, t)
            &&& agreed(m, r) ==> agreed(n, t)
            &&& n.config == m.config && t.mem.width == r.mem.width
            &&& m.ar_taken(m.ar_valid && p.arready@.truth()).r_faults(m.r_fires(p), m.r_data(p))
                == Seq::<LiteMasterFaultView>::empty()
        }),
{
    let data = m.r_data(p);
    assert(r.r_valid ==> data =~= r.r_data) by {
        assert(r.r_valid ==> r.mem.at(r.r_addr).len() == word_count(r.mem.width));
    }
    let m1 = m.ar_taken(m.ar_valid && r.ar_ready).r_received(m.r_ready && r.r_valid, data);
    let r1 = r.read_started(q);
    lemma_read_handover(m, r, q, data);
    let r2 = r1.read_timed();
    lemma_read_answer(m1, r1);
    let m2 = m1.read_issued();
    lemma_issue_read(m1, r2);
    let n = m.read_cycle(p, stall);
    let t = r2.readied(late);
    lemma_same_step(m2, r2, n, t);
    lemma_same_end_joins(m, r, m1, r1, m1, r2);
    lemma_same_end_joins(m, r, m1, r2, m2, r2);
    lemma_same_end_joins(m, r, m2, r2, n, t);
    if agreed(m, r) {
        lemma_same_end_joins(m1, r1, m1, r2, m2, r2);
        lemma_same_end_joins(m1, r1, m2, r2, n, t);
        lemma_agreed_carries(m1, r1, n, t);
    }
}

/// Master and memory stay in step: in a cycle in which each sees what the other
/// drives, the master has nothing to report, and the words that everything
/// queued and in flight comes to stay the same.
pub proof fn lemma_cycle_keeps_in_step(
    m: Axi4LiteMasterView,
    r: Axi4LiteRamView,
    p: Axi4LiteMasterPorts,
    q: Axi4LiteSlavePorts,
)
    requires
        in_step(m, r),
        guarded(r),
        wired(m, r, p, q),
    ensures
        ({
            let n = m.clocked(false, p);
            let t = r.clocked(false, q);
            &&& m.faults(false, p) == Seq::<LiteMasterFaultView>::empty()
            &&& in_step(n, t)
            &&& guarded(t)
            &&& same_end(m, r, n, t)
            &&& agreed(m, r) ==> agreed(n, t)
            &&& n.config == m.config && t.mem.width == r.mem.width
        }),
{
    let stall = stalls(m.lfsr, m.config.stall);
    let m1 = m.drawn().write_cycle(p, stall);
    let r1 = write_half(r, q);
    lemma_write_half(m, r, p, q, stall);
    lemma_write_half_leaves_reads(m, r, p, q, stall);
    if agreed(m, r) {
        lemma_agreed_carries(m, r, m1, r1);
    }
    let late = stalls(r.lfsr, r.config.stall);
    lemma_read_half(m1, r1, p, q, stall, late);
    let n = m.clocked(false, p);
    let t = r.clocked(false, q);
    assert(n == m1.read_cycle(p, stall));
    assert(t == r1.read_started(q).read_timed().readied(late));
    lemma_same_end_joins(m, r, m1, r1, n, t);
    assert(m.faults(false, p) =~= Seq::<LiteMasterFaultView>::empty());
}

/// The READY lines are not part of what is in step.
proof fn lemma_same_step(
    m: Axi4LiteMasterView,
    r: Axi4LiteRamView,
    n: Axi4LiteMasterView,
    t: Axi4LiteRamView,
)
    requires
        in_step(m, r),
        n == (Axi4LiteMasterView { b_ready: n.b_ready, r_ready: n.r_ready, ..m }),
        t == (Axi4LiteRamView {
            aw_ready: t.aw_ready,
            w_ready: t.w_ready,
            ar_ready: t.ar_ready,
            ..r
        }),
    ensures
        in_step(n, t),
        same_end(m, r, n, t),
{
    assert forall|a: u64| aligned(a, lane_count(r.mem.width)) == a implies #[trigger] settled_at(n, t, a)
        == settled_at(m, r, a) by {}
}

/// A fresh master and a fresh memory without an end are in step.
pub proof fn lemma_fresh_pair_is_in_step(
    config: LiteMasterConfig,
    seed: u64,
    ram: LiteRamConfig,
    ram_seed: u64,
)
    requires
        config.width == ram.width,
        ram.size is None,
    ensures
        ({
            let m = Axi4LiteMasterView::fresh(config, seed);
            let r = Axi4LiteRamView::fresh(ram, ram_seed);
            &&& in_step(m, r) && guarded(r) && agreed(m, r)
            &&& forall|a: u64| aligned(a, lane_count(ram.width)) == a ==> #[trigger] backed(m, r, a)
        }),
{
    lemma_zeros_are_clean(ram.width);
}

/// A reset of both leaves them in step: nothing is queued or in flight, and the
/// memory keeps its words.
pub proof fn lemma_reset_keeps_in_step(
    m: Axi4LiteMasterView,
    r: Axi4LiteRamView,
    p: Axi4LiteMasterPorts,
    q: Axi4LiteSlavePorts,
)
    requires
        r.wf(),
        answers_okay(r),
        m.config.width == r.config.width,
    ensures
        in_step(m.clocked(true, p), r.clocked(true, q)),
        guarded(r.clocked(true, q)),
        r.clocked(true, q).mem == r.mem,
{
}

/// An access to a whole word may be queued at any time: a write, a
/// read-modify-write, or a read that is not checked or that expects what
/// everything queued and in flight comes to.
pub proof fn lemma_queueing_keeps_in_step(m: Axi4LiteMasterView, r: Axi4LiteRamView, op: OpView)
    requires
        in_step(m, r),
        whole(op, r.mem.width),
        op matches OpView::Read(read) ==> read_content(read, final_at(m, r, read.addr)),
    ensures
        in_step(m.queued(op), r),
        forall|a: u64| #[trigger]
            final_at(m.queued(op), r, a) == applied(op, a, final_at(m, r, a), r.mem.width),
{
    let n = m.queued(op);
    let width = r.mem.width;
    assert(linked(n, r));
    assert(apart(n, r));
    assert forall|a: u64| #[trigger] settled_at(n, r, a) == settled_at(m, r, a) by {}
    assert forall|a: u64| #[trigger]
        final_at(n, r, a) == applied(op, a, final_at(m, r, a), width) by {
        lemma_queued_last(m.ops, op, a, settled_at(m, r, a), width);
    }
    assert forall|a: u64| aligned(a, lane_count(width)) == a implies #[trigger] content_all(
        n.ops,
        a,
        settled_at(n, r, a),
        width,
    ) by {
        assert(content_all(m.ops, a, settled_at(m, r, a), width));
        lemma_queued_last(m.ops, op, a, settled_at(m, r, a), width);
    }
}

/// Whether the latest values that the master knows are what everything queued
/// and in flight comes to.
pub open spec fn agreed(m: Axi4LiteMasterView, r: Axi4LiteRamView) -> bool {
    let width = r.mem.width;
    &&& forall|a: u64|
        aligned(a, lane_count(width)) == a ==> m.recorded(a) == #[trigger] final_at(m, r, a)
    &&& forall|a: u64| #[trigger]
        m.latest.contains_key(a) ==> aligned(a, lane_count(width)) == a
}

/// What is queued is recorded: any write to a whole word, with any strobe, any
/// read-modify-write and any read keep the record what everything queued and in
/// flight comes to.
pub proof fn lemma_queueing_keeps_agreed(m: Axi4LiteMasterView, r: Axi4LiteRamView, op: OpView)
    requires
        in_step(m, r),
        agreed(m, r),
        whole(op, r.mem.width),
        op matches OpView::Read(read) ==> read_content(read, final_at(m, r, read.addr)),
    ensures
        in_step(m.queued(op), r),
        agreed(m.queued(op), r),
{
    let n = m.queued(op);
    let width = r.mem.width;
    lemma_queueing_keeps_in_step(m, r, op);
    assert forall|a: u64| aligned(a, lane_count(width)) == a implies n.recorded(a)
        == #[trigger] final_at(n, r, a) by {
        assert(final_at(n, r, a) == applied(op, a, final_at(m, r, a), width));
        assert(m.recorded(a) == final_at(m, r, a));
        assert(left_by(op, a, m.recorded(a), width) == applied(op, a, m.recorded(a), width));
    }
}

/// The generator and what is to be read back are not part of what is in step.
proof fn lemma_same_queue(m: Axi4LiteMasterView, r: Axi4LiteRamView, n: Axi4LiteMasterView)
    requires
        in_step(m, r),
        agreed(m, r),
        n == (Axi4LiteMasterView { traffic_lfsr: n.traffic_lfsr, shadow: n.shadow, ..m }),
    ensures
        in_step(n, r),
        agreed(n, r),
{
    let width = r.mem.width;
    assert forall|a: u64| #[trigger] settled_at(n, r, a) == settled_at(m, r, a) by {}
    assert(linked(n, r));
    assert(apart(n, r));
    assert(sound(n, r)) by {
        assert forall|a: u64| aligned(a, lane_count(width)) == a implies #[trigger] content_all(
            n.ops,
            a,
            settled_at(n, r, a),
            width,
        ) by {
            assert(content_all(m.ops, a, settled_at(m, r, a), width));
        }
    }
    assert forall|a: u64| aligned(a, lane_count(width)) == a implies n.recorded(a)
        == #[trigger] final_at(n, r, a) by {
        assert(m.recorded(a) == final_at(m, r, a));
        assert(final_at(n, r, a) == final_at(m, r, a));
    }
}

proof fn lemma_made_up_write_is_recorded(
    m: Axi4LiteMasterView,
    r: Axi4LiteRamView,
    x: u64,
    span: u64,
    data: Seq<u64>,
    strb: Seq<u64>,
    kept: Seq<u64>,
    n: Axi4LiteMasterView,
)
    requires
        in_step(m, r),
        agreed(m, r),
        data.len() == word_count(r.mem.width),
        strb.len() == word_count(lane_count(r.mem.width) as u32),
        n == (Axi4LiteMasterView {
            traffic_lfsr: n.traffic_lfsr,
            ..m.wrote(placed(x, span, lane_count(r.mem.width)), data, strb, kept)
        }),
    ensures
        in_step(n, r),
        agreed(n, r),
{
    let addr = placed(x, span, lane_count(r.mem.width));
    let op = OpView::Write { addr, data, strb, expect_ok: true };
    lemma_aligned_twice(x % span, lane_count(r.mem.width));
    lemma_queueing_keeps_agreed(m, r, op);
    lemma_same_queue(m.queued(op), r, n);
}

/// Random writes may be queued at any time: what the master records of them is
/// what the memory will hold.
pub proof fn lemma_random_writes_keep_in_step(
    m: Axi4LiteMasterView,
    r: Axi4LiteRamView,
    n: nat,
    span: u64,
)
    requires
        in_step(m, r),
        agreed(m, r),
    ensures
        in_step(m.random_writes(n, span), r),
        agreed(m.random_writes(n, span), r),
    decreases n,
{
    if n > 0 {
        let k = m.random_writes((n - 1) as nat, span);
        lemma_random_writes_keep_in_step(m, r, (n - 1) as nat, span);
        let x = xorshift(k.traffic_lfsr);
        let width = r.mem.width;
        let data = random_data(x, width);
        let t = k.random_write(span);
        lemma_made_up_write_is_recorded(k, r, x, span, data, full_strobe(width), data, t);
    }
}

/// Random strobed writes may be queued at any time: the merge that the master
/// records is the merge that the memory will make.
pub proof fn lemma_random_strobed_writes_keep_in_step(
    m: Axi4LiteMasterView,
    r: Axi4LiteRamView,
    n: nat,
    span: u64,
)
    requires
        in_step(m, r),
        agreed(m, r),
    ensures
        in_step(m.random_strobed_writes(n, span), r),
        agreed(m.random_strobed_writes(n, span), r),
    decreases n,
{
    if n > 0 {
        let k = m.random_strobed_writes((n - 1) as nat, span);
        lemma_random_strobed_writes_keep_in_step(m, r, (n - 1) as nat, span);
        let width = r.mem.width;
        let lanes = lane_count(width);
        let x = xorshift(k.traffic_lfsr);
        let data = random_data(x, width);
        let y = after_data(x, width);
        let strb = random_strobe(y, word_count(lanes as u32), lanes as nat);
        lemma_random_strobe_lanes(y, word_count(lanes as u32), lanes as nat, 0);
        let t = k.random_strobed_write(span);
        let kept = merged(k.kept(placed(x, span, lanes)), data, strb, lanes as nat);
        lemma_made_up_write_is_recorded(k, r, x, span, data, strb, kept, t);
    }
}

/// Random traffic may be queued at any time: every read in it expects what the
/// memory will answer.
pub proof fn lemma_random_traffic_keeps_in_step(
    m: Axi4LiteMasterView,
    r: Axi4LiteRamView,
    n: nat,
    span: u64,
    read_percent: u64,
)
    requires
        in_step(m, r),
        agreed(m, r),
    ensures
        in_step(m.random_traffic(n, span, read_percent), r),
        agreed(m.random_traffic(n, span, read_percent), r),
    decreases n,
{
    if n > 0 {
        let k = m.random_traffic((n - 1) as nat, span, read_percent);
        lemma_random_traffic_keeps_in_step(m, r, (n - 1) as nat, span, read_percent);
        let o = k.random_access(span, read_percent);
        let x = xorshift(k.traffic_lfsr);
        let y = xorshift(x);
        let width = r.mem.width;
        if y % 100 < read_percent {
            let a = placed(x, span, lane_count(width));
            let op = OpView::Read(ReadView { addr: a, expect: Some(k.recorded(a)), rmw: None });
            lemma_aligned_twice(x % span, lane_count(width));
            assert(k.recorded(a) == final_at(k, r, a));
            lemma_queueing_keeps_agreed(k, r, op);
            lemma_same_queue(k.queued(op), r, o);
        } else {
            let data = random_data(y, width);
            lemma_made_up_write_is_recorded(k, r, x, span, data, full_strobe(width), data, o);
        }
    }
}

/// Whether no read-modify-write of `a` is queued or in flight.
pub open spec fn no_rmw(m: Axi4LiteMasterView, a: u64) -> bool {
    &&& forall|i: int|
        0 <= i < m.ops.len() && (#[trigger] m.ops[i]).addr() == a && m.ops[i] is Read
            ==> !m.ops[i].changes()
    &&& m.ar_valid && m.cur_ar.addr == a ==> !OpView::Read(m.cur_ar).changes()
    &&& forall|i: int|
        0 <= i < m.r_expect.len() && (#[trigger] m.r_expect[i]).addr == a ==> !OpView::Read(
            m.r_expect[i],
        ).changes()
}

/// Whether what is to be read back at `a` is what everything queued and in
/// flight comes to there.
pub open spec fn backed(m: Axi4LiteMasterView, r: Axi4LiteRamView, a: u64) -> bool {
    let width = r.mem.width;
    &&& m.config.width == width
    &&& aligned(a, lane_count(width)) == a
    &&& m.kept(a) == final_at(m, r, a)
    &&& clean(m.kept(a), width)
    &&& no_rmw(m, a)
}

proof fn lemma_queued_is_applied(m: Axi4LiteMasterView, r: Axi4LiteRamView, op: OpView, a: u64)
    ensures
        final_at(m.queued(op), r, a) == applied(op, a, final_at(m, r, a), r.mem.width),
{
    let n = m.queued(op);
    assert(settled_at(n, r, a) == settled_at(m, r, a));
    lemma_queued_last(m.ops, op, a, settled_at(m, r, a), r.mem.width);
}

/// An access that does not change the word at `a` leaves it backed.
pub proof fn lemma_other_accesses_keep_backed(
    m: Axi4LiteMasterView,
    r: Axi4LiteRamView,
    op: OpView,
    a: u64,
)
    requires
        backed(m, r, a),
        !op.changes() || op.addr() != a,
    ensures
        backed(m.queued(op), r, a),
{
    lemma_queued_is_applied(m, r, op, a);
    let n = m.queued(op);
    assert forall|i: int|
        0 <= i < n.ops.len() && (#[trigger] n.ops[i]).addr() == a && n.ops[i] is Read implies
        !n.ops[i].changes() by {
        if i < m.ops.len() {
            assert(n.ops[i] == m.ops[i]);
        }
    }
}

proof fn lemma_made_up_write_is_backed(
    m: Axi4LiteMasterView,
    r: Axi4LiteRamView,
    addr: u64,
    data: Seq<u64>,
    strb: Seq<u64>,
    kept: Seq<u64>,
    x: u64,
    a: u64,
)
    requires
        backed(m, r, a),
        r.mem.width > 0,
        r.mem.width % 8 == 0,
        kept == merged(m.kept(addr), data, strb, lane_count(r.mem.width) as nat) || strb
            == full_strobe(r.mem.width) && kept == data && clean(data, r.mem.width),
    ensures
        backed(
            (Axi4LiteMasterView { traffic_lfsr: x, ..m.wrote(addr, data, strb, kept) }),
            r,
            a,
        ),
{
    let width = r.mem.width;
    let op = OpView::Write { addr, data, strb, expect_ok: true };
    let k = m.queued(op);
    let n = Axi4LiteMasterView { traffic_lfsr: x, ..m.wrote(addr, data, strb, kept) };
    lemma_queued_is_applied(m, r, op, a);
    assert(settled_at(n, r, a) == settled_at(k, r, a));
    assert(n.ops == k.ops);
    if addr == a {
        lemma_write_keeps_clean(m.kept(a), data, strb, width);
        if strb == full_strobe(width) && clean(data, width) {
            lemma_full_write_replaces(m.kept(a), data, width);
        }
    }
    assert forall|i: int|
        0 <= i < n.ops.len() && (#[trigger] n.ops[i]).addr() == a && n.ops[i] is Read implies
        !n.ops[i].changes() by {
        if i < m.ops.len() {
            assert(n.ops[i] == m.ops[i]);
        }
    }
}

/// Made-up writes keep a word backed, whole or strobed, on a bus of whole
/// bytes.
pub proof fn lemma_random_writes_keep_backed(
    m: Axi4LiteMasterView,
    r: Axi4LiteRamView,
    n: nat,
    span: u64,
    a: u64,
)
    requires
        backed(m, r, a),
        r.mem.width > 0,
        r.mem.width % 8 == 0,
    ensures
        backed(m.random_writes(n, span), r, a),
        backed(m.random_strobed_writes(n, span), r, a),
    decreases n,
{
    if n > 0 {
        let width = r.mem.width;
        let lanes = lane_count(width);
        lemma_random_writes_keep_backed(m, r, (n - 1) as nat, span, a);
        let k = m.random_writes((n - 1) as nat, span);
        let x = xorshift(k.traffic_lfsr);
        let addr = placed(x, span, lanes);
        let data = random_data(x, width);
        lemma_random_data_is_clean(x, width);
        let strb = full_strobe(width);
        lemma_made_up_write_is_backed(k, r, addr, data, strb, data, after_data(x, width), a);
        let k = m.random_strobed_writes((n - 1) as nat, span);
        let x = xorshift(k.traffic_lfsr);
        let addr = placed(x, span, lanes);
        let data = random_data(x, width);
        let y = after_data(x, width);
        let strb = random_strobe(y, word_count(lanes as u32), lanes as nat);
        let kept = merged(k.kept(addr), data, strb, lanes as nat);
        let z = xorshift_nth(y, lanes as nat);
        lemma_made_up_write_is_backed(k, r, addr, data, strb, kept, z, a);
    }
}

/// Random traffic keeps a word backed, on a bus of whole bytes.
pub proof fn lemma_random_traffic_keeps_backed(
    m: Axi4LiteMasterView,
    r: Axi4LiteRamView,
    n: nat,
    span: u64,
    read_percent: u64,
    a: u64,
)
    requires
        backed(m, r, a),
        r.mem.width > 0,
        r.mem.width % 8 == 0,
    ensures
        backed(m.random_traffic(n, span, read_percent), r, a),
    decreases n,
{
    if n > 0 {
        let width = r.mem.width;
        lemma_random_traffic_keeps_backed(m, r, (n - 1) as nat, span, read_percent, a);
        let k = m.random_traffic((n - 1) as nat, span, read_percent);
        let o = k.random_access(span, read_percent);
        let x = xorshift(k.traffic_lfsr);
        let y = xorshift(x);
        let addr = placed(x, span, lane_count(width));
        if y % 100 < read_percent {
            let op = OpView::Read(ReadView { addr, expect: Some(k.recorded(addr)), rmw: None });
            lemma_other_accesses_keep_backed(k, r, op, a);
            let q = k.queued(op);
            assert(o.ops == q.ops);
            assert(settled_at(o, r, a) == settled_at(q, r, a));
        } else {
            let data = random_data(y, width);
            let strb = full_strobe(width);
            lemma_random_data_is_clean(y, width);
            lemma_made_up_write_is_backed(k, r, addr, data, strb, data, after_data(y, width), a);
        }
    }
}

/// Reading back may be queued at any time where what is to be read back is
/// backed: every such read expects what the memory will answer.
pub proof fn lemma_verify_all_keeps_in_step(
    m: Axi4LiteMasterView,
    r: Axi4LiteRamView,
    addrs: Seq<u64>,
)
    requires
        in_step(m, r),
        forall|i: int|
            0 <= i < addrs.len() ==> m.shadow.contains_key(#[trigger] addrs[i]) && backed(
                m,
                r,
                addrs[i],
            ),
    ensures
        ({
            let n = Axi4LiteMasterView { ops: m.ops + m.checks(addrs), ..m };
            &&& in_step(n, r)
            &&& agreed(m, r) ==> agreed(n, r)
            &&& forall|a: u64| #[trigger] backed(m, r, a) ==> backed(n, r, a)
        }),
    decreases addrs.len(),
{
    let n = Axi4LiteMasterView { ops: m.ops + m.checks(addrs), ..m };
    if addrs.len() == 0 {
        assert(n.ops =~= m.ops);
    } else {
        let rest = addrs.drop_last();
        assert forall|i: int| 0 <= i < rest.len() implies m.shadow.contains_key(#[trigger] rest[i])
            && backed(m, r, rest[i]) by {
            assert(rest[i] == addrs[i]);
        }
        lemma_verify_all_keeps_in_step(m, r, rest);
        let k = Axi4LiteMasterView { ops: m.ops + m.checks(rest), ..m };
        let a = addrs[addrs.len() - 1];
        assert(m.shadow.contains_key(a) && backed(m, r, a));
        let op = OpView::Read(ReadView { addr: a, expect: Some(m.shadow[a]), rmw: None });
        assert(k.kept(a) == final_at(k, r, a)) by {
            assert(backed(k, r, a));
        }
        lemma_queueing_keeps_in_step(k, r, op);
        if agreed(m, r) {
            lemma_queueing_keeps_agreed(k, r, op);
        }
        assert(n.ops =~= k.queued(op).ops);
        assert(n == k.queued(op));
        assert forall|x: u64| #[trigger] backed(m, r, x) implies backed(n, r, x) by {
            lemma_other_accesses_keep_backed(k, r, op, x);
        }
    }
}

/// The master in a cycle when read data comes.
spec fn before_data(m: Axi4LiteMasterView, p: Axi4LiteMasterPorts) -> Axi4LiteMasterView {
    let w = m.drawn().write_cycle(p, stalls(m.lfsr, m.config.stall));
    w.ar_taken(w.ar_valid && p.arready@.truth())
}

proof fn lemma_no_rmw_before_data(m: Axi4LiteMasterView, p: Axi4LiteMasterPorts, a: u64)
    requires
        no_rmw(m, a),
    ensures
        no_rmw(before_data(m, p), a),
        before_data(m, p).shadow == m.shadow,
        before_data(m, p).config == m.config,
{
    let k = m.drawn().write_moved(p).b_received(m.b_fires(p), p.bresp);
    assert(k.ops == m.ops && k.r_expect == m.r_expect);
    lemma_oldest_access_goes_first(k.ops, k.inflight, true);
    let d = before_data(m, p);
    assert forall|i: int|
        0 <= i < d.ops.len() && (#[trigger] d.ops[i]).addr() == a && d.ops[i] is Read implies
        !d.ops[i].changes() by {
        assert(exists|j: int| 0 <= j < m.ops.len() && d.ops[i] == m.ops[j]) by {
            if d.ops == m.ops {
                assert(d.ops[i] == m.ops[i]);
            } else {
                let h = next_issuable(k.ops, k.inflight, true, 0)->0;
                assert(d.ops == m.ops.remove(h));
                if i < h {
                    assert(d.ops[i] == m.ops[i]);
                } else {
                    assert(d.ops[i] == m.ops[i + 1]);
                }
            }
        }
    }
    assert forall|i: int|
        0 <= i < d.r_expect.len() && (#[trigger] d.r_expect[i]).addr == a implies !OpView::Read(
        d.r_expect[i],
    ).changes() by {
        if i < m.r_expect.len() {
            assert(d.r_expect[i] == m.r_expect[i]);
        }
    }
}

proof fn lemma_no_rmw_after_data(d: Axi4LiteMasterView, fire: bool, data: Seq<u64>, a: u64)
    requires
        no_rmw(d, a),
    ensures
        no_rmw(d.r_received(fire, data), a),
        d.r_received(fire, data).kept(a) == d.kept(a),
{
    let n = d.r_received(fire, data);
    assert forall|i: int|
        0 <= i < n.ops.len() && (#[trigger] n.ops[i]).addr() == a && n.ops[i] is Read implies
        !n.ops[i].changes() by {
        if n.ops == d.ops {
            assert(n.ops[i] == d.ops[i]);
        } else if i > 0 {
            assert(n.ops[i] == d.ops[i - 1]);
        }
    }
    assert forall|i: int|
        0 <= i < n.r_expect.len() && (#[trigger] n.r_expect[i]).addr == a implies !OpView::Read(
        n.r_expect[i],
    ).changes() by {
        if fire && d.r_expect.len() > 0 {
            assert(n.r_expect[i] == d.r_expect[i + 1]);
        }
    }
    if fire && d.r_expect.len() > 0 && OpView::Read(d.r_expect[0]).changes() {
        assert(d.r_expect[0].addr != a);
    }
}

proof fn lemma_no_rmw_after_issue(d: Axi4LiteMasterView, a: u64)
    requires
        no_rmw(d, a),
    ensures
        no_rmw(d.read_issued(), a),
{
    let n = d.read_issued();
    lemma_oldest_access_goes_first(d.ops, d.inflight, false);
    if n != d {
        let h = next_issuable(d.ops, d.inflight, false, 0)->0;
        assert(issuable(d.ops, d.inflight, false, h));
        assert(n.ops == d.ops.remove(h));
        assert(d.ops[h] == OpView::Read(n.cur_ar));
        assert forall|i: int|
            0 <= i < n.ops.len() && (#[trigger] n.ops[i]).addr() == a && n.ops[i] is Read implies
            !n.ops[i].changes() by {
            if i < h {
                assert(n.ops[i] == d.ops[i]);
            } else {
                assert(n.ops[i] == d.ops[i + 1]);
            }
        }
    }
}

/// A cycle leaves what is to be read back at `a`, where no read-modify-write of
/// `a` is under way, and starts none.
pub proof fn lemma_cycle_leaves_kept(m: Axi4LiteMasterView, p: Axi4LiteMasterPorts, a: u64)
    requires
        no_rmw(m, a),
    ensures
        no_rmw(m.clocked(false, p), a),
        m.clocked(false, p).kept(a) == m.kept(a),
{
    let d = before_data(m, p);
    lemma_no_rmw_before_data(m, p, a);
    lemma_no_rmw_after_data(d, m.r_fires(p), m.r_data(p), a);
    let e = d.r_received(m.r_fires(p), m.r_data(p));
    lemma_no_rmw_after_issue(e, a);
    lemma_clocked_in_steps(m, p);
}

/// A cycle, step by step.
proof fn lemma_clocked_in_steps(m: Axi4LiteMasterView, p: Axi4LiteMasterPorts)
    ensures
        ({
            let n = before_data(m, p).r_received(m.r_fires(p), m.r_data(p)).read_issued();
            let t = m.clocked(false, p);
            t == (Axi4LiteMasterView { r_ready: t.r_ready, ..n })
        }),
{
    let w = m.drawn().write_cycle(p, stalls(m.lfsr, m.config.stall));
    assert(w.r_ready == m.r_ready && w.config == m.config);
}

proof fn lemma_reads_change_nothing(ops: Seq<OpView>, a: u64, v: Seq<u64>, width: u32)
    requires
        forall|i: int| 0 <= i < ops.len() && (#[trigger] ops[i]).addr() == a ==> !ops[i].changes(),
    ensures
        applied_all(ops, a, v, width) == v,
    decreases ops.len(),
{
    if ops.len() > 0 {
        let rest = ops.drop_first();
        assert forall|i: int| 0 <= i < rest.len() && (#[trigger] rest[i]).addr() == a implies
            !rest[i].changes() by {
            assert(rest[i] == ops[i + 1]);
        }
        assert(ops[0].addr() == a ==> !ops[0].changes());
        lemma_reads_change_nothing(rest, a, v, width);
    }
}

/// A read-modify-write is backed once it completes: when its data comes and no
/// later access changes its word, what is to be read back there is what the
/// write-back leaves, on a bus of whole bytes and with a mask and a value that
/// fit it.
pub proof fn lemma_completed_rmw_is_backed(
    m: Axi4LiteMasterView,
    r: Axi4LiteRamView,
    p: Axi4LiteMasterPorts,
    q: Axi4LiteSlavePorts,
)
    requires
        in_step(m, r),
        guarded(r),
        wired(m, r, p, q),
        r.mem.width > 0,
        r.mem.width % 8 == 0,
        m.r_fires(p),
        OpView::Read(m.r_expect[0]).changes(),
        clean(r.mem.at(r.r_addr), r.mem.width),
        m.r_expect[0].rmw matches Some((mask, value)) ==> clean(mask, r.mem.width) && clean(
            value,
            r.mem.width,
        ),
        forall|i: int|
            0 <= i < m.ops.len() && (#[trigger] m.ops[i]).addr() == r.r_addr ==> !m.ops[i].changes(),
    ensures
        backed(m.clocked(false, p), r.clocked(false, q), r.r_addr),
{
    let width = r.mem.width;
    let a = r.r_addr;
    let (n, t) = (m.clocked(false, p), r.clocked(false, q));
    lemma_cycle_keeps_in_step(m, r, p, q);
    assert(holds_read(r) && m.r_expect[0].addr == a);
    let (mask, value) = m.r_expect[0].rmw->0;
    let data = m.r_data(p);
    assert(data =~= r.mem.at(a));
    let new = modified(data, mask, value);
    lemma_modified_is_clean(data, mask, value, width);
    lemma_full_write_replaces(data, new, width);
    lemma_reads_change_nothing(m.ops, a, settled_at(m, r, a), width);
    assert(settled_at(m, r, a) == new);
    assert(final_at(n, t, a) == final_at(m, r, a));
    let rest = Axi4LiteMasterView { r_expect: m.r_expect.drop_first(), ..m };
    assert(no_rmw(rest, a));
    lemma_no_rmw_before_data(rest, p, a);
    let d = before_data(m, p);
    let x = before_data(rest, p);
    assert(d.r_expect.drop_first() =~= x.r_expect);
    assert(x == (Axi4LiteMasterView { r_expect: d.r_expect.drop_first(), ..d }));
    let e = d.r_received(true, data);
    assert(d.r_expect[0] == m.r_expect[0]);
    assert(e.shadow == m.shadow.insert(a, new));
    assert(no_rmw(e, a)) by {
        assert forall|i: int|
            0 <= i < e.ops.len() && (#[trigger] e.ops[i]).addr() == a && e.ops[i] is Read implies
            !e.ops[i].changes() by {
            if i > 0 {
                assert(e.ops[i] == x.ops[i - 1]);
            }
        }
    }
    lemma_no_rmw_after_issue(e, a);
    lemma_clocked_in_steps(m, p);
    assert(no_rmw(n, a));
}

proof fn lemma_modified_is_clean(data: Seq<u64>, mask: Seq<u64>, value: Seq<u64>, width: u32)
    requires
        clean(data, width),
        clean(mask, width),
        clean(value, width),
    ensures
        clean(modified(data, mask, value), width),
{
    let new = modified(data, mask, value);
    if width % 64 != 0 {
        let (d, m, v, t) = (data.last(), mask.last(), value.last(), top_mask(width));
        assert(masked(data, width).last() == d & t);
        assert(masked(value, width).last() == v & t);
        assert(((d & !m) | (v & m)) & t == (d & !m) | (v & m)) by (bit_vector)
            requires
                d & t == d,
                v & t == v,
        ;
    }
    assert(masked(new, width) =~= new);
}

/// The master and the memory after a run of cycles without reset.
pub open spec fn run_pair(
    m: Axi4LiteMasterView,
    r: Axi4LiteRamView,
    cycles: Seq<(Axi4LiteMasterPorts, Axi4LiteSlavePorts)>,
) -> (Axi4LiteMasterView, Axi4LiteRamView)
    decreases cycles.len(),
{
    if cycles.len() == 0 {
        (m, r)
    } else {
        let (n, t) = run_pair(m, r, cycles.drop_last());
        let (p, q) = cycles.last();
        (n.clocked(false, p), t.clocked(false, q))
    }
}

/// Whether in each cycle of a run the ports show what the other side drives.
pub open spec fn all_wired(
    m: Axi4LiteMasterView,
    r: Axi4LiteRamView,
    cycles: Seq<(Axi4LiteMasterPorts, Axi4LiteSlavePorts)>,
) -> bool
    decreases cycles.len(),
{
    if cycles.len() == 0 {
        true
    } else {
        let (n, t) = run_pair(m, r, cycles.drop_last());
        let (p, q) = cycles.last();
        all_wired(m, r, cycles.drop_last()) && wired(n, t, p, q)
    }
}

/// What the master reports in a run of cycles.
pub open spec fn reported(
    m: Axi4LiteMasterView,
    r: Axi4LiteRamView,
    cycles: Seq<(Axi4LiteMasterPorts, Axi4LiteSlavePorts)>,
) -> Seq<LiteMasterFaultView>
    decreases cycles.len(),
{
    if cycles.len() == 0 {
        seq![]
    } else {
        let (n, t) = run_pair(m, r, cycles.drop_last());
        let (p, q) = cycles.last();
        reported(m, r, cycles.drop_last()) + n.faults(false, p)
    }
}

/// Checked traffic checks out: a master on the bus of a memory reports nothing
/// in any run of cycles, under every latency, skew and backpressure. Once it is
/// idle, the memory holds what the accesses leave in program order.
pub proof fn lemma_checked_traffic_checks_out(
    m: Axi4LiteMasterView,
    r: Axi4LiteRamView,
    cycles: Seq<(Axi4LiteMasterPorts, Axi4LiteSlavePorts)>,
)
    requires
        in_step(m, r),
        guarded(r),
        all_wired(m, r, cycles),
    ensures
        reported(m, r, cycles) == Seq::<LiteMasterFaultView>::empty(),
        ({
            let (n, t) = run_pair(m, r, cycles);
            &&& in_step(n, t)
            &&& guarded(t)
            &&& agreed(m, r) ==> agreed(n, t)
            &&& forall|a: u64| #[trigger] backed(m, r, a) ==> backed(n, t, a)
            &&& n.idle() ==> forall|a: u64|
                aligned(a, lane_count(r.mem.width)) == a ==> #[trigger] t.mem.at(a) == final_at(m, r, a)
        }),
{
    lemma_run_keeps_in_step(m, r, cycles);
    let (n, t) = run_pair(m, r, cycles);
    if n.idle() {
        assert forall|a: u64| aligned(a, lane_count(r.mem.width)) == a implies #[trigger] t.mem.at(a)
            == final_at(m, r, a) by {
            assert(final_at(n, t, a) == final_at(m, r, a));
            assert(settled_at(n, t, a) == t.mem.at(a));
        }
    }
}

proof fn lemma_run_keeps_in_step(
    m: Axi4LiteMasterView,
    r: Axi4LiteRamView,
    cycles: Seq<(Axi4LiteMasterPorts, Axi4LiteSlavePorts)>,
)
    requires
        in_step(m, r),
        guarded(r),
        all_wired(m, r, cycles),
    ensures
        reported(m, r, cycles) == Seq::<LiteMasterFaultView>::empty(),
        ({
            let (n, t) = run_pair(m, r, cycles);
            &&& in_step(n, t)
            &&& guarded(t)
            &&& same_end(m, r, n, t)
            &&& forall|a: u64| #[trigger] backed(m, r, a) ==> backed(n, t, a)
            &&& agreed(m, r) ==> agreed(n, t)
            &&& n.config == m.config && t.mem.width == r.mem.width
        }),
    decreases cycles.len(),
{
    if cycles.len() > 0 {
        let before = cycles.drop_last();
        lemma_run_keeps_in_step(m, r, before);
        let (n, t) = run_pair(m, r, before);
        let (p, q) = cycles.last();
        lemma_cycle_keeps_in_step(n, t, p, q);
        lemma_same_end_joins(m, r, n, t, n.clocked(false, p), t.clocked(false, q));
        assert(reported(m, r, cycles) =~= Seq::<LiteMasterFaultView>::empty());
        let (o, u) = (n.clocked(false, p), t.clocked(false, q));
        assert forall|a: u64| #[trigger] backed(m, r, a) implies backed(o, u, a) by {
            assert(backed(n, t, a));
            lemma_cycle_leaves_kept(n, p, a);
            assert(final_at(o, u, a) == final_at(n, t, a));
        }
    }
}

} // verus!
