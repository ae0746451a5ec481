//! What an AXI4-Lite master does in a cycle: what it issues, what it makes of the
//! answers and what it reports.

use crate::axi4_lite::master::{
    drives, write_answer, Axi4LiteMasterPorts, Axi4LiteMasterView, LiteMasterConfig,
};
use crate::axi4_lite::op::{
    issuable, left_by, left_by_all, lemma_oldest_access_goes_first, modified, next_issuable,
    LiteMasterFaultView, OpView, PendingWrite, ReadView,
};
use crate::common::random::{lemma_stall_extremes, xorshift, xorshift_nth};
use crate::common::report::{lemma_times_none, lemma_times_one, lemma_times_together, once, times};
use crate::common::stimulus::{after_data, full_strobe, placed, random_data, random_strobe};
use crate::common::storage::{bus_words, byte_lanes, word_start};
use crate::common::words::{arg_result, ArgError};
use crate::value::Value;
use vstd::prelude::*;

verus! {

/// Whether the address of the write being issued has been taken.
pub open spec fn has_aw(s: Axi4LiteMasterView, p: Axi4LiteMasterPorts) -> bool {
    s.aw_acked || s.aw_valid && p.awready@.truth()
}

/// Whether the data of the write being issued has been taken.
pub open spec fn has_w(s: Axi4LiteMasterView, p: Axi4LiteMasterPorts) -> bool {
    s.w_acked || s.w_valid && p.wready@.truth()
}

/// The writes that await a response: those that did, and last the one whose address
/// and data have both been taken.
pub open spec fn writes_awaited(
    s: Axi4LiteMasterView,
    p: Axi4LiteMasterPorts,
) -> Seq<PendingWrite> {
    if has_aw(s, p) && has_w(s, p) {
        s.b_expect.push(s.cur_w)
    } else {
        s.b_expect
    }
}

/// The reads that await data: those that did, and last the one whose address is
/// taken.
pub open spec fn reads_awaited(s: Axi4LiteMasterView, p: Axi4LiteMasterPorts) -> Seq<ReadView> {
    if s.ar_valid && p.arready@.truth() {
        s.r_expect.push(s.cur_ar)
    } else {
        s.r_expect
    }
}

/// Whether a write response is handed over.
pub open spec fn takes_b(s: Axi4LiteMasterView, p: Axi4LiteMasterPorts) -> bool {
    s.b_ready && p.bvalid@.truth()
}

/// Whether read data is handed over.
pub open spec fn takes_r(s: Axi4LiteMasterView, p: Axi4LiteMasterPorts) -> bool {
    s.r_ready && p.rvalid@.truth()
}

/// What the port shows of read data, as wide as the bus.
pub open spec fn shown_data(s: Axi4LiteMasterView, p: Axi4LiteMasterPorts) -> Seq<u64> {
    Seq::new(
        bus_words(s.config.width),
        |i: int|
            if i < p.rdata@.len() {
                p.rdata@[i]
            } else {
                0
            },
    )
}

/// The responses that may be in flight per direction.
pub open spec fn limit_of(config: LiteMasterConfig) -> u64 {
    match config.max_outstanding {
        Some(n) => n,
        None => u64::MAX,
    }
}

/// The address of an access.
pub open spec fn goal(op: OpView) -> u64 {
    match op {
        OpView::Write { addr, .. } => addr,
        OpView::Read(r) => r.addr,
    }
}

/// Whether the access at `i` is the next to go on its channel: its address has
/// nothing in flight and nothing older queued, and that holds of no older access of
/// the channel.
pub open spec fn goes(ops: Seq<OpView>, flights: Set<u64>, write: bool, i: int) -> bool {
    &&& may_go(ops, flights, write, i)
    &&& forall|j: int| 0 <= j < i ==> !#[trigger] may_go(ops, flights, write, j)
}

/// Whether the access at `i` is one of its channel whose address has nothing in
/// flight and nothing older queued.
pub open spec fn may_go(ops: Seq<OpView>, flights: Set<u64>, write: bool, i: int) -> bool {
    &&& 0 <= i < ops.len()
    &&& (ops[i] is Write) == write
    &&& !flights.contains(goal(ops[i]))
    &&& forall|j: int| 0 <= j < i ==> goal(#[trigger] ops[j]) != goal(ops[i])
}

/// Whether no access of a channel may go.
pub open spec fn none_goes(ops: Seq<OpView>, flights: Set<u64>, write: bool) -> bool {
    forall|i: int| !#[trigger] may_go(ops, flights, write, i)
}

/// The addresses in flight once a response, if one came, has ended its write.
pub open spec fn flights_after_b(s: Axi4LiteMasterView, p: Axi4LiteMasterPorts) -> Set<u64> {
    if takes_b(s, p) && writes_awaited(s, p).len() > 0 {
        s.inflight.remove(writes_awaited(s, p)[0].addr)
    } else {
        s.inflight
    }
}

/// The addresses in flight once data, if some came, has ended its read.
pub open spec fn flights_after_r(s: Axi4LiteMasterView, p: Axi4LiteMasterPorts) -> Set<u64> {
    if takes_r(s, p) && reads_awaited(s, p).len() > 0 {
        s.inflight.remove(reads_awaited(s, p)[0].addr)
    } else {
        s.inflight
    }
}

/// Whether the data of a read-modify-write comes.
pub open spec fn takes_rmw(s: Axi4LiteMasterView, p: Axi4LiteMasterPorts) -> bool {
    let all = reads_awaited(s, p);
    takes_r(s, p) && all.len() > 0 && all[0].expect is None && all[0].rmw is Some
}

/// That data with the masked bits replaced.
pub open spec fn rmw_word(s: Axi4LiteMasterView, p: Axi4LiteMasterPorts) -> Seq<u64> {
    match reads_awaited(s, p)[0].rmw {
        Some((mask, value)) => modified(shown_data(s, p), mask, value),
        None => shown_data(s, p),
    }
}

/// What is queued once the data of a read-modify-write, if it came, is written back
/// first of all.
pub open spec fn ops_after_r(s: Axi4LiteMasterView, p: Axi4LiteMasterPorts) -> Seq<OpView> {
    if takes_rmw(s, p) {
        seq![
            OpView::Write {
                addr: reads_awaited(s, p)[0].addr,
                data: rmw_word(s, p),
                strb: full_strobe(s.config.width),
                expect_ok: true,
            },
        ] + s.ops
    } else {
        s.ops
    }
}

proof fn lemma_goes_is_next(ops: Seq<OpView>, flights: Set<u64>, write: bool)
    ensures
        match next_issuable(ops, flights, write, 0) {
            Some(i) => goes(ops, flights, write, i),
            None => none_goes(ops, flights, write),
        },
        forall|i: int|
            #![trigger goes(ops, flights, write, i)]
            goes(ops, flights, write, i) ==> next_issuable(ops, flights, write, 0) == Some(i),
{
    lemma_oldest_access_goes_first(ops, flights, write);
    assert forall|i: int| #[trigger]
        may_go(ops, flights, write, i) == issuable(ops, flights, write, i) by {
        if 0 <= i < ops.len() {
            assert(goal(ops[i]) == ops[i].addr());
            assert(forall|j: int| 0 <= j < i ==> goal(#[trigger] ops[j]) == ops[j].addr());
        }
    }
    assert forall|i: int| #[trigger] goes(ops, flights, write, i) implies next_issuable(
        ops,
        flights,
        write,
        0,
    ) == Some(i) by {
        assert(issuable(ops, flights, write, i));
        match next_issuable(ops, flights, write, 0) {
            Some(k) => {
                assert(may_go(ops, flights, write, k));
                if k < i {
                    assert(!may_go(ops, flights, write, k));
                }
            },
            None => {},
        }
    }
    if let Some(k) = next_issuable(ops, flights, write, 0) {
        assert(may_go(ops, flights, write, k));
    }
}

/// Everything an AXI4-Lite master reports, and nothing else: a response that no write
/// awaits; a response other than 0 to a write that has to succeed; data that no read
/// awaits; and data other than what a checked read expects. Each fault is reported
/// once, and in reset none.
pub proof fn lemma_reports_are_due(
    s: Axi4LiteMasterView,
    rst: bool,
    p: Axi4LiteMasterPorts,
    x: LiteMasterFaultView,
)
    ensures
        ({
            let writes = writes_awaited(s, p);
            let reads = reads_awaited(s, p);
            times(s.faults(rst, p), x) == once(
                !rst && match x {
                    LiteMasterFaultView::ResponseWithoutWrite => takes_b(s, p) && writes.len() == 0,
                    LiteMasterFaultView::WriteResponse { addr, code } => takes_b(s, p)
                        && writes.len() > 0 && addr == writes[0].addr && writes[0].expect_ok && code
                        == p.bresp && code != 0,
                    LiteMasterFaultView::ResponseWithoutRead => takes_r(s, p) && reads.len() == 0,
                    LiteMasterFaultView::ReadMismatch { addr, want, got } => takes_r(s, p)
                        && reads.len() > 0 && addr == reads[0].addr && reads[0].expect == Some(want)
                        && got == shown_data(s, p) && want != got,
                },
            )
        }),
{
    let stall = crate::common::random::stalls(s.lfsr, s.config.stall);
    let w = s.drawn().write_cycle(p, stall);
    let moved = s.drawn().write_moved(p);
    let fetched = w.ar_taken(w.ar_valid && p.arready@.truth());
    assert(moved.b_expect =~= writes_awaited(s, p));
    assert(w.r_expect == s.r_expect && w.ar_valid == s.ar_valid && w.cur_ar == s.cur_ar);
    assert(fetched.r_expect =~= reads_awaited(s, p));
    assert(s.r_data(p) =~= shown_data(s, p));
    let a = moved.b_faults(s.b_fires(p), p.bresp);
    let b = fetched.r_faults(s.r_fires(p), s.r_data(p));
    lemma_times_none(x);
    lemma_times_together(a, b, x);
    if a.len() > 0 {
        assert(a =~= seq![a[0]]);
        lemma_times_one(a[0], x);
    } else {
        assert(a =~= seq![]);
    }
    if b.len() > 0 {
        assert(b =~= seq![b[0]]);
        lemma_times_one(b[0], x);
    } else {
        assert(b =~= seq![]);
    }
}

/// A cycle is the write side and then the read side, under one draw of the stall.
pub proof fn lemma_sides_take_turns(s: Axi4LiteMasterView, p: Axi4LiteMasterPorts)
    ensures
        ({
            let stall = match s.config.stall {
                Some(w) => xorshift(s.lfsr) % 256 < w,
                None => false,
            };
            let u = Axi4LiteMasterView {
                lfsr: if s.config.stall is Some {
                    xorshift(s.lfsr)
                } else {
                    s.lfsr
                },
                ..s
            };
            s.clocked(false, p) == u.write_cycle(p, stall).read_cycle(p, stall)
        }),
{
    if let Some(w) = s.config.stall {
        lemma_stall_extremes(s.lfsr, w);
    }
}

/// Whether the write side still has a write to issue after the handshakes of a cycle.
pub open spec fn write_busy(s: Axi4LiteMasterView, p: Axi4LiteMasterPorts) -> bool {
    let done = has_aw(s, p) && has_w(s, p);
    ||| s.aw_valid && !p.awready@.truth()
    ||| s.w_valid && !p.wready@.truth()
    ||| s.w_delay is Some && !(s.w_delay == Some(0u64) && s.w_valid && p.wready@.truth())
    ||| !done && (has_aw(s, p) || has_w(s, p))
}

/// What the write side does in a cycle. An address or data that is taken is offered
/// no longer; once both are, the write awaits its response. A response ends the
/// oldest write that awaits one, and is kept. Where no write is being issued and
/// fewer await a response than may, the next write to go is offered with its address,
/// data and strobes: the data at once, or `w_delay` cycles later. BREADY is offered
/// while a write awaits its response, but for a cycle that stalls.
pub proof fn lemma_write_side(
    s: Axi4LiteMasterView,
    p: Axi4LiteMasterPorts,
    stall: bool,
    i: int,
)
    ensures
        ({
            let t = s.write_cycle(p, stall);
            let all = writes_awaited(s, p);
            let answered = takes_b(s, p) && all.len() > 0;
            let flights = flights_after_b(s, p);
            let free = !write_busy(s, p) && t.b_expect.len() < limit_of(s.config);
            &&& t.b_expect == (if answered {
                all.drop_first()
            } else {
                all
            })
            &&& t.last_bresp == (if answered {
                p.bresp
            } else {
                s.last_bresp
            })
            &&& t.b_ready == (t.b_expect.len() > 0 && !stall)
            &&& free && goes(s.ops, flights, true, i) ==> {
                &&& s.ops[i] matches OpView::Write { addr, data, strb, expect_ok }
                &&& t.ops == s.ops.remove(i)
                &&& t.inflight == flights.insert(addr)
                &&& t.aw_valid && t.aw_addr == addr && t.w_data == data && t.w_strb == strb
                &&& t.cur_w.addr == addr && t.cur_w.expect_ok == expect_ok
                &&& match s.config.w_delay {
                    Some(d) => if d > 0 {
                        !t.w_valid && t.w_delay == Some((d - 1) as u64)
                    } else {
                        t.w_valid && t.w_delay is None
                    },
                    None => t.w_valid && t.w_delay is None,
                }
                &&& !t.aw_acked && !t.w_acked
            }
            &&& !free || none_goes(s.ops, flights, true) ==> {
                &&& t.ops == s.ops && t.inflight == flights && t.cur_w == s.cur_w
                &&& t.aw_valid == (s.aw_valid && !p.awready@.truth())
                &&& t.w_valid == (!(s.w_valid && p.wready@.truth()) && (s.w_valid || s.w_delay
                    == Some(0u64)))
                &&& t.aw_addr == s.aw_addr && t.w_data == s.w_data && t.w_strb == s.w_strb
                &&& t.w_delay == (match s.w_delay {
                    Some(n) => if n == 0 {
                        None
                    } else {
                        Some((n - 1) as u64)
                    },
                    None => None,
                })
                &&& t.aw_acked == (has_aw(s, p) && !has_w(s, p))
                &&& t.w_acked == (has_w(s, p) && !has_aw(s, p))
            }
            &&& t.r_expect == s.r_expect && t.reads == s.reads && t.ar_valid == s.ar_valid
            &&& t.shadow == s.shadow && t.latest == s.latest && t.config == s.config
        }),
{
    let moved = s.write_moved(p);
    let u = moved.b_received(s.b_fires(p), p.bresp);
    assert(moved.b_expect =~= writes_awaited(s, p));
    assert(moved.ops == s.ops);
    assert(u.inflight == flights_after_b(s, p));
    lemma_goes_is_next(s.ops, u.inflight, true);
    if none_goes(s.ops, u.inflight, true) {
        if let Some(k) = next_issuable(s.ops, u.inflight, true, 0) {
            assert(!may_go(s.ops, u.inflight, true, k));
        }
    }
}

/// What the read side does in a cycle. An address that is taken is offered no longer,
/// and its read awaits data. Data ends the oldest read that awaits some: that of a
/// plain read is kept; that of a checked one is not; and that of a read-modify-write,
/// with the masked bits replaced, is written back before everything queued and is to
/// be read back at its address. Where no read is being issued and fewer await data
/// than may, the next read to go is offered. RREADY is offered while a read awaits
/// data, but for a cycle that stalls.
pub proof fn lemma_read_side(
    s: Axi4LiteMasterView,
    p: Axi4LiteMasterPorts,
    stall: bool,
    i: int,
)
    ensures
        ({
            let t = s.read_cycle(p, stall);
            let all = reads_awaited(s, p);
            let data = shown_data(s, p);
            let width = s.config.width;
            let answered = takes_r(s, p) && all.len() > 0;
            let plain = answered && all[0].expect is None && all[0].rmw is None;
            let changes = takes_rmw(s, p);
            let new = rmw_word(s, p);
            let ops = ops_after_r(s, p);
            let flights = flights_after_r(s, p);
            let free = !(s.ar_valid && !p.arready@.truth()) && t.r_expect.len() < limit_of(
                s.config,
            );
            &&& t.r_expect == (if answered {
                all.drop_first()
            } else {
                all
            })
            &&& t.reads == (if plain {
                s.reads.push(data)
            } else {
                s.reads
            })
            &&& t.shadow == (if changes {
                s.shadow.insert(all[0].addr, new)
            } else {
                s.shadow
            })
            &&& t.latest == (if changes {
                let key = word_start(all[0].addr, width);
                s.latest.insert(key, left_by_all(ops, key, data, width))
            } else {
                s.latest
            })
            &&& t.r_ready == (t.r_expect.len() > 0 && !stall)
            &&& free && goes(ops, flights, false, i) ==> {
                &&& ops[i] matches OpView::Read(r)
                &&& t.ops == ops.remove(i)
                &&& t.inflight == flights.insert(r.addr)
                &&& t.ar_valid && t.ar_addr == r.addr && t.cur_ar == r
            }
            &&& !free || none_goes(ops, flights, false) ==> {
                &&& t.ops == ops && t.inflight == flights
                &&& t.ar_valid == (s.ar_valid && !p.arready@.truth())
                &&& t.ar_addr == s.ar_addr && t.cur_ar == s.cur_ar
            }
            &&& t.b_expect == s.b_expect && t.last_bresp == s.last_bresp && t.aw_valid == s.aw_valid
            &&& t.w_valid == s.w_valid && t.w_data == s.w_data && t.config == s.config
        }),
{
    let fetched = s.ar_taken(s.ar_valid && p.arready@.truth());
    let u = fetched.r_received(s.r_fires(p), s.r_data(p));
    assert(fetched.r_expect =~= reads_awaited(s, p));
    assert(s.r_data(p) =~= shown_data(s, p));
    assert(u.inflight == flights_after_r(s, p));
    assert(u.ops == ops_after_r(s, p));
    lemma_goes_is_next(u.ops, u.inflight, false);
    if none_goes(u.ops, u.inflight, false) {
        if let Some(k) = next_issuable(u.ops, u.inflight, false, 0) {
            assert(!may_go(u.ops, u.inflight, false, k));
        }
    }
}

/// A read-modify-write replaces the bits of the mask by those of the value, word by
/// word, and leaves the others.
pub proof fn lemma_masked_bits_are_replaced(
    data: Seq<u64>,
    mask: Seq<u64>,
    value: Seq<u64>,
    i: int,
)
    requires
        0 <= i < data.len(),
    ensures
        modified(data, mask, value).len() == data.len(),
        modified(data, mask, value)[i] == (if i < mask.len() && i < value.len() {
            (data[i] & !mask[i]) | (value[i] & mask[i])
        } else {
            data[i]
        }),
{
}

/// The ports show what the master offers, with no protection bits. What the slave
/// drives stays.
pub proof fn lemma_ports_show_accesses(
    s: Axi4LiteMasterView,
    before: Axi4LiteMasterPorts,
    after: Axi4LiteMasterPorts,
)
    requires
        drives(s, before, after),
    ensures
        after.awvalid == s.aw_valid && after.awaddr == s.aw_addr && after.awprot == 0,
        after.wvalid == s.w_valid && after.wdata@ == s.w_data && after.wstrb@ == s.w_strb,
        after.arvalid == s.ar_valid && after.araddr == s.ar_addr && after.arprot == 0,
        after.bready == s.b_ready && after.rready == s.r_ready,
        after.bresp == before.bresp && after.rdata == before.rdata,
        after.awready == before.awready && after.wready == before.wready && after.arready
            == before.arready && after.bvalid == before.bvalid && after.rvalid == before.rvalid,
{
}

/// What is queued goes behind everything queued, and what it leaves of its word is the
/// latest value of it. Nothing else changes.
pub proof fn lemma_queueing_is_local(s: Axi4LiteMasterView, op: OpView)
    ensures
        ({
            let t = s.queued(op);
            let width = s.config.width;
            let key = word_start(goal(op), width);
            let was = if s.latest.contains_key(key) {
                s.latest[key]
            } else {
                Seq::new(bus_words(width), |i: int| 0u64)
            };
            let changes = match op {
                OpView::Write { .. } => true,
                OpView::Read(r) => r.expect is None && r.rmw is Some,
            };
            &&& t.ops == s.ops.push(op)
            &&& t.latest == (if changes {
                s.latest.insert(key, left_by(op, key, was, width))
            } else {
                s.latest
            })
            &&& t.shadow == s.shadow && t.inflight == s.inflight && t.b_expect == s.b_expect
            &&& t.r_expect == s.r_expect && t.reads == s.reads && t.config == s.config
            &&& t.traffic_lfsr == s.traffic_lfsr && t.lfsr == s.lfsr
        }),
{
    assert(crate::common::words::zeros(crate::value::word_count(s.config.width)) =~= Seq::new(
        bus_words(s.config.width),
        |i: int| 0u64,
    ));
}

/// A made-up write goes to the address that the next draw gives in the window, with
/// all lanes active and the data drawn next; that data is to be read back there.
pub proof fn lemma_made_up_write(s: Axi4LiteMasterView, span: u64)
    ensures
        ({
            let t = s.random_write(span);
            let x = xorshift(s.traffic_lfsr);
            let width = s.config.width;
            let addr = placed(x, span, byte_lanes(width));
            let data = random_data(x, width);
            &&& t.ops == s.ops.push(
                OpView::Write { addr, data, strb: full_strobe(width), expect_ok: true },
            )
            &&& t.shadow == s.shadow.insert(addr, data)
            &&& t.traffic_lfsr == after_data(x, width)
            &&& t.inflight == s.inflight && t.reads == s.reads && t.config == s.config
        }),
{
}

/// A made-up strobed write goes to the address that the next draw gives, with the data
/// and the strobe drawn next, and has to succeed.
pub proof fn lemma_made_up_strobed_write(s: Axi4LiteMasterView, span: u64)
    ensures
        ({
            let t = s.random_strobed_write(span);
            let x = xorshift(s.traffic_lfsr);
            let width = s.config.width;
            let lanes = byte_lanes(width);
            let y = after_data(x, width);
            &&& t.ops == s.ops.push(
                OpView::Write {
                    addr: placed(x, span, lanes),
                    data: random_data(x, width),
                    strb: random_strobe(y, bus_words(lanes as u32), lanes as nat),
                    expect_ok: true,
                },
            )
            &&& t.traffic_lfsr == xorshift_nth(y, lanes as nat)
            &&& t.inflight == s.inflight && t.reads == s.reads && t.config == s.config
        }),
{
}

/// A made-up access draws its address and then its kind: a read checked against the
/// latest value of its word where the second draw, modulo 100, is below the percentage,
/// and otherwise a write with all lanes active of the data drawn next.
pub proof fn lemma_made_up_access(s: Axi4LiteMasterView, span: u64, percent: u64)
    ensures
        ({
            let t = s.random_access(span, percent);
            let x = xorshift(s.traffic_lfsr);
            let y = xorshift(x);
            let width = s.config.width;
            let addr = placed(x, span, byte_lanes(width));
            let data = random_data(y, width);
            if y % 100 < percent {
                &&& t.traffic_lfsr == y && t.shadow == s.shadow && t.latest == s.latest
                &&& t.ops.drop_last() == s.ops
                &&& t.ops.last() matches OpView::Read(r) && r.addr == addr && r.rmw is None
                    && r.expect == Some(
                    if s.latest.contains_key(addr) {
                        s.latest[addr]
                    } else {
                        Seq::new(bus_words(width), |i: int| 0u64)
                    },
                )
            } else {
                &&& t.traffic_lfsr == after_data(y, width)
                &&& t.ops == s.ops.push(
                    OpView::Write { addr, data, strb: full_strobe(width), expect_ok: true },
                )
                &&& t.shadow == s.shadow.insert(addr, data)
            }
        }),
{
    let t = s.random_access(span, percent);
    assert(t.ops.drop_last() =~= s.ops);
    assert(crate::common::words::zeros(crate::value::word_count(s.config.width)) =~= Seq::new(
        bus_words(s.config.width),
        |i: int| 0u64,
    ));
}

/// As many made-up accesses as asked for, one after another.
pub proof fn lemma_made_up_accesses_add_up(
    s: Axi4LiteMasterView,
    n: nat,
    span: u64,
    percent: u64,
)
    ensures
        s.random_writes(n, span).ops.len() == s.ops.len() + n,
        s.random_strobed_writes(n, span).ops.len() == s.ops.len() + n,
        s.random_traffic(n, span, percent).ops.len() == s.ops.len() + n,
        s.random_writes(n + 1, span) == s.random_writes(n, span).random_write(span),
        s.random_strobed_writes(n + 1, span) == s.random_strobed_writes(
            n,
            span,
        ).random_strobed_write(span),
        s.random_traffic(n + 1, span, percent) == s.random_traffic(
            n,
            span,
            percent,
        ).random_access(span, percent),
    decreases n,
{
    if n > 0 {
        lemma_made_up_accesses_add_up(s, (n - 1) as nat, span, percent);
    }
}

/// Reading back asks for each address one checked read of what is to be read back.
pub proof fn lemma_checks_ask_for_the_record(s: Axi4LiteMasterView, addrs: Seq<u64>, i: int)
    requires
        0 <= i < addrs.len(),
    ensures
        s.checks(addrs).len() == addrs.len(),
        s.checks(addrs)[i] matches OpView::Read(r) && r.addr == addrs[i] && r.rmw is None
            && r.expect == Some(s.shadow[addrs[i]]),
{
}

/// A reset drops everything queued, offered, awaited and recorded. A master starts
/// like that.
pub proof fn lemma_reset_drops_accesses(
    s: Axi4LiteMasterView,
    p: Axi4LiteMasterPorts,
    config: LiteMasterConfig,
    seed: u64,
)
    ensures
        at_rest(s.clocked(true, p)) && s.clocked(true, p).config == s.config,
        s.clocked(true, p).last_bresp == s.last_bresp,
        at_rest(Axi4LiteMasterView::fresh(config, seed)),
        Axi4LiteMasterView::fresh(config, seed).config == config,
        Axi4LiteMasterView::fresh(config, seed).last_bresp == 0,
{
}

/// Whether a master has nothing queued, offered, awaited or recorded.
pub open spec fn at_rest(t: Axi4LiteMasterView) -> bool {
    &&& t.ops.len() == 0 && t.b_expect.len() == 0 && t.r_expect.len() == 0 && t.reads.len() == 0
    &&& t.inflight == Set::<u64>::empty()
    &&& t.shadow == Map::<u64, Seq<u64>>::empty() && t.latest == Map::<u64, Seq<u64>>::empty()
    &&& !t.aw_valid && !t.w_valid && !t.ar_valid && !t.b_ready && !t.r_ready
    &&& !t.aw_acked && !t.w_acked && t.w_delay is None
}

/// A master is idle exactly where nothing is queued, offered, half taken or awaited.
pub proof fn lemma_idle_means_done(s: Axi4LiteMasterView)
    ensures
        s.idle() <==> s.ops.len() == 0 && s.b_expect.len() == 0 && s.r_expect.len() == 0
            && !s.aw_valid && !s.w_valid && !s.ar_valid && !s.aw_acked && !s.w_acked,
{
}

/// A write is taken where its data is, and is then queued last with all lanes active;
/// else nothing changes.
pub proof fn lemma_write_is_queued(
    r: Result<(), ArgError>,
    before: Axi4LiteMasterView,
    after: Axi4LiteMasterView,
    addr: u64,
    data: &Value,
    expect_ok: bool,
)
    requires
        write_answer(r, before, after, addr, data, expect_ok),
    ensures
        r is Ok <==> arg_result(data@, before.config.width) is Ok,
        r is Err ==> after == before,
        r is Ok ==> {
            &&& after.ops.drop_last() == before.ops
            &&& after.ops.last() == OpView::Write {
                addr,
                data: arg_result(data@, before.config.width)->Ok_0,
                strb: full_strobe(before.config.width),
                expect_ok,
            }
            &&& after.shadow == before.shadow && after.reads == before.reads
        },
{
    if r is Ok {
        assert(after.ops.drop_last() =~= before.ops);
    }
}

} // verus!
