//! What an AXI4-Lite master keeps.

use crate::axi4_lite::master::{Axi4LiteMasterPorts, Axi4LiteMasterView, LiteMasterConfig};
use crate::axi4_lite::op::{
    issuable, left_by_all, lemma_oldest_access_goes_first, modified, next_issuable, OpView,
    PendingWrite, ReadView,
};
use crate::common::lanes::{
    aligned, lane_count, lemma_aligned_twice, lemma_lanes_fit, lemma_merged_len, merged,
};
use crate::common::random::{stalls, xorshift, xorshift_nth};
use crate::common::stimulus::{
    after_data, full_strobe, lemma_full_write_replaces, lemma_merge_stays_masked, placed,
    random_data, random_strobe,
};
use crate::common::words::{masked, zeros};
use crate::value::{top_mask, word_count};
use vstd::prelude::*;

verus! {

/// Whether a write is being issued.
pub open spec fn writing(s: Axi4LiteMasterView) -> bool {
    s.aw_valid || s.w_valid || s.aw_acked || s.w_acked || s.w_delay is Some
}

/// A write that waits for WVALID waits for its address or has had it taken,
/// and what was offered or taken of one half is not offered or taken twice.
pub open spec fn phases_fit(s: Axi4LiteMasterView) -> bool {
    &&& !(s.aw_valid && s.aw_acked)
    &&& !(s.w_valid && s.w_acked)
    &&& !(s.w_delay is Some && (s.w_valid || s.w_acked))
    &&& !(s.aw_acked && s.w_acked)
    &&& writing(s) ==> (s.aw_valid || s.aw_acked) && (s.w_valid || s.w_acked || s.w_delay is Some)
}

/// VALID stays high and its payload does not change until READY: a master
/// that offers an address or data goes on offering the same until it is
/// taken.
pub proof fn lemma_offers_are_stable(s: Axi4LiteMasterView, p: Axi4LiteMasterPorts)
    ensures
        ({
            let t = s.clocked(false, p);
            &&& s.aw_valid && !p.awready@.truth() ==> t.aw_valid && t.aw_addr == s.aw_addr
            &&& s.w_valid && !p.wready@.truth() ==> t.w_valid && t.w_data == s.w_data && t.w_strb
                == s.w_strb
            &&& s.ar_valid && !p.arready@.truth() ==> t.ar_valid && t.ar_addr == s.ar_addr
        }),
{
}

/// No more responses than allowed are in flight in a direction, counting the
/// access being issued.
pub open spec fn within_limit(s: Axi4LiteMasterView) -> bool {
    &&& s.b_expect.len() + (if writing(s) {
        1int
    } else {
        0int
    }) <= s.config.max()
    &&& s.r_expect.len() + (if s.ar_valid {
        1int
    } else {
        0int
    }) <= s.config.max()
}

/// The limit on outstanding accesses holds at the start, and every cycle
/// keeps it.
pub proof fn lemma_limit_is_kept(s: Axi4LiteMasterView, rst: bool, p: Axi4LiteMasterPorts)
    requires
        within_limit(s),
        phases_fit(s),
    ensures
        within_limit(s.clocked(rst, p)),
        phases_fit(s.clocked(rst, p)),
{
    if !rst {
        let stall = stalls(s.lfsr, s.config.stall);
        lemma_write_cycle_keeps_limit(s.drawn(), p, stall);
        lemma_read_cycle_keeps_limit(s.drawn().write_cycle(p, stall), p, stall);
    }
}

proof fn lemma_write_cycle_keeps_limit(
    s: Axi4LiteMasterView,
    p: Axi4LiteMasterPorts,
    stall: bool,
)
    requires
        within_limit(s),
        phases_fit(s),
    ensures
        within_limit(s.write_cycle(p, stall)),
        phases_fit(s.write_cycle(p, stall)),
{
    let t = s.write_moved(p);
    assert(within_limit(t) && phases_fit(t));
    let u = t.b_received(s.b_fires(p), p.bresp);
    assert(within_limit(u) && phases_fit(u));
    let v = u.write_issued();
    assert(within_limit(v) && phases_fit(v));
}

proof fn lemma_read_cycle_keeps_limit(
    s: Axi4LiteMasterView,
    p: Axi4LiteMasterPorts,
    stall: bool,
)
    requires
        within_limit(s),
        phases_fit(s),
    ensures
        within_limit(s.read_cycle(p, stall)),
        phases_fit(s.read_cycle(p, stall)),
{
    let t = s.ar_taken(s.ar_valid && p.arready@.truth());
    assert(within_limit(t) && phases_fit(t));
    let u = t.r_received(s.r_fires(p), s.r_data(p));
    assert(within_limit(u) && phases_fit(u));
    let v = u.read_issued();
    assert(within_limit(v) && phases_fit(v));
}

/// A fresh master keeps the limit.
pub proof fn lemma_fresh_is_within_limit(config: LiteMasterConfig, seed: u64)
    ensures
        within_limit(Axi4LiteMasterView::fresh(config, seed)),
        phases_fit(Axi4LiteMasterView::fresh(config, seed)),
{
}

/// A reset drops everything queued, in flight and recorded.
pub proof fn lemma_reset_drops_everything(s: Axi4LiteMasterView, p: Axi4LiteMasterPorts)
    ensures
        ({
            let t = s.clocked(true, p);
            &&& t.idle()
            &&& t.reads.len() == 0
            &&& t.shadow == Map::<u64, Seq<u64>>::empty()
            &&& t.inflight == Set::<u64>::empty()
            &&& s.faults(true, p).len() == 0
        }),
{
}

/// How often `a` occurs.
pub open spec fn tally(addrs: Seq<u64>, a: u64) -> nat
    decreases addrs.len(),
{
    if addrs.len() == 0 {
        0
    } else {
        tally(addrs.drop_last(), a) + (if addrs.last() == a {
            1nat
        } else {
            0nat
        })
    }
}

proof fn lemma_tally_push(addrs: Seq<u64>, x: u64, a: u64)
    ensures
        tally(addrs.push(x), a) == tally(addrs, a) + (if x == a {
            1nat
        } else {
            0nat
        }),
{
    assert(addrs.push(x).drop_last() =~= addrs);
}

proof fn lemma_tally_drop_first(addrs: Seq<u64>, a: u64)
    requires
        addrs.len() > 0,
    ensures
        tally(addrs, a) == tally(addrs.drop_first(), a) + (if addrs[0] == a {
            1nat
        } else {
            0nat
        }),
    decreases addrs.len(),
{
    if addrs.len() > 1 {
        lemma_tally_drop_first(addrs.drop_last(), a);
        assert(addrs.drop_first().drop_last() =~= addrs.drop_last().drop_first());
    } else {
        assert(addrs.drop_first() =~= seq![]);
        assert(addrs.drop_last() =~= seq![]);
    }
}

/// The addresses of the writes that await a response.
pub open spec fn b_addrs(s: Axi4LiteMasterView) -> Seq<u64> {
    s.b_expect.map_values(|w: PendingWrite| w.addr)
}

/// The addresses of the reads that await their data.
pub open spec fn r_addrs(s: Axi4LiteMasterView) -> Seq<u64> {
    s.r_expect.map_values(|r: ReadView| r.addr)
}

/// How many accesses to `a` are in flight: being issued or awaiting their
/// response, in either direction.
pub open spec fn flights(s: Axi4LiteMasterView, a: u64) -> nat {
    (if writing(s) && s.cur_w.addr == a {
        1nat
    } else {
        0nat
    }) + tally(b_addrs(s), a) + (if s.ar_valid && s.cur_ar.addr == a {
        1nat
    } else {
        0nat
    }) + tally(r_addrs(s), a)
}

/// At most one access to an address is in flight, and the master knows which
/// addresses have one.
pub open spec fn one_flight_per_address(s: Axi4LiteMasterView) -> bool {
    &&& phases_fit(s)
    &&& forall|a: u64|
        #![trigger flights(s, a)]
        #![trigger s.inflight.contains(a)]
        flights(s, a) == (if s.inflight.contains(a) {
            1nat
        } else {
            0nat
        })
}

/// At most one access to an address is ever in flight, across both channels:
/// it holds at the start and every cycle keeps it.
pub proof fn lemma_one_flight_is_kept(s: Axi4LiteMasterView, rst: bool, p: Axi4LiteMasterPorts)
    requires
        one_flight_per_address(s),
    ensures
        one_flight_per_address(s.clocked(rst, p)),
{
    let t = s.clocked(rst, p);
    if rst {
        assert forall|a: u64| flights(t, a) == 0 by {
            assert(b_addrs(t) =~= seq![]);
            assert(r_addrs(t) =~= seq![]);
        }
    } else {
        let stall = stalls(s.lfsr, s.config.stall);
        lemma_same_flights(s, s.drawn());
        lemma_write_cycle_keeps_flights(s.drawn(), p, stall);
        lemma_read_cycle_keeps_flights(s.drawn().write_cycle(p, stall), p, stall);
    }
}

proof fn lemma_write_cycle_keeps_flights(
    s: Axi4LiteMasterView,
    p: Axi4LiteMasterPorts,
    stall: bool,
)
    requires
        one_flight_per_address(s),
    ensures
        one_flight_per_address(s.write_cycle(p, stall)),
{
    let t = s.write_moved(p);
    lemma_moving_keeps_flights(s, p);
    let u = t.b_received(s.b_fires(p), p.bresp);
    lemma_response_ends_flight(t, s.b_fires(p), p.bresp);
    let v = u.write_issued();
    lemma_issue_starts_write_flight(u);
    lemma_same_flights(v, s.write_cycle(p, stall));
}

proof fn lemma_read_cycle_keeps_flights(
    s: Axi4LiteMasterView,
    p: Axi4LiteMasterPorts,
    stall: bool,
)
    requires
        one_flight_per_address(s),
    ensures
        one_flight_per_address(s.read_cycle(p, stall)),
{
    let fire = s.ar_valid && p.arready@.truth();
    let t = s.ar_taken(fire);
    lemma_ar_keeps_flights(s, fire);
    let u = t.r_received(s.r_fires(p), s.r_data(p));
    lemma_data_ends_flight(t, s.r_fires(p), s.r_data(p));
    let v = u.read_issued();
    lemma_issue_starts_read_flight(u);
    lemma_same_flights(v, s.read_cycle(p, stall));
}

/// A fresh master has nothing in flight.
pub proof fn lemma_fresh_has_no_flight(config: LiteMasterConfig, seed: u64)
    ensures
        one_flight_per_address(Axi4LiteMasterView::fresh(config, seed)),
{
    let t = Axi4LiteMasterView::fresh(config, seed);
    assert forall|a: u64| flights(t, a) == 0 by {
        assert(b_addrs(t) =~= seq![]);
        assert(r_addrs(t) =~= seq![]);
    }
}

/// The READY lines and the generator have no part in what is in flight.
pub proof fn lemma_same_flights(s: Axi4LiteMasterView, t: Axi4LiteMasterView)
    requires
        one_flight_per_address(s),
        t == (Axi4LiteMasterView { b_ready: t.b_ready, r_ready: t.r_ready, lfsr: t.lfsr, ..s }),
    ensures
        one_flight_per_address(t),
{
    assert forall|a: u64| flights(t, a) == flights(s, a) by {
        assert(b_addrs(t) == b_addrs(s));
        assert(r_addrs(t) == r_addrs(s));
    }
}

/// Handing over the halves of a write keeps one flight per address.
pub proof fn lemma_moving_keeps_flights(s: Axi4LiteMasterView, p: Axi4LiteMasterPorts)
    requires
        one_flight_per_address(s),
    ensures
        one_flight_per_address(s.write_moved(p)),
{
    let t = s.write_moved(p);
    let u = s.skewed().aw_taken(s.aw_valid && p.awready@.truth()).w_taken(
        s.w_valid && p.wready@.truth(),
    );
    assert(writing(u) == writing(s));
    assert forall|a: u64| flights(t, a) == flights(s, a) by {
        lemma_tally_push(b_addrs(s), s.cur_w.addr, a);
        if u.aw_acked && u.w_acked {
            assert(b_addrs(t) =~= b_addrs(s).push(s.cur_w.addr));
        } else {
            assert(b_addrs(t) =~= b_addrs(s));
        }
        assert(r_addrs(t) =~= r_addrs(s));
    }
    assert forall|a: u64| flights(t, a) == (if t.inflight.contains(a) {
        1nat
    } else {
        0nat
    }) by {
        assert(flights(s, a) == (if s.inflight.contains(a) {
            1nat
        } else {
            0nat
        }));
    }
}

/// A write response ends the flight of its write.
pub proof fn lemma_response_ends_flight(s: Axi4LiteMasterView, fire: bool, bresp: u64)
    requires
        one_flight_per_address(s),
    ensures
        one_flight_per_address(s.b_received(fire, bresp)),
{
    let t = s.b_received(fire, bresp);
    if fire && s.b_expect.len() > 0 {
        assert(b_addrs(t) =~= b_addrs(s).drop_first());
        assert(r_addrs(t) =~= r_addrs(s));
        assert forall|a: u64| flights(t, a) == (if t.inflight.contains(a) {
            1nat
        } else {
            0nat
        }) by {
            lemma_tally_drop_first(b_addrs(s), a);
            assert(flights(s, a) == (if s.inflight.contains(a) {
                1nat
            } else {
                0nat
            }));
        }
    }
}

/// A write that is issued starts a flight where there was none.
pub proof fn lemma_issue_starts_write_flight(s: Axi4LiteMasterView)
    requires
        one_flight_per_address(s),
    ensures
        one_flight_per_address(s.write_issued()),
{
    let t = s.write_issued();
    lemma_oldest_access_goes_first(s.ops, s.inflight, true);
    assert(b_addrs(t) =~= b_addrs(s));
    assert(r_addrs(t) =~= r_addrs(s));
    assert forall|a: u64| flights(t, a) == (if t.inflight.contains(a) {
        1nat
    } else {
        0nat
    }) by {
        assert(flights(s, a) == (if s.inflight.contains(a) {
            1nat
        } else {
            0nat
        }));
    }
}

/// Handing over a read address keeps one flight per address.
pub proof fn lemma_ar_keeps_flights(s: Axi4LiteMasterView, fire: bool)
    requires
        one_flight_per_address(s),
        fire ==> s.ar_valid,
    ensures
        one_flight_per_address(s.ar_taken(fire)),
{
    let t = s.ar_taken(fire);
    assert(b_addrs(t) =~= b_addrs(s));
    assert forall|a: u64| flights(t, a) == (if t.inflight.contains(a) {
        1nat
    } else {
        0nat
    }) by {
        lemma_tally_push(r_addrs(s), s.cur_ar.addr, a);
        if fire {
            assert(r_addrs(t) =~= r_addrs(s).push(s.cur_ar.addr));
        } else {
            assert(r_addrs(t) =~= r_addrs(s));
        }
        assert(flights(s, a) == (if s.inflight.contains(a) {
            1nat
        } else {
            0nat
        }));
    }
}

/// Read data ends the flight of its read.
pub proof fn lemma_data_ends_flight(s: Axi4LiteMasterView, fire: bool, data: Seq<u64>)
    requires
        one_flight_per_address(s),
    ensures
        one_flight_per_address(s.r_received(fire, data)),
{
    let t = s.r_received(fire, data);
    if fire && s.r_expect.len() > 0 {
        assert(r_addrs(t) =~= r_addrs(s).drop_first());
        assert(b_addrs(t) =~= b_addrs(s));
        assert forall|a: u64| flights(t, a) == (if t.inflight.contains(a) {
            1nat
        } else {
            0nat
        }) by {
            lemma_tally_drop_first(r_addrs(s), a);
            assert(flights(s, a) == (if s.inflight.contains(a) {
                1nat
            } else {
                0nat
            }));
        }
    }
}

/// A read that is issued starts a flight where there was none.
pub proof fn lemma_issue_starts_read_flight(s: Axi4LiteMasterView)
    requires
        one_flight_per_address(s),
    ensures
        one_flight_per_address(s.read_issued()),
{
    let t = s.read_issued();
    lemma_oldest_access_goes_first(s.ops, s.inflight, false);
    assert(b_addrs(t) =~= b_addrs(s));
    assert(r_addrs(t) =~= r_addrs(s));
    assert forall|a: u64| flights(t, a) == (if t.inflight.contains(a) {
        1nat
    } else {
        0nat
    }) by {
        assert(flights(s, a) == (if s.inflight.contains(a) {
            1nat
        } else {
            0nat
        }));
    }
}

/// The queue never gets stuck: while nothing is in flight, some queued access
/// may be issued.
pub proof fn lemma_queue_moves(ops: Seq<OpView>)
    requires
        ops.len() > 0,
    ensures
        next_issuable(ops, Set::empty(), true, 0) == Some(0int) || next_issuable(
            ops,
            Set::empty(),
            false,
            0,
        ) == Some(0int),
{
    assert(issuable(ops, Set::empty(), ops[0].is_write(), 0));
}

/// What a memory holds at an address; zero where nothing was written.
pub open spec fn memory_at(m: Map<u64, Seq<u64>>, addr: u64, width: u32) -> Seq<u64> {
    if m.contains_key(addr) {
        m[addr]
    } else {
        zeros(word_count(width))
    }
}

/// The word at aligned address `a` of a memory that held `base` and has applied
/// accesses in program order.
pub open spec fn replayed(base: Map<u64, Seq<u64>>, ops: Seq<OpView>, a: u64, width: u32) -> Seq<
    u64,
> {
    left_by_all(ops, a, memory_at(base, a, width), width)
}

/// Whether every checked read from position `from` on expects what a memory
/// holds when the accesses before it have been applied.
pub open spec fn expects_program_order(
    base: Map<u64, Seq<u64>>,
    ops: Seq<OpView>,
    from: int,
    width: u32,
) -> bool {
    forall|i: int|
        from <= i < ops.len() ==> match #[trigger] ops[i] {
            OpView::Read(r) => r.expect matches Some(want) ==> want == replayed(
                base,
                ops.take(i),
                aligned(r.addr, lane_count(width)),
                width,
            ),
            OpView::Write { .. } => true,
        }
}

/// Whether what the master has recorded is what a memory holds that held `base`
/// and has applied what is queued.
pub open spec fn records_program_order(s: Axi4LiteMasterView, base: Map<u64, Seq<u64>>) -> bool {
    forall|a: u64|
        aligned(a, lane_count(s.config.width)) == a ==> #[trigger] s.recorded(a) == replayed(
            base,
            s.ops,
            a,
            s.config.width,
        )
}

/// A masked word vector is masked, and so are zeros.
pub proof fn lemma_masked_facts(words: Seq<u64>, width: u32)
    requires
        words.len() == word_count(width),
    ensures
        masked(masked(words, width), width) == masked(words, width),
        masked(words, width).len() == words.len(),
        masked(zeros(word_count(width)), width) == zeros(word_count(width)),
{
    let m = top_mask(width);
    let w = words.last();
    assert((w & m) & m == w & m && 0u64 & m == 0) by (bit_vector);
    assert(masked(masked(words, width), width) =~= masked(words, width));
    assert(masked(zeros(word_count(width)), width) =~= zeros(word_count(width)));
}

/// A fresh master has recorded what an empty memory holds.
pub proof fn lemma_fresh_records_program_order(config: LiteMasterConfig, seed: u64)
    ensures
        records_program_order(Axi4LiteMasterView::fresh(config, seed), Map::empty()),
{
}

/// Whatever is queued is recorded: a write with any strobe, a read-modify-write
/// or a read leaves the record what a memory holds that has applied it too.
pub proof fn lemma_queueing_is_recorded(
    s: Axi4LiteMasterView,
    base: Map<u64, Seq<u64>>,
    op: OpView,
)
    requires
        records_program_order(s, base),
    ensures
        records_program_order(s.queued(op), base),
{
    let t = s.queued(op);
    let width = s.config.width;
    let key = aligned(op.addr(), lane_count(width));
    lemma_aligned_twice(op.addr(), lane_count(width));
    assert(t.ops.drop_last() =~= s.ops);
    assert forall|a: u64| aligned(a, lane_count(width)) == a implies #[trigger] t.recorded(a)
        == replayed(base, t.ops, a, width) by {
        assert(s.recorded(a) == replayed(base, s.ops, a, width));
        assert(s.recorded(key) == replayed(base, s.ops, key, width));
    }
}

proof fn lemma_queueing_keeps_order(
    base: Map<u64, Seq<u64>>,
    ops: Seq<OpView>,
    from: int,
    op: OpView,
    width: u32,
)
    requires
        0 <= from,
        expects_program_order(base, ops, from, width),
        op matches OpView::Read(r) ==> (r.expect matches Some(want) ==> want == replayed(
            base,
            ops,
            aligned(r.addr, lane_count(width)),
            width,
        )),
    ensures
        expects_program_order(base, ops.push(op), from, width),
{
    let all = ops.push(op);
    assert forall|i: int| from <= i < all.len() implies match #[trigger] all[i] {
        OpView::Read(r) => r.expect matches Some(want) ==> want == replayed(
            base,
            all.take(i),
            aligned(r.addr, lane_count(width)),
            width,
        ),
        OpView::Write { .. } => true,
    } by {
        if i < ops.len() {
            assert(all.take(i) =~= ops.take(i));
            assert(all[i] == ops[i]);
        } else {
            assert(all.take(i) =~= ops);
        }
    }
}

/// Random traffic checks itself soundly, whatever was queued before it: every
/// read that it makes up expects exactly what a memory holds that has applied
/// the accesses queued before that read, and the record stays what such a
/// memory holds in the end.
pub proof fn lemma_random_traffic_expects_program_order(
    s: Axi4LiteMasterView,
    base: Map<u64, Seq<u64>>,
    n: nat,
    span: u64,
    read_percent: u64,
)
    requires
        records_program_order(s, base),
    ensures
        ({
            let t = s.random_traffic(n, span, read_percent);
            &&& t.config == s.config
            &&& t.ops.len() == s.ops.len() + n
            &&& t.ops.take(s.ops.len() as int) == s.ops
            &&& expects_program_order(base, t.ops, s.ops.len() as int, s.config.width)
            &&& records_program_order(t, base)
        }),
    decreases n,
{
    let from = s.ops.len() as int;
    let width = s.config.width;
    if n == 0 {
        assert(s.ops.take(from) =~= s.ops);
    } else {
        let m = (n - 1) as nat;
        lemma_random_traffic_expects_program_order(s, base, m, span, read_percent);
        let k = s.random_traffic(m, span, read_percent);
        let t = k.random_access(span, read_percent);
        let op = t.ops.last();
        let x = xorshift(k.traffic_lfsr);
        lemma_aligned_twice(x % span, lane_count(width));
        assert(t.ops =~= k.ops.push(op));
        assert(t.ops.take(from) =~= k.ops.take(from));
        assert(k.recorded(op.addr()) == replayed(base, k.ops, op.addr(), width));
        lemma_queueing_keeps_order(base, k.ops, from, op, width);
        lemma_queueing_is_recorded(k, base, op);
        let q = k.queued(op);
        assert forall|a: u64| #[trigger] t.recorded(a) == q.recorded(a) by {}
        lemma_same_record(q, t, base);
    }
}

proof fn lemma_same_record(
    s: Axi4LiteMasterView,
    t: Axi4LiteMasterView,
    base: Map<u64, Seq<u64>>,
)
    requires
        records_program_order(s, base),
        t.ops == s.ops,
        t.config == s.config,
        t.latest == s.latest,
    ensures
        records_program_order(t, base),
{
    assert forall|a: u64| aligned(a, lane_count(s.config.width)) == a implies #[trigger] t.recorded(
        a,
    ) == replayed(base, t.ops, a, t.config.width) by {
        assert(s.recorded(a) == replayed(base, s.ops, a, s.config.width));
    }
}

/// Random strobed writes record what a memory holds that has applied them, on
/// top of whatever was queued before: the merge of the recorded value is the
/// merge a memory makes.
pub proof fn lemma_strobed_writes_are_recorded(
    s: Axi4LiteMasterView,
    base: Map<u64, Seq<u64>>,
    n: nat,
    span: u64,
)
    requires
        records_program_order(s, base),
    ensures
        s.random_strobed_writes(n, span).config == s.config,
        records_program_order(s.random_strobed_writes(n, span), base),
    decreases n,
{
    if n > 0 {
        let m = (n - 1) as nat;
        lemma_strobed_writes_are_recorded(s, base, m, span);
        let k = s.random_strobed_writes(m, span);
        let t = k.random_strobed_write(span);
        let op = t.ops.last();
        lemma_queueing_is_recorded(k, base, op);
        lemma_same_record(k.queued(op), t, base);
    }
}

/// Random writes record what a memory holds that has applied them, on top of
/// whatever was queued before.
pub proof fn lemma_random_writes_are_recorded(
    s: Axi4LiteMasterView,
    base: Map<u64, Seq<u64>>,
    n: nat,
    span: u64,
)
    requires
        records_program_order(s, base),
    ensures
        s.random_writes(n, span).config == s.config,
        records_program_order(s.random_writes(n, span), base),
    decreases n,
{
    if n > 0 {
        let m = (n - 1) as nat;
        lemma_random_writes_are_recorded(s, base, m, span);
        let k = s.random_writes(m, span);
        let t = k.random_write(span);
        let op = t.ops.last();
        lemma_queueing_is_recorded(k, base, op);
        lemma_same_record(k.queued(op), t, base);
    }
}

/// Whether a word is as wide as the bus, with no bit set above its width.
pub open spec fn clean(word: Seq<u64>, width: u32) -> bool {
    word.len() == word_count(width) && masked(word, width) == word
}

/// Whether what is to be read back at `a` is what a memory holds there that held
/// `base` and has applied what is queued.
pub open spec fn keeps_program_order(
    s: Axi4LiteMasterView,
    base: Map<u64, Seq<u64>>,
    a: u64,
) -> bool {
    let width = s.config.width;
    &&& aligned(a, lane_count(width)) == a
    &&& s.kept(a) == replayed(base, s.ops, a, width)
    &&& clean(s.kept(a), width)
}

/// Zeros are clean.
pub proof fn lemma_zeros_are_clean(width: u32)
    ensures
        clean(zeros(word_count(width)), width),
{
    lemma_masked_facts(zeros(word_count(width)), width);
}

/// Random data is clean.
pub proof fn lemma_random_data_is_clean(x: u64, width: u32)
    ensures
        clean(random_data(x, width), width),
{
    lemma_masked_facts(
        Seq::new(word_count(width), |i: int| xorshift_nth(x, (i + 1) as nat)),
        width,
    );
}

/// On a bus of whole bytes, a strobed write keeps a word clean.
pub proof fn lemma_write_keeps_clean(word: Seq<u64>, data: Seq<u64>, strb: Seq<u64>, width: u32)
    requires
        width > 0,
        width % 8 == 0,
        clean(word, width),
    ensures
        clean(merged(word, data, strb, lane_count(width) as nat), width),
{
    let lanes = lane_count(width) as nat;
    lemma_lanes_fit(width);
    lemma_merged_len(word, data, strb, lanes);
    lemma_merge_stays_masked(word, data, strb, width, lanes);
}

/// A fresh master has nothing to read back but what an empty memory holds.
pub proof fn lemma_fresh_keeps_program_order(config: LiteMasterConfig, seed: u64, a: u64)
    requires
        aligned(a, lane_count(config.width)) == a,
    ensures
        keeps_program_order(Axi4LiteMasterView::fresh(config, seed), Map::empty(), a),
{
    lemma_zeros_are_clean(config.width);
}

/// An access that does not change the word leaves what is to be read back right.
pub proof fn lemma_other_accesses_keep_read_back(
    s: Axi4LiteMasterView,
    base: Map<u64, Seq<u64>>,
    op: OpView,
    a: u64,
)
    requires
        keeps_program_order(s, base, a),
        !op.changes() || aligned(op.addr(), lane_count(s.config.width)) != a,
    ensures
        keeps_program_order(s.queued(op), base, a),
{
    assert(s.queued(op).ops.drop_last() =~= s.ops);
}

proof fn lemma_made_up_write_is_kept(
    s: Axi4LiteMasterView,
    base: Map<u64, Seq<u64>>,
    addr: u64,
    data: Seq<u64>,
    strb: Seq<u64>,
    kept: Seq<u64>,
    x: u64,
    a: u64,
)
    requires
        keeps_program_order(s, base, a),
        s.config.width > 0,
        s.config.width % 8 == 0,
        aligned(addr, lane_count(s.config.width)) == addr,
        kept == merged(s.kept(addr), data, strb, lane_count(s.config.width) as nat) || strb
            == full_strobe(s.config.width) && kept == data && clean(data, s.config.width),
    ensures
        keeps_program_order(
            (Axi4LiteMasterView { traffic_lfsr: x, ..s.wrote(addr, data, strb, kept) }),
            base,
            a,
        ),
{
    let width = s.config.width;
    let t = Axi4LiteMasterView { traffic_lfsr: x, ..s.wrote(addr, data, strb, kept) };
    assert(t.ops.drop_last() =~= s.ops);
    if addr == a {
        lemma_write_keeps_clean(s.kept(a), data, strb, width);
        if strb == full_strobe(width) && clean(data, width) {
            lemma_full_write_replaces(s.kept(a), data, width);
        }
    }
}

/// Made-up writes are kept right: on a bus of whole bytes, where what is to be
/// read back at `a` is what a memory holds, it still is after any number of
/// them, whole or strobed, to whatever addresses.
pub proof fn lemma_random_writes_are_kept(
    s: Axi4LiteMasterView,
    base: Map<u64, Seq<u64>>,
    n: nat,
    span: u64,
    a: u64,
)
    requires
        keeps_program_order(s, base, a),
        s.config.width > 0,
        s.config.width % 8 == 0,
    ensures
        s.random_writes(n, span).config == s.config,
        s.random_strobed_writes(n, span).config == s.config,
        keeps_program_order(s.random_writes(n, span), base, a),
        keeps_program_order(s.random_strobed_writes(n, span), base, a),
    decreases n,
{
    if n > 0 {
        let m = (n - 1) as nat;
        let width = s.config.width;
        let lanes = lane_count(width);
        lemma_random_writes_are_kept(s, base, m, span, a);
        let k = s.random_writes(m, span);
        let x = xorshift(k.traffic_lfsr);
        let addr = placed(x, span, lanes);
        let data = random_data(x, width);
        lemma_aligned_twice(x % span, lanes);
        lemma_random_data_is_clean(x, width);
        let strb = full_strobe(width);
        lemma_made_up_write_is_kept(k, base, addr, data, strb, data, after_data(x, width), a);
        let k = s.random_strobed_writes(m, span);
        let x = xorshift(k.traffic_lfsr);
        let addr = placed(x, span, lanes);
        let data = random_data(x, width);
        lemma_aligned_twice(x % span, lanes);
        let y = after_data(x, width);
        let strb = random_strobe(y, word_count(lanes as u32), lanes as nat);
        let kept = merged(k.kept(addr), data, strb, lanes as nat);
        let z = xorshift_nth(y, lanes as nat);
        lemma_made_up_write_is_kept(k, base, addr, data, strb, kept, z, a);
    }
}

/// The writes of random traffic are kept right too.
pub proof fn lemma_random_traffic_is_kept(
    s: Axi4LiteMasterView,
    base: Map<u64, Seq<u64>>,
    n: nat,
    span: u64,
    read_percent: u64,
    a: u64,
)
    requires
        keeps_program_order(s, base, a),
        s.config.width > 0,
        s.config.width % 8 == 0,
    ensures
        s.random_traffic(n, span, read_percent).config == s.config,
        keeps_program_order(s.random_traffic(n, span, read_percent), base, a),
    decreases n,
{
    if n > 0 {
        let width = s.config.width;
        lemma_random_traffic_is_kept(s, base, (n - 1) as nat, span, read_percent, a);
        let k = s.random_traffic((n - 1) as nat, span, read_percent);
        let x = xorshift(k.traffic_lfsr);
        let y = xorshift(x);
        let addr = placed(x, span, lane_count(width));
        if y % 100 < read_percent {
            let op = OpView::Read(ReadView { addr, expect: Some(k.recorded(addr)), rmw: None });
            lemma_other_accesses_keep_read_back(k, base, op, a);
        } else {
            let data = random_data(y, width);
            let strb = full_strobe(width);
            lemma_aligned_twice(x % span, lane_count(width));
            lemma_random_data_is_clean(y, width);
            lemma_made_up_write_is_kept(k, base, addr, data, strb, data, after_data(y, width), a);
        }
    }
}

/// Reading back checks soundly: where what is to be read back is what a memory
/// holds that has applied everything queued, the reads that `verify_all` queues
/// expect what that memory holds.
pub proof fn lemma_verify_all_expects_program_order(
    s: Axi4LiteMasterView,
    base: Map<u64, Seq<u64>>,
    addrs: Seq<u64>,
)
    requires
        forall|i: int|
            0 <= i < addrs.len() ==> s.shadow.contains_key(#[trigger] addrs[i])
                && keeps_program_order(s, base, addrs[i]),
    ensures
        expects_program_order(base, s.ops + s.checks(addrs), s.ops.len() as int, s.config.width),
        forall|a: u64| #[trigger]
            replayed(base, s.ops + s.checks(addrs), a, s.config.width) == replayed(
                base,
                s.ops,
                a,
                s.config.width,
            ),
    decreases addrs.len(),
{
    let width = s.config.width;
    let from = s.ops.len() as int;
    if addrs.len() == 0 {
        assert(s.ops + s.checks(addrs) =~= s.ops);
    } else {
        let rest = addrs.drop_last();
        assert forall|i: int| 0 <= i < rest.len() implies s.shadow.contains_key(#[trigger] rest[i])
            && keeps_program_order(s, base, rest[i]) by {
            assert(rest[i] == addrs[i]);
        }
        lemma_verify_all_expects_program_order(s, base, rest);
        let a = addrs[addrs.len() - 1];
        assert(s.shadow.contains_key(a) && keeps_program_order(s, base, a));
        let op = OpView::Read(ReadView { addr: a, expect: Some(s.shadow[a]), rmw: None });
        let before = s.ops + s.checks(rest);
        let all = s.ops + s.checks(addrs);
        assert(all =~= before.push(op));
        assert(all.drop_last() =~= before);
        assert(replayed(base, before, a, width) == replayed(base, s.ops, a, width));
        lemma_queueing_keeps_order(base, before, from, op, width);
        assert forall|x: u64| #[trigger] replayed(base, all, x, width) == replayed(
            base,
            s.ops,
            x,
            width,
        ) by {
            assert(replayed(base, before, x, width) == replayed(base, s.ops, x, width));
        }
    }
}

/// A run of cycles without reset.
pub open spec fn run(s: Axi4LiteMasterView, cycles: Seq<Axi4LiteMasterPorts>) ->
    Axi4LiteMasterView
    decreases cycles.len(),
{
    if cycles.len() == 0 {
        s
    } else {
        run(s, cycles.drop_last()).clocked(false, cycles.last())
    }
}

/// WVALID follows AWVALID after the configured skew: the cycle that issues a
/// write with a skew of `d` cycles raises AWVALID, and WVALID comes after
/// exactly `d` further cycles, with the data unchanged, whatever happens on the
/// bus meanwhile.
pub proof fn lemma_w_follows_after_delay(
    s: Axi4LiteMasterView,
    p: Axi4LiteMasterPorts,
    d: u64,
    cycles: Seq<Axi4LiteMasterPorts>,
)
    requires
        s.config.w_delay == Some(d),
        d > 0,
        ({
            let m = s.drawn().write_moved(p).b_received(s.b_fires(p), p.bresp);
            &&& m.write_idle()
            &&& next_issuable(m.ops, m.inflight, true, 0) matches Some(i)
            &&& m.ops[i] is Write
        }),
        cycles.len() <= d,
    ensures
        ({
            let t = s.clocked(false, p);
            let u = run(t, cycles);
            &&& t.aw_valid && !t.w_valid
            &&& cycles.len() < d ==> !u.w_valid
            &&& cycles.len() == d ==> u.w_valid && u.w_data == t.w_data && u.w_strb == t.w_strb
        }),
{
    let stall = stalls(s.lfsr, s.config.stall);
    lemma_read_cycle_leaves_the_write(s.drawn().write_cycle(p, stall), p, stall);
    lemma_skew_counts_down(s.clocked(false, p), cycles);
}

proof fn lemma_read_cycle_leaves_the_write(
    s: Axi4LiteMasterView,
    p: Axi4LiteMasterPorts,
    stall: bool,
)
    ensures
        ({
            let t = s.read_cycle(p, stall);
            &&& t.w_delay == s.w_delay && t.w_valid == s.w_valid && t.w_acked == s.w_acked
            &&& t.w_data == s.w_data && t.w_strb == s.w_strb && t.aw_valid == s.aw_valid
        }),
{
}

proof fn lemma_skew_counts_one(s: Axi4LiteMasterView, p: Axi4LiteMasterPorts)
    requires
        s.w_delay is Some,
        !s.w_valid && !s.w_acked,
    ensures
        ({
            let t = s.clocked(false, p);
            &&& t.w_data == s.w_data && t.w_strb == s.w_strb && !t.w_acked
            &&& s.w_delay->0 > 0 ==> t.w_delay == Some((s.w_delay->0 - 1) as u64) && !t.w_valid
            &&& s.w_delay->0 == 0 ==> t.w_valid
        }),
{
    let stall = stalls(s.lfsr, s.config.stall);
    let moved = s.drawn().write_moved(p).b_received(s.b_fires(p), p.bresp);
    assert(!moved.write_idle());
    lemma_read_cycle_leaves_the_write(s.drawn().write_cycle(p, stall), p, stall);
}

proof fn lemma_skew_counts_down(s: Axi4LiteMasterView, cycles: Seq<Axi4LiteMasterPorts>)
    requires
        s.w_delay is Some,
        !s.w_valid && !s.w_acked,
        cycles.len() <= s.w_delay->0 + 1,
    ensures
        ({
            let t = run(s, cycles);
            &&& t.w_data == s.w_data && t.w_strb == s.w_strb && !t.w_acked
            &&& cycles.len() <= s.w_delay->0 ==> t.w_delay == Some(
                (s.w_delay->0 - cycles.len()) as u64,
            ) && !t.w_valid
            &&& cycles.len() == s.w_delay->0 + 1 ==> t.w_valid
        }),
    decreases cycles.len(),
{
    if cycles.len() > 0 {
        lemma_skew_counts_down(s, cycles.drop_last());
        lemma_skew_counts_one(run(s, cycles.drop_last()), cycles.last());
    }
}

/// A read-modify-write writes back first of all: when the data of its read
/// comes, the write of the modified data goes before everything queued, and it
/// is the next write that may be issued, so no other access to the address
/// comes in between. The modified data is to be read back at the address, and
/// what the queued accesses make of it is the latest value of its word.
pub proof fn lemma_rmw_writes_back_first(s: Axi4LiteMasterView, data: Seq<u64>)
    requires
        s.r_expect.len() > 0,
        s.r_expect[0].expect is None,
        s.r_expect[0].rmw is Some,
    ensures
        ({
            let read = s.r_expect[0];
            let t = s.r_received(true, data);
            let (mask, value) = read.rmw->0;
            let new = modified(data, mask, value);
            &&& t.ops[0] == (OpView::Write {
                addr: read.addr,
                data: new,
                strb: full_strobe(s.config.width),
                expect_ok: true,
            })
            &&& t.ops.drop_first() == s.ops
            &&& t.shadow == s.shadow.insert(read.addr, new)
            &&& t.latest == s.latest.insert(
                aligned(read.addr, lane_count(s.config.width)),
                left_by_all(
                    t.ops,
                    aligned(read.addr, lane_count(s.config.width)),
                    data,
                    s.config.width,
                ),
            )
            &&& next_issuable(t.ops, t.inflight, true, 0) == Some(0int)
            &&& forall|i: int|
                0 < i < t.ops.len() && (#[trigger] t.ops[i]).addr() == read.addr ==> !issuable(
                    t.ops,
                    t.inflight,
                    true,
                    i,
                ) && !issuable(t.ops, t.inflight, false, i)
        }),
{
    let read = s.r_expect[0];
    let t = s.r_received(true, data);
    assert(t.ops.drop_first() =~= s.ops);
    assert(t.ops[0].addr() == read.addr);
    assert(issuable(t.ops, t.inflight, true, 0));
}

/// A read-modify-write replaces exactly the masked bits: each bit of the result
/// is that of the value where the mask has one, and that of the data elsewhere.
pub proof fn lemma_rmw_replaces_masked_bits(
    data: Seq<u64>,
    mask: Seq<u64>,
    value: Seq<u64>,
    i: int,
    b: u64,
)
    requires
        0 <= i < data.len(),
        mask.len() == data.len(),
        value.len() == data.len(),
        b < 64,
    ensures
        (modified(data, mask, value)[i] >> b) & 1 == (if (mask[i] >> b) & 1 == 1 {
            (value[i] >> b) & 1
        } else {
            (data[i] >> b) & 1
        }),
{
    let (d, m, v) = (data[i], mask[i], value[i]);
    assert((((d & !m) | (v & m)) >> b) & 1 == (if (m >> b) & 1 == 1 {
        (v >> b) & 1
    } else {
        (d >> b) & 1
    })) by (bit_vector)
        requires
            b < 64,
    ;
}

} // verus!
