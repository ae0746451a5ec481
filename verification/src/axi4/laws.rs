//! What an AXI4 master keeps.

use crate::axi4::burst::{beat, INCR};
use crate::axi4::generate::{
    clipped, incr_beats, incr_burst, lemma_clipped_fits, lemma_fitted_ends_in_window, wanted_len,
    IncrBurst, ShadowView,
};
use crate::axi4::issue::{
    lemma_ids_suffice, lemma_picked_id_is_in_range, MasterConfig, ReadInputsView, ReadIssueView,
};
use crate::axi4::master::{Axi4MasterPorts, Axi4MasterView};
use crate::axi4::narrow::{plan_beats, planned, random_burst, Plan};
use crate::axi4::ops::{twos, WriteOpView};
use crate::common::lanes::{
    aligned, lane_count, lemma_aligned_is_rounding, lemma_aligned_twice, lemma_shift_is_pow2,
};
use crate::common::memory::{lemma_memory_stays_clean, MemoryView};
use crate::common::random::{stalls, xorshift, xorshift_nth};
use crate::common::stimulus::{
    full_strobe, lemma_full_write_replaces, lemma_placed_in_window, random_data, window,
};
use crate::common::words::{masked, zeros};
use crate::value::{top_mask, word_count, ValueView};
use vstd::arithmetic::power2::{lemma_pow2_pos, lemma_pow2_unfold, pow2};
use vstd::prelude::*;

verus! {

/// Whether what is offered of a write is what is being issued.
pub open spec fn offers_write(s: Axi4MasterView) -> bool {
    &&& s.aw_valid == (s.w_active && !s.w_streaming)
    &&& s.w_valid == (s.w_active && s.w_streaming)
}

/// Whether what is offered of a read is what is being issued.
pub open spec fn offers_read(r: ReadIssueView) -> bool {
    r.ar_valid == r.active
}

/// VALID stays high and its payload does not change until READY: a write
/// address, a beat of write data and a read address that are offered go on
/// being offered unchanged until they are taken.
pub proof fn lemma_offers_are_stable(s: Axi4MasterView, rst: bool, p: Axi4MasterPorts)
    requires
        offers_write(s),
        offers_read(s.reads),
    ensures
        ({
            let t = s.clocked(rst, p);
            &&& offers_write(t) && offers_read(t.reads)
            &&& !rst && s.aw_valid && !p.awready@.truth() ==> t.aw_valid && t.cur_w == s.cur_w
                && t.w_id == s.w_id
            &&& !rst && s.w_valid && !p.wready@.truth() ==> t.w_valid && t.cur_w == s.cur_w
                && t.w_beat == s.w_beat
            &&& !rst && s.reads.ar_valid && !p.arready@.truth() ==> t.reads.ar_valid
                && t.reads.cur == s.reads.cur && t.reads.id == s.reads.id
        }),
{
}

/// The read that is being issued has an ID that no outstanding read has, and
/// the limit on outstanding reads holds.
pub open spec fn read_ids_distinct(r: ReadIssueView, max: u64) -> bool {
    &&& r.out.dom().finite()
    &&& r.active ==> !r.out.contains_key(r.id)
    &&& r.out.len() + (if r.active {
        1int
    } else {
        0int
    }) <= max
}

/// The write that is being issued has an ID that no outstanding write has, and
/// the limit on outstanding writes holds.
pub open spec fn write_ids_distinct(s: Axi4MasterView) -> bool {
    &&& s.b_out.dom().finite()
    &&& s.w_active ==> !s.b_out.contains_key(s.w_id)
    &&& s.b_out.len() + (if s.w_active {
        1int
    } else {
        0int
    }) <= s.config.max_spec()
}

/// No two live reads have the same ID: a read engine of a master that builds
/// keeps its IDs distinct and stays within its limit.
pub proof fn lemma_read_ids_stay_distinct(
    r: ReadIssueView,
    p: ReadInputsView,
    config: MasterConfig,
    component: &'static str,
    awaddr: u32,
    araddr: u32,
    stall: bool,
)
    requires
        config.error(component, awaddr, araddr) is None,
        read_ids_distinct(r, config.max_spec()),
    ensures
        read_ids_distinct(r.clocked(p, config, stall), config.max_spec()),
        read_ids_distinct(r.reset(), config.max_spec()),
        read_ids_distinct(ReadIssueView::fresh(), config.max_spec()),
{
    let s = r.ar_taken(p.arready);
    assert(read_ids_distinct(s, config.max_spec()));
    let t = if r.r_fires(p) {
        s.r_received(p.rid, p.rdata)
    } else {
        s
    };
    assert(read_ids_distinct(t, config.max_spec()));
    let u = t.issued(config.max_spec(), config.id_mask_spec());
    if !t.active && t.out.len() < config.max_spec() && t.queue.len() > 0 {
        lemma_ids_suffice(config, component, awaddr, araddr, t.out.dom());
    }
    assert(read_ids_distinct(u, config.max_spec()));
}

/// No two live writes have the same ID: a master that builds keeps its write
/// IDs distinct and stays within its limit.
pub proof fn lemma_write_ids_stay_distinct(
    s: Axi4MasterView,
    p: Axi4MasterPorts,
    rst: bool,
    awaddr: u32,
    araddr: u32,
)
    requires
        s.config.error("axi4_master", awaddr, araddr) is None,
        write_ids_distinct(s),
    ensures
        write_ids_distinct(s.clocked(rst, p)),
        write_ids_distinct(Axi4MasterView::fresh(s.config, 0)),
{
    if !rst {
        let a = s.drawn();
        let b = a.write_moved(p);
        assert(write_ids_distinct(b));
        let c = b.b_received(a.b_fires(p), p);
        assert(write_ids_distinct(c));
        if !c.w_active && c.b_out.len() < c.config.max_spec() && c.w_queue.len() > 0 {
            lemma_ids_suffice(c.config, "axi4_master", awaddr, araddr, c.b_out.dom());
        }
        assert(write_ids_distinct(c.write_issued()));
    }
}

/// Whether the IDs of the reads that are offered or await data are in range.
pub open spec fn read_ids_in_range(r: ReadIssueView, mask: u64) -> bool {
    &&& r.active ==> r.id <= mask
    &&& forall|id: u64| #[trigger] r.out.contains_key(id) ==> id <= mask
}

/// Whether the IDs of the writes that are being issued or await a response are
/// in range.
pub open spec fn write_ids_in_range(s: Axi4MasterView) -> bool {
    let mask = s.config.id_mask_spec();
    &&& s.w_active ==> s.w_id <= mask
    &&& forall|id: u64| #[trigger] s.b_out.contains_key(id) ==> id <= mask
}

/// The IDs of live reads fit the ID port: the read engine keeps them in range.
pub proof fn lemma_read_ids_stay_in_range(
    r: ReadIssueView,
    p: ReadInputsView,
    config: MasterConfig,
    stall: bool,
)
    requires
        read_ids_in_range(r, config.id_mask_spec()),
    ensures
        read_ids_in_range(r.clocked(p, config, stall), config.id_mask_spec()),
        read_ids_in_range(r.reset(), config.id_mask_spec()),
        read_ids_in_range(ReadIssueView::fresh(), config.id_mask_spec()),
{
    let s = r.ar_taken(p.arready);
    let t = if r.r_fires(p) {
        s.r_received(p.rid, p.rdata)
    } else {
        s
    };
    lemma_picked_id_is_in_range(t.out.dom(), config.id_mask_spec());
}

/// The live IDs fit the ID ports: every cycle keeps those of the writes and of
/// the reads in range.
pub proof fn lemma_live_ids_stay_in_range(s: Axi4MasterView, p: Axi4MasterPorts, rst: bool)
    requires
        write_ids_in_range(s),
        read_ids_in_range(s.reads, s.config.id_mask_spec()),
    ensures
        write_ids_in_range(s.clocked(rst, p)),
        read_ids_in_range(s.clocked(rst, p).reads, s.config.id_mask_spec()),
        write_ids_in_range(Axi4MasterView::fresh(s.config, 0)),
        read_ids_in_range(Axi4MasterView::fresh(s.config, 0).reads, s.config.id_mask_spec()),
{
    let stall = stalls(s.lfsr, s.config.stall);
    lemma_read_ids_stay_in_range(s.reads, p.read_side(s.config.width), s.config, stall);
    if !rst {
        let a = s.drawn();
        let c = a.write_moved(p).b_received(a.b_fires(p), p);
        assert(write_ids_in_range(c));
        lemma_picked_id_is_in_range(c.b_out.dom(), c.config.id_mask_spec());
        assert(write_ids_in_range(c.write_issued()));
    }
}

/// Read data may interleave: a beat of one ID changes nothing about a read of
/// another, so each read goes through its own beats whatever comes in between.
pub proof fn lemma_read_data_interleaves(r: ReadIssueView, id: u64, other: u64, data: Seq<u64>)
    requires
        id != other,
        r.out.contains_key(other),
    ensures
        r.r_received(id, data).out.contains_key(other),
        r.r_received(id, data).out[other] == r.out[other],
{
}

/// A reset drops everything queued, in flight and recorded.
pub proof fn lemma_reset_drops_everything(s: Axi4MasterView, p: Axi4MasterPorts)
    ensures
        ({
            let t = s.clocked(true, p);
            &&& t.idle()
            &&& t.reads.reads.len() == 0
            &&& t.shadow == ShadowView::empty()
            &&& s.faults(true, p).len() == 0
        }),
{
}

/// The memory after the first `n` beats of a write burst.
pub open spec fn applied(m: MemoryView, op: WriteOpView, n: nat) -> MemoryView
    decreases n,
{
    if n == 0 {
        m
    } else {
        applied(m, op, (n - 1) as nat).written(
            beat(op.addr, 1u64 << op.size_log, op.kind, op.len, (n - 1) as u64) as u64,
            op.data[n - 1],
            op.strb[n - 1],
        )
    }
}

/// The memory after some write bursts, in order.
pub open spec fn applied_all(m: MemoryView, ops: Seq<WriteOpView>) -> MemoryView
    decreases ops.len(),
{
    if ops.len() == 0 {
        m
    } else {
        applied(applied_all(m, ops.drop_last()), ops.last(), (ops.last().len + 1) as nat)
    }
}

proof fn lemma_applied_keeps_width(m: MemoryView, op: WriteOpView, n: nat)
    ensures
        applied(m, op, n).width == m.width,
    decreases n,
{
    if n > 0 {
        lemma_applied_keeps_width(m, op, (n - 1) as nat);
    }
}

/// A planned burst has as many beats as asked for, each made up in turn.
pub proof fn lemma_plan_beats_prefix(
    lfsr: u64,
    shadow: ShadowView,
    p: Plan,
    width: u32,
    k: nat,
    n: nat,
)
    requires
        k <= n,
    ensures
        plan_beats(lfsr, shadow, p, width, n).data.len() == n,
        plan_beats(lfsr, shadow, p, width, n).strb.len() == n,
        k < n ==> plan_beats(lfsr, shadow, p, width, n).data[k as int] == plan_beats(
            lfsr,
            shadow,
            p,
            width,
            k + 1,
        ).data[k as int],
        k < n ==> plan_beats(lfsr, shadow, p, width, n).strb[k as int] == plan_beats(
            lfsr,
            shadow,
            p,
            width,
            k + 1,
        ).strb[k as int],
    decreases n,
{
    if n > 0 {
        let m = (n - 1) as nat;
        lemma_plan_beats_prefix(lfsr, shadow, p, width, if k < m {
            k
        } else {
            m
        }, m);
    }
}

/// What a master records of a planned burst is what a memory holds that has
/// applied it.
pub proof fn lemma_plan_applies(
    lfsr: u64,
    shadow: ShadowView,
    p: Plan,
    op: WriteOpView,
    m: MemoryView,
    n: nat,
)
    requires
        m.words == shadow.values,
        n <= p.len + 1,
        op.addr == p.base,
        op.size_log == p.size_log,
        op.kind == p.kind,
        op.len == p.len,
        op.data == plan_beats(lfsr, shadow, p, m.width, (p.len + 1) as nat).data,
        op.strb == plan_beats(lfsr, shadow, p, m.width, (p.len + 1) as nat).strb,
    ensures
        applied(m, op, n).words == plan_beats(lfsr, shadow, p, m.width, n).shadow.values,
    decreases n,
{
    if n > 0 {
        let k = (n - 1) as nat;
        lemma_plan_applies(lfsr, shadow, p, op, m, k);
        lemma_plan_beats_prefix(lfsr, shadow, p, m.width, k, (p.len + 1) as nat);
        lemma_plan_beats_prefix(lfsr, shadow, p, m.width, k, k);
        lemma_applied_keeps_width(m, op, k);
        let before = plan_beats(lfsr, shadow, p, m.width, k);
        let a = applied(m, op, k);
        let addr = beat(p.base, p.bytes(), p.kind, p.len, k as u64) as u64;
        assert(a.at(addr) == before.shadow.at(aligned(addr, lane_count(m.width)), m.width));
        assert(applied(m, op, n).words =~= plan_beats(
            lfsr,
            shadow,
            p,
            m.width,
            n,
        ).shadow.values);
    }
}

/// Random bursts check themselves soundly: what a fresh master has recorded of
/// its random bursts, of any type and size, is exactly what a memory holds
/// that has applied them in order.
pub proof fn lemma_random_bursts_are_recorded(
    config: MasterConfig,
    seed: u64,
    n: nat,
    span: u64,
    max_len: u64,
)
    ensures
        ({
            let t = Axi4MasterView::fresh(config, seed).random_bursts(n, span, max_len);
            &&& t.config == config
            &&& t.shadow.values == applied_all(
                MemoryView::empty(config.width, None),
                t.w_queue,
            ).words
        }),
    decreases n,
{
    let s = Axi4MasterView::fresh(config, seed);
    let m = MemoryView::empty(config.width, None);
    if n > 0 {
        let k = (n - 1) as nat;
        lemma_random_bursts_are_recorded(config, seed, k, span, max_len);
        let t = s.random_bursts(k, span, max_len);
        let u = s.random_bursts(n, span, max_len);
        let (p, x) = planned(t.traffic_lfsr, span, max_len, config.width);
        let op = random_burst(t.traffic_lfsr, t.shadow, span, max_len, config.width).0;
        let before = applied_all(m, t.w_queue);
        lemma_applied_all_keeps_width(m, t.w_queue);
        assert(u.w_queue =~= t.w_queue.push(op));
        assert(u.w_queue.drop_last() =~= t.w_queue);
        lemma_plan_applies(x, t.shadow, p, op, before, (p.len + 1) as nat);
    } else {
        assert(s.shadow.values =~= applied_all(m, s.w_queue).words);
    }
}

proof fn lemma_applied_all_keeps_width(m: MemoryView, ops: Seq<WriteOpView>)
    ensures
        applied_all(m, ops).width == m.width,
    decreases ops.len(),
{
    if ops.len() > 0 {
        lemma_applied_all_keeps_width(m, ops.drop_last());
        lemma_applied_keeps_width(
            applied_all(m, ops.drop_last()),
            ops.last(),
            (ops.last().len + 1) as nat,
        );
    }
}

/// Two divides a power of two as often as its exponent says.
pub proof fn lemma_twos_of_pow2(n: u64, k: nat)
    requires
        n == pow2(k),
    ensures
        twos(n) == k,
    decreases k,
{
    lemma_pow2_pos(k);
    if k == 0 {
        vstd::arithmetic::power2::lemma2_to64();
    } else {
        lemma_pow2_unfold(k);
        lemma_twos_of_pow2(n / 2, (k - 1) as nat);
    }
}

/// Whether a bus has a power of two of whole byte lanes.
pub open spec fn plain_bus(width: u32, lanes_log: nat) -> bool {
    &&& width > 0
    &&& width % 8 == 0
    &&& lanes_log < 64
    &&& lane_count(width) == pow2(lanes_log)
}

/// Random data is as wide as the bus.
pub proof fn lemma_random_data_is_masked(x: u64, width: u32)
    ensures
        random_data(x, width).len() == word_count(width),
        masked(random_data(x, width), width) == random_data(x, width),
{
    let words = Seq::new(word_count(width), |i: int| xorshift_nth(x, (i + 1) as nat));
    let m = top_mask(width);
    let w = words.last();
    assert((w & m) & m == w & m) by (bit_vector);
    assert(masked(masked(words, width), width) =~= masked(words, width));
}

/// An incrementing burst has as many beats as asked for, each made up in turn.
pub proof fn lemma_incr_beats_prefix(
    lfsr: u64,
    shadow: ShadowView,
    base: u64,
    len: u64,
    width: u32,
    mark: bool,
    k: nat,
    n: nat,
)
    requires
        k <= n,
    ensures
        ({
            let b = incr_beats(lfsr, shadow, base, len, width, mark, n);
            let c = incr_beats(lfsr, shadow, base, len, width, mark, k + 1);
            &&& b.data.len() == n && b.strb.len() == n
            &&& k < n ==> b.data[k as int] == c.data[k as int]
            &&& k < n ==> b.strb[k as int] == full_strobe(width)
        }),
    decreases n,
{
    if n > 0 {
        let m = (n - 1) as nat;
        lemma_incr_beats_prefix(lfsr, shadow, base, len, width, mark, if k < m {
            k
        } else {
            m
        }, m);
    }
}

/// What a master records of an incrementing burst is what a memory holds that
/// has applied it.
pub proof fn lemma_incr_applies(
    lfsr: u64,
    b: IncrBurst,
    shadow: ShadowView,
    drawn: u64,
    m: MemoryView,
    lanes_log: nat,
    mark: bool,
    n: nat,
)
    requires
        plain_bus(m.width, lanes_log),
        m.words == shadow.values,
        m.wf(),
        m.clean(),
        aligned(b.base, lane_count(m.width)) == b.base,
        b.len == clipped(b.base, drawn, lane_count(m.width)),
        b.made == incr_beats(lfsr, shadow, b.base, b.len, m.width, mark, (b.len + 1) as nat),
        n <= b.len + 1,
    ensures
        ({
            let t = applied(m, b.op(m.width), n);
            &&& t.words == incr_beats(
                lfsr,
                shadow,
                b.base,
                b.len,
                m.width,
                mark,
                n,
            ).shadow.values
            &&& t.wf()
            &&& t.clean()
            &&& t.width == m.width
        }),
    decreases n,
{
    let width = m.width;
    let lanes = lane_count(width);
    let op = b.op(width);
    if n > 0 {
        let k = (n - 1) as nat;
        lemma_incr_applies(lfsr, b, shadow, drawn, m, lanes_log, mark, k);
        lemma_incr_beats_prefix(lfsr, shadow, b.base, b.len, width, mark, k, (b.len + 1) as nat);
        lemma_incr_beats_prefix(lfsr, shadow, b.base, b.len, width, mark, k, k);
        let before = incr_beats(lfsr, shadow, b.base, b.len, width, mark, k);
        let d = random_data(before.lfsr, width);
        lemma_random_data_is_masked(before.lfsr, width);
        assert(op.data[k as int] == d);
        lemma_twos_of_pow2(lanes, lanes_log);
        lemma_shift_is_pow2(lanes_log as u64);
        assert(1u64 << op.size_log == lanes);
        lemma_clipped_fits(b.base, drawn, lanes, k as u64);
        let addr = beat(b.base, lanes, INCR, b.len, k as u64) as u64;
        lemma_aligned_is_rounding(b.base, lanes, lanes_log);
        lemma_aligned_is_rounding(addr, lanes, lanes_log);
        lemma_pow2_pos(lanes_log);
        vstd::arithmetic::div_mod::lemma_mod_multiples_vanish(
            k as int,
            b.base as int,
            lanes as int,
        );
        assert(lanes as int * k as int == k * lanes) by (nonlinear_arith);
        let a = applied(m, op, k);
        assert(a.key(addr) == addr);
        lemma_memory_stays_clean(a, addr, d, full_strobe(width), ValueView::Unit, 0);
        assert(masked(a.at(addr), width) == a.at(addr)) by {
            let z = zeros(word_count(width));
            let t = top_mask(width);
            assert(0u64 & t == 0) by (bit_vector);
            assert(masked(z, width) =~= z);
        }
        lemma_full_write_replaces(a.at(addr), d, width);
        assert(applied(m, op, n).words =~= incr_beats(
            lfsr,
            shadow,
            b.base,
            b.len,
            width,
            mark,
            n,
        ).shadow.values);
    }
}

/// Random burst writes check themselves soundly: on a bus with a power of two
/// of whole byte lanes, what a fresh master has recorded of its random burst
/// writes is exactly what a memory holds that has applied them in order.
pub proof fn lemma_random_burst_writes_are_recorded(
    config: MasterConfig,
    seed: u64,
    n: nat,
    span: u64,
    max_len: u64,
    lanes_log: nat,
)
    requires
        plain_bus(config.width, lanes_log),
        span > 0,
        max_len < u64::MAX,
    ensures
        ({
            let t = Axi4MasterView::fresh(config, seed).random_burst_writes(n, span, max_len);
            let m = applied_all(MemoryView::empty(config.width, None), t.w_queue);
            &&& t.config == config
            &&& t.shadow.values == m.words
            &&& m.wf() && m.clean() && m.width == config.width
        }),
    decreases n,
{
    let s = Axi4MasterView::fresh(config, seed);
    let m = MemoryView::empty(config.width, None);
    if n > 0 {
        let k = (n - 1) as nat;
        lemma_random_burst_writes_are_recorded(config, seed, k, span, max_len, lanes_log);
        let t = s.random_burst_writes(k, span, max_len);
        let u = s.random_burst_writes(n, span, max_len);
        let width = config.width;
        let b = incr_burst(t.traffic_lfsr, t.shadow, span, max_len, width, false);
        let x = xorshift(t.traffic_lfsr);
        let y = xorshift(x);
        lemma_aligned_twice(x % span, lane_count(width));
        let before = applied_all(m, t.w_queue);
        let drawn = wanted_len(y, b.base, max_len, lane_count(width), span);
        assert(u.w_queue =~= t.w_queue.push(b.op(width)));
        assert(u.w_queue.drop_last() =~= t.w_queue);
        lemma_incr_applies(
            y,
            b,
            t.shadow,
            drawn,
            before,
            lanes_log,
            false,
            (b.len + 1) as nat,
        );
    } else {
        assert(s.shadow.values =~= applied_all(m, s.w_queue).words);
    }
}

/// A random incrementing burst is legal: it has at most `max_len + 1` beats,
/// ends in the 4 KiB page it starts in, unless one beat alone is larger than
/// what is left of the page, and ends in its window where its first beat does.
pub proof fn lemma_random_burst_is_legal(
    lfsr: u64,
    shadow: ShadowView,
    span: u64,
    max_len: u64,
    width: u32,
    mark: bool,
)
    requires
        span > 0,
        max_len < u64::MAX,
    ensures
        ({
            let b = incr_burst(lfsr, shadow, span, max_len, width, mark);
            let lanes = lane_count(width);
            &&& b.len <= max_len
            &&& b.base < span
            &&& b.base + lanes <= span ==> b.base + (b.len + 1) * lanes <= span
            &&& b.len > 0 ==> (b.base + (b.len + 1) * lanes - 1) / 0x1000 == b.base as int
                / 0x1000
        }),
{
    let x = xorshift(lfsr);
    let y = xorshift(x);
    let lanes = lane_count(width);
    let b = incr_burst(lfsr, shadow, span, max_len, width, mark);
    lemma_aligned_twice(x % span, lanes);
    lemma_placed_in_window(x, span, lanes);
    lemma_fitted_ends_in_window(b.base, (y as int % (max_len + 1)) as u64, lanes, span);
    let wanted = wanted_len(y, b.base, max_len, lanes, span);
    lemma_clipped_fits(b.base, wanted, lanes, 0);
    let len = b.len;
    assert((len + 1) * lanes == len * lanes + lanes) by (nonlinear_arith);
    assert((len + 1) * lanes <= (wanted + 1) * lanes) by (nonlinear_arith)
        requires
            len <= wanted,
            lanes > 0,
    ;
}

/// A random incrementing burst stays in its window: on a bus with a power of
/// two of byte lanes, every byte of it lies in the `2^addr_bits`-byte window,
/// where that holds a word.
pub proof fn lemma_random_burst_stays_in_window(
    lfsr: u64,
    shadow: ShadowView,
    addr_bits: u64,
    max_len: u64,
    width: u32,
    mark: bool,
    lanes_log: nat,
)
    requires
        max_len < u64::MAX,
        lane_count(width) == pow2(lanes_log),
        lanes_log <= addr_bits < 64,
    ensures
        ({
            let b = incr_burst(lfsr, shadow, window(addr_bits), max_len, width, mark);
            b.base + (b.len + 1) * lane_count(width) <= pow2(addr_bits as nat)
        }),
{
    let span = window(addr_bits);
    let lanes = lane_count(width);
    let x = xorshift(lfsr);
    let b = incr_burst(lfsr, shadow, span, max_len, width, mark);
    lemma_shift_is_pow2(addr_bits);
    assert(span == pow2(addr_bits as nat));
    lemma_random_burst_is_legal(lfsr, shadow, span, max_len, width, mark);
    lemma_aligned_is_rounding(x % span, lanes, lanes_log);
    let k = pow2((addr_bits - lanes_log) as nat) as int;
    vstd::arithmetic::power2::lemma_pow2_adds(lanes_log, (addr_bits - lanes_log) as nat);
    let (base, l) = (b.base as int, lanes as int);
    lemma_pow2_pos(lanes_log);
    lemma_room_for_a_word(base, x as int % span as int, l, k);
}

/// An address that is rounded down in a window of whole words leaves room for a
/// word.
proof fn lemma_room_for_a_word(base: int, x: int, l: int, k: int)
    requires
        l > 0,
        0 <= x < l * k,
        base == x - x % l,
    ensures
        base + l <= l * k,
{
    vstd::arithmetic::div_mod::lemma_fundamental_div_mod(x, l);
    let q = x / l;
    assert(base == l * q);
    assert(q < k) by (nonlinear_arith)
        requires
            l * q <= x,
            x < l * k,
            l > 0,
    ;
    assert(l * q + l <= l * k) by (nonlinear_arith)
        requires
            q < k,
            l > 0,
    ;
}

} // verus!
