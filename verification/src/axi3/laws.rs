//! What an AXI3 master and an AXI3 memory keep.

use crate::axi3::fault::Axi3Fault;
use crate::axi3::master::{work_ids, Axi3MasterPorts, Axi3MasterView, WorkView};
use crate::axi3::ram::Axi3RamView;
use crate::axi3::rules::Announced;
use crate::axi4::burst::beat;
use crate::axi4::generate::{
    clipped, incr_beats, incr_burst, lemma_clipped_fits, lemma_fitted_ends_in_window, wanted_len,
    IncrBurst, ShadowView,
};
use crate::axi4::issue::{lemma_ids_suffice, lemma_picked_id_is_in_range, MasterConfig};
use crate::axi4::laws::{
    lemma_incr_beats_prefix, lemma_random_data_is_masked, lemma_read_ids_stay_in_range,
    lemma_twos_of_pow2, offers_read, plain_bus, read_ids_in_range,
};
use crate::axi4::ops::WriteOpView;
use crate::axi4::slave::Burst;
use crate::common::lanes::{
    aligned, lane_count, lemma_aligned_is_rounding, lemma_aligned_twice, lemma_shift_is_pow2,
};
use crate::common::memory::{lemma_memory_stays_clean, MemoryView};
use crate::common::monitor::Chan;
use crate::common::random::{stalls, xorshift};
use crate::common::resp::OKAY;
use crate::common::stimulus::{
    full_strobe, lemma_full_write_replaces, lemma_placed_in_window, random_data,
};
use crate::common::words::{masked, zeros};
use crate::value::{top_mask, word_count, ValueView};
use vstd::arithmetic::power2::{lemma2_to64, lemma_pow2_strictly_increases, pow2};
use vstd::prelude::*;

verus! {

/// Whether what is offered of the writes is what is being issued.
pub open spec fn offers_writes(s: Axi3MasterView) -> bool {
    &&& s.aw_valid == s.cur_aw is Some
    &&& s.w_valid == (s.active.len() > 0)
}

/// VALID stays high and its payload does not change until READY: a write
/// address, a beat of write data and a read address that are offered go on
/// being offered unchanged until they are taken.
pub proof fn lemma_offers_are_stable(s: Axi3MasterView, rst: bool, p: Axi3MasterPorts)
    requires
        offers_writes(s),
        offers_read(s.reads),
    ensures
        ({
            let t = s.clocked(rst, p);
            &&& offers_writes(t) && offers_read(t.reads)
            &&& !rst && s.aw_valid && !p.awready@.truth() ==> t.aw_valid && t.cur_aw == s.cur_aw
            &&& !rst && s.w_valid && !p.wready@.truth() ==> t.w_valid && t.active[0] == s.active[0]
            &&& !rst && s.reads.ar_valid && !p.arready@.truth() ==> t.reads.ar_valid
                && t.reads.cur == s.reads.cur && t.reads.id == s.reads.id
        }),
{
}

/// Whether no two of the writes that are offered, send data or await a
/// response have the same ID, and the limit on them holds.
pub open spec fn write_ids_distinct(s: Axi3MasterView) -> bool {
    &&& s.b_out.dom().finite()
    &&& work_ids(s.active).no_duplicates()
    &&& forall|i: int|
        0 <= i < s.active.len() ==> !s.b_out.contains_key((#[trigger] s.active[i]).id)
    &&& s.cur_aw matches Some(w) ==> !s.live().contains(w.id)
    &&& s.active.len() + s.b_out.len() + (if s.cur_aw is Some {
        1int
    } else {
        0int
    }) <= s.config.max_spec()
}

/// An address that is taken leaves the IDs of the writes distinct.
pub proof fn lemma_taken_address_keeps_ids(s: Axi3MasterView, p: Axi3MasterPorts)
    requires
        write_ids_distinct(s),
    ensures
        write_ids_distinct(s.aw_taken(p)),
{
    let t = s.aw_taken(p);
    if let Some(w) = s.cur_aw {
        let ids = work_ids(s.active);
        let after = work_ids(t.active);
        if t != s {
            assert(after =~= ids.push(w.id));
            assert forall|i: int| 0 <= i < ids.len() implies ids[i] != w.id by {
                assert(ids.to_set().contains(ids[i]));
            }
        }
    }
}

/// A beat that is taken leaves the IDs of the writes distinct.
pub proof fn lemma_taken_beat_keeps_ids(s: Axi3MasterView, fire: bool)
    requires
        write_ids_distinct(s),
    ensures
        write_ids_distinct(s.w_taken(fire)),
{
    let t = s.w_taken(fire);
    if fire && s.active.len() > 0 {
        let ids = work_ids(s.active);
        let after = work_ids(t.active);
        let w = s.active[0];
        assert(ids[0] == w.id);
        if (w.beat + 1) as u64 > w.op.len {
            assert(after =~= ids.drop_first());
        } else {
            assert(after =~= ids.drop_first().push(w.id));
        }
        assert forall|i: int| 0 <= i < t.active.len() implies !t.b_out.contains_key(
            (#[trigger] t.active[i]).id,
        ) by {
            if i + 1 < s.active.len() {
                assert(t.active[i] == s.active[i + 1]);
                assert(ids[i + 1] == t.active[i].id);
            }
        }
        if let Some(c) = s.cur_aw {
            assert(ids.to_set().contains(ids[0]));
            if t.live().contains(c.id) {
                if after.to_set().contains(c.id) {
                    let k = choose|k: int| 0 <= k < after.len() && after[k] == c.id;
                    if k + 1 < ids.len() {
                        assert(ids[k + 1] == c.id);
                    }
                    assert(ids.to_set().contains(c.id));
                }
            }
        }
    }
}

/// There are no more live IDs than live writes.
pub proof fn lemma_live_count(s: Axi3MasterView)
    requires
        s.b_out.dom().finite(),
    ensures
        s.live().finite(),
        s.live().len() <= s.active.len() + s.b_out.len(),
{
    let ids = work_ids(s.active);
    ids.lemma_cardinality_of_set();
    vstd::seq_lib::seq_to_set_is_finite(ids);
    vstd::set_lib::lemma_len_union(s.b_out.dom(), ids.to_set());
}

/// No two live writes have the same ID: a master that builds keeps the IDs of
/// the writes that are offered, send data or await a response distinct, and
/// stays within its limit.
pub proof fn lemma_write_ids_stay_distinct(
    s: Axi3MasterView,
    p: Axi3MasterPorts,
    rst: bool,
    awaddr: u32,
    araddr: u32,
)
    requires
        s.config.error("axi3_master", awaddr, araddr) is None,
        write_ids_distinct(s),
    ensures
        write_ids_distinct(s.clocked(rst, p)),
        write_ids_distinct(Axi3MasterView::fresh(s.config, 0)),
{
    if !rst {
        let a = s.drawn();
        assert(write_ids_distinct(a));
        lemma_taken_address_keeps_ids(a, p);
        let b = a.aw_taken(p);
        lemma_taken_beat_keeps_ids(b, a.w_fires(p));
        let c = b.w_taken(a.w_fires(p));
        let d = c.b_received(a.b_fires(p), p);
        assert(write_ids_distinct(d));
        if d.cur_aw is None && d.active.len() + d.b_out.len() < d.config.max_spec()
            && d.w_queue.len() > 0 {
            lemma_live_count(d);
            lemma_ids_suffice(d.config, "axi3_master", awaddr, araddr, d.live());
        }
        assert(write_ids_distinct(d.write_issued()));
    }
}

/// Whether the IDs of the writes that are offered, send data or await a response
/// are in range.
pub open spec fn write_ids_in_range(s: Axi3MasterView) -> bool {
    let mask = s.config.id_mask_spec();
    &&& s.cur_aw matches Some(w) ==> w.id <= mask
    &&& forall|i: int| 0 <= i < s.active.len() ==> (#[trigger] s.active[i]).id <= mask
    &&& forall|id: u64| #[trigger] s.b_out.contains_key(id) ==> id <= mask
}

/// The live IDs fit the ID ports: every cycle keeps those of the writes and of
/// the reads in range.
pub proof fn lemma_live_ids_stay_in_range(s: Axi3MasterView, p: Axi3MasterPorts, rst: bool)
    requires
        write_ids_in_range(s),
        read_ids_in_range(s.reads, s.config.id_mask_spec()),
    ensures
        write_ids_in_range(s.clocked(rst, p)),
        read_ids_in_range(s.clocked(rst, p).reads, s.config.id_mask_spec()),
        write_ids_in_range(Axi3MasterView::fresh(s.config, 0)),
        read_ids_in_range(Axi3MasterView::fresh(s.config, 0).reads, s.config.id_mask_spec()),
{
    let stall = stalls(s.lfsr, s.config.stall);
    lemma_read_ids_stay_in_range(s.reads, p.read_side(s.config.width), s.config, stall);
    if !rst {
        let a = s.drawn();
        let b = a.aw_taken(p);
        assert(write_ids_in_range(b));
        let c = b.w_taken(a.w_fires(p));
        assert(write_ids_in_range(c)) by {
            assert forall|i: int| 0 <= i < c.active.len() implies (#[trigger] c.active[i]).id
                <= c.config.id_mask_spec() by {
                if c != b {
                    if i + 1 < b.active.len() {
                        assert(c.active[i] == b.active[i + 1]);
                    } else {
                        assert(c.active[i].id == b.active[0].id);
                    }
                }
            }
        }
        let d = c.b_received(a.b_fires(p), p);
        assert(write_ids_in_range(d));
        lemma_picked_id_is_in_range(d.live(), d.config.id_mask_spec());
        assert(write_ids_in_range(d.write_issued()));
    }
}

/// Write data interleaves: when a beat of a write is taken and other writes
/// send data too, the next beat is one of another write, and every write goes
/// through its own beats in order whatever comes in between.
pub proof fn lemma_write_beats_take_turns(s: Axi3MasterView)
    requires
        s.active.len() > 1,
        s.active[0].beat < u64::MAX,
    ensures
        ({
            let t = s.w_taken(true);
            &&& t.active[0] == s.active[1]
            &&& forall|i: int|
                1 <= i < s.active.len() ==> t.active[i - 1] == #[trigger] s.active[i]
            &&& s.active[0].beat < s.active[0].op.len ==> t.active.last() == (WorkView {
                beat: (s.active[0].beat + 1) as u64,
                ..s.active[0]
            })
            &&& s.active[0].beat >= s.active[0].op.len ==> t.active.len() == s.active.len() - 1
                && t.b_out.contains_key(s.active[0].id)
        }),
{
}

/// A reset drops everything queued, in flight and recorded.
pub proof fn lemma_reset_drops_everything(s: Axi3MasterView, p: Axi3MasterPorts)
    ensures
        ({
            let t = s.clocked(true, p);
            &&& t.idle()
            &&& t.reads.reads.len() == 0
            &&& t.shadow == ShadowView::empty()
            &&& s.faults(true, p).len() == 0
        }),
{
}

/// How a queued write is announced on the bus.
pub open spec fn announced(op: WriteOpView) -> Announced {
    Announced { addr: op.addr, len: op.len, size: op.size_log, kind: op.kind, lock: op.lock }
}

/// A random burst write breaks no AXI3 rule, on a bus with a power of two of
/// whole byte lanes that a 4 KiB page can hold, and ends in its window where its
/// first beat does.
pub proof fn lemma_random_burst_is_legal(
    lfsr: u64,
    shadow: ShadowView,
    span: u64,
    max_len: u64,
    width: u32,
    lanes_log: nat,
    c: Chan,
)
    requires
        plain_bus(width, lanes_log),
        lanes_log <= 12,
        span > 0,
        max_len <= 15,
    ensures
        announced(incr_burst(lfsr, shadow, span, max_len, width, true).op(width)).faults(
            c,
            lane_count(width),
        ) == Seq::<Axi3Fault>::empty(),
        ({
            let b = incr_burst(lfsr, shadow, span, max_len, width, true);
            let lanes = lane_count(width);
            b.base + lanes <= span ==> b.base + (b.len + 1) * lanes <= span
        }),
{
    let x = xorshift(lfsr);
    let y = xorshift(x);
    let lanes = lane_count(width);
    let b = incr_burst(lfsr, shadow, span, max_len, width, true);
    let a = announced(b.op(width));
    lemma_aligned_twice(x % span, lanes);
    lemma_placed_in_window(x, span, lanes);
    lemma_fitted_ends_in_window(b.base, (y as int % (max_len + 1)) as u64, lanes, span);
    let wanted = wanted_len(y, b.base, max_len, lanes, span);
    lemma_clipped_fits(b.base, wanted, lanes, 0);
    lemma_twos_of_pow2(lanes, lanes_log);
    lemma_shift_is_pow2(lanes_log as u64);
    assert(a.bytes() == lanes);
    let len = b.len;
    assert((len + 1) * lanes == len * lanes + lanes) by (nonlinear_arith);
    assert((len + 1) * lanes <= (wanted + 1) * lanes) by (nonlinear_arith)
        requires
            len <= wanted,
            lanes > 0,
    ;
    lemma2_to64();
    if lanes_log < 12 {
        lemma_pow2_strictly_increases(lanes_log, 12);
    }
    assert(lanes <= 4096);
    if len == 0 {
        let base = b.base;
        lemma_aligned_is_rounding(base, lanes, lanes_log);
        vstd::arithmetic::power2::lemma_pow2_adds(lanes_log, (12 - lanes_log) as nat);
        let k = pow2((12 - lanes_log) as nat) as int;
        assert(lanes * k == 4096);
        let l = lanes as int;
        assert((base + l - 1) / 4096 == base as int / 4096) by {
            lemma_beat_in_page(base as int, l, k);
        }
        assert(0 * lanes == 0);
    }
    assert(a.faults(c, lanes) =~= Seq::<Axi3Fault>::empty());
}

/// An aligned beat lies in one page.
pub proof fn lemma_beat_in_page(x: int, b: int, k: int)
    requires
        x >= 0,
        b > 0,
        x % b == 0,
        b * k == 4096,
    ensures
        (x + b - 1) / 4096 == x / 4096,
{
    let q = x / 4096;
    let r = x % 4096;
    assert(x == 4096 * q + r);
    vstd::arithmetic::div_mod::lemma_mod_multiples_vanish(k * q, r, b);
    assert(b * (k * q) == (b * k) * q) by (nonlinear_arith);
    assert(r % b == 0);
    let n = r / b;
    vstd::arithmetic::div_mod::lemma_fundamental_div_mod(r, b);
    assert(r == b * n);
    assert(n < k) by (nonlinear_arith)
        requires
            b * n < 4096,
            b * k == 4096,
            b > 0,
    ;
    assert(b * n + b <= 4096) by (nonlinear_arith)
        requires
            n < k,
            b * k == 4096,
            b > 0,
    ;
}

/// A beat of full-width write data.
pub ghost struct Beat {
    pub addr: u64,
    pub data: Seq<u64>,
}

/// The beats of a write burst, in order.
pub open spec fn beats_of(op: WriteOpView) -> Seq<Beat> {
    Seq::new(
        (op.len + 1) as nat,
        |i: int|
            Beat {
                addr: beat(op.addr, 1u64 << op.size_log, op.kind, op.len, i as u64) as u64,
                data: op.data[i],
            },
    )
}

/// The beats of some write bursts, in order.
pub open spec fn all_beats(ops: Seq<WriteOpView>) -> Seq<Beat>
    decreases ops.len(),
{
    if ops.len() == 0 {
        seq![]
    } else {
        all_beats(ops.drop_last()) + beats_of(ops.last())
    }
}

/// The record with some beats noted in order, repeated addresses marked.
pub open spec fn noted_all(shadow: ShadowView, beats: Seq<Beat>) -> ShadowView
    decreases beats.len(),
{
    if beats.len() == 0 {
        shadow
    } else {
        noted_all(shadow, beats.drop_last()).noted(beats.last().addr, beats.last().data, true)
    }
}

/// The memory with some full-width beats written in order.
pub open spec fn written_all(m: MemoryView, beats: Seq<Beat>) -> MemoryView
    decreases beats.len(),
{
    if beats.len() == 0 {
        m
    } else {
        written_all(m, beats.drop_last()).written(
            beats.last().addr,
            beats.last().data,
            full_strobe(m.width),
        )
    }
}

/// Whether every beat is aligned to the bus and has data for it.
pub open spec fn whole_beats(beats: Seq<Beat>, width: u32) -> bool {
    forall|i: int|
        0 <= i < beats.len() ==> {
            let b = #[trigger] beats[i];
            &&& aligned(b.addr, lane_count(width)) == b.addr
            &&& b.data.len() == word_count(width)
            &&& masked(b.data, width) == b.data
        }
}

/// Whether `order` lists each of the first `n` numbers once.
pub open spec fn is_order(order: Seq<int>, n: nat) -> bool {
    &&& order.len() == n
    &&& order.no_duplicates()
    &&& forall|k: int| 0 <= k < n ==> 0 <= #[trigger] order[k] < n
}

/// Some beats in another order.
pub open spec fn reordered(beats: Seq<Beat>, order: Seq<int>) -> Seq<Beat> {
    order.map_values(|i: int| beats[i])
}

proof fn lemma_noted_all_concat(shadow: ShadowView, a: Seq<Beat>, b: Seq<Beat>)
    ensures
        noted_all(shadow, a + b) == noted_all(noted_all(shadow, a), b),
    decreases b.len(),
{
    if b.len() == 0 {
        assert(a + b =~= a);
    } else {
        lemma_noted_all_concat(shadow, a, b.drop_last());
        assert((a + b).drop_last() =~= a + b.drop_last());
    }
}

/// An address that is recorded and not marked belongs to one beat.
proof fn lemma_certain_is_written_once(beats: Seq<Beat>, a: u64)
    ensures
        ({
            let s = noted_all(ShadowView::empty(), beats);
            &&& s.values.contains_key(a) <==> exists|i: int|
                0 <= i < beats.len() && (#[trigger] beats[i]).addr == a
            &&& s.values.contains_key(a) && !s.repeated.contains(a) ==> exists|i: int|
                {
                    &&& 0 <= i < beats.len()
                    &&& (#[trigger] beats[i]).addr == a
                    &&& beats[i].data == s.values[a]
                    &&& forall|j: int|
                        0 <= j < beats.len() && j != i ==> (#[trigger] beats[j]).addr != a
                }
        }),
    decreases beats.len(),
{
    if beats.len() > 0 {
        let rest = beats.drop_last();
        let last = beats.len() - 1;
        lemma_certain_is_written_once(rest, a);
        let before = noted_all(ShadowView::empty(), rest);
        let s = noted_all(ShadowView::empty(), beats);
        assert(forall|i: int| 0 <= i < rest.len() ==> rest[i] == beats[i]);
        if beats[last].addr == a {
            if before.values.contains_key(a) {
                assert(s.repeated.contains(a));
            } else {
                assert(forall|j: int| 0 <= j < last ==> (#[trigger] beats[j]).addr != a) by {
                    assert forall|j: int| 0 <= j < last implies (#[trigger] beats[j]).addr != a by {
                        assert(rest[j].addr == beats[j].addr);
                    }
                }
            }
            assert(s.values.contains_key(a));
        } else {
            assert(s.values.contains_key(a) == before.values.contains_key(a));
            if before.values.contains_key(a) {
                let i = choose|i: int| 0 <= i < rest.len() && (#[trigger] rest[i]).addr == a;
                assert(beats[i].addr == a);
                if !before.repeated.contains(a) {
                    let i = choose|i: int|
                        {
                            &&& 0 <= i < rest.len()
                            &&& (#[trigger] rest[i]).addr == a
                            &&& rest[i].data == before.values[a]
                            &&& forall|j: int|
                                0 <= j < rest.len() && j != i ==> (#[trigger] rest[j]).addr != a
                        };
                    assert(beats[i].addr == a);
                    assert forall|j: int| 0 <= j < beats.len() && j != i implies (
                    #[trigger] beats[j]).addr != a by {
                        if j < last {
                            assert(rest[j] == beats[j]);
                        }
                    }
                }
            } else {
                assert forall|i: int| 0 <= i < beats.len() implies (#[trigger] beats[i]).addr
                    != a by {
                    if i < last {
                        assert(rest[i] == beats[i]);
                    }
                }
            }
        }
    }
}

/// The word of an address that one beat writes holds the data of that beat.
proof fn lemma_written_once_stays(m: MemoryView, beats: Seq<Beat>, a: u64, k: int)
    requires
        m.width > 0 && m.width % 8 == 0,
        m.wf(),
        m.clean(),
        aligned(a, lane_count(m.width)) == a,
        whole_beats(beats, m.width),
        forall|j: int| 0 <= j < beats.len() && j != k ==> (#[trigger] beats[j]).addr != a,
        0 <= k < beats.len() ==> beats[k].addr == a,
        0 <= k,
    ensures
        ({
            let t = written_all(m, beats);
            &&& t.wf() && t.clean() && t.width == m.width
            &&& t.at(a) == if k < beats.len() {
                beats[k].data
            } else {
                m.at(a)
            }
        }),
    decreases beats.len(),
{
    if beats.len() > 0 {
        let rest = beats.drop_last();
        let last = beats.last();
        let n = beats.len() - 1;
        assert(forall|j: int| 0 <= j < rest.len() ==> rest[j] == beats[j]);
        lemma_written_once_stays(m, rest, a, k);
        let before = written_all(m, rest);
        let full = full_strobe(m.width);
        assert(beats[n] == last);
        lemma_memory_stays_clean(before, last.addr, last.data, full, ValueView::Unit, 0);
        assert(masked(before.at(last.addr), m.width) == before.at(last.addr)) by {
            let z = zeros(word_count(m.width));
            let t = top_mask(m.width);
            assert(0u64 & t == 0) by (bit_vector);
            assert(masked(z, m.width) =~= z);
        }
        lemma_full_write_replaces(before.at(last.addr), last.data, m.width);
    }
}

/// An order that lists each of the first numbers once lists every one.
proof fn lemma_order_reaches(order: Seq<int>, n: nat, i: int)
    requires
        is_order(order, n),
        0 <= i < n,
    ensures
        order.contains(i),
{
    let all = vstd::set_lib::set_int_range(0, n as int);
    vstd::set_lib::lemma_int_range(0, n as int);
    order.unique_seq_to_set();
    vstd::seq_lib::seq_to_set_is_finite(order);
    assert(order.to_set().subset_of(all));
    vstd::set_lib::lemma_subset_equality(order.to_set(), all);
    assert(order.to_set().contains(i));
}

/// What the beats of interleaved writes leave behind: in whatever order they
/// land, a word that is recorded and not marked as repeated holds the recorded
/// value.
pub proof fn lemma_certain_words_need_no_order(
    m: MemoryView,
    beats: Seq<Beat>,
    order: Seq<int>,
    a: u64,
)
    requires
        m.width > 0 && m.width % 8 == 0,
        m.wf(),
        m.clean(),
        whole_beats(beats, m.width),
        is_order(order, beats.len()),
        noted_all(ShadowView::empty(), beats).values.contains_key(a),
        !noted_all(ShadowView::empty(), beats).repeated.contains(a),
    ensures
        written_all(m, reordered(beats, order)).at(a) == noted_all(
            ShadowView::empty(),
            beats,
        ).values[a],
{
    lemma_certain_is_written_once(beats, a);
    let s = noted_all(ShadowView::empty(), beats);
    let i = choose|i: int|
        {
            &&& 0 <= i < beats.len()
            &&& (#[trigger] beats[i]).addr == a
            &&& beats[i].data == s.values[a]
            &&& forall|j: int| 0 <= j < beats.len() && j != i ==> (#[trigger] beats[j]).addr != a
        };
    lemma_order_reaches(order, beats.len(), i);
    let k = choose|k: int| 0 <= k < order.len() && order[k] == i;
    let other = reordered(beats, order);
    assert forall|j: int| 0 <= j < other.len() && j != k implies (#[trigger] other[j]).addr
        != a by {
        assert(other[j] == beats[order[j]]);
        assert(order[j] != order[k]);
    }
    assert forall|j: int| 0 <= j < other.len() implies {
        let b = #[trigger] other[j];
        &&& aligned(b.addr, lane_count(m.width)) == b.addr
        &&& b.data.len() == word_count(m.width)
        &&& masked(b.data, m.width) == b.data
    } by {
        assert(other[j] == beats[order[j]]);
    }
    assert(other[k] == beats[i]);
    lemma_written_once_stays(m, other, a, k);
}

/// What a master records of an incrementing burst are its beats, each a whole
/// word.
pub proof fn lemma_incr_is_noted(
    lfsr: u64,
    b: IncrBurst,
    shadow: ShadowView,
    drawn: u64,
    width: u32,
    lanes_log: nat,
    n: nat,
)
    requires
        plain_bus(width, lanes_log),
        aligned(b.base, lane_count(width)) == b.base,
        b.len == clipped(b.base, drawn, lane_count(width)),
        b.made == incr_beats(lfsr, shadow, b.base, b.len, width, true, (b.len + 1) as nat),
        n <= b.len + 1,
    ensures
        noted_all(shadow, beats_of(b.op(width)).take(n as int)) == incr_beats(
            lfsr,
            shadow,
            b.base,
            b.len,
            width,
            true,
            n,
        ).shadow,
        whole_beats(beats_of(b.op(width)).take(n as int), width),
    decreases n,
{
    let all = beats_of(b.op(width));
    let lanes = lane_count(width);
    if n > 0 {
        let k = (n - 1) as nat;
        lemma_incr_is_noted(lfsr, b, shadow, drawn, width, lanes_log, k);
        let some = all.take(n as int);
        let rest = all.take(k as int);
        assert(some.drop_last() =~= rest);
        lemma_incr_beats_prefix(lfsr, shadow, b.base, b.len, width, true, k, (b.len + 1) as nat);
        lemma_incr_beats_prefix(lfsr, shadow, b.base, b.len, width, true, k, k);
        let before = incr_beats(lfsr, shadow, b.base, b.len, width, true, k);
        lemma_random_data_is_masked(before.lfsr, width);
        lemma_twos_of_pow2(lanes, lanes_log);
        lemma_shift_is_pow2(lanes_log as u64);
        lemma_clipped_fits(b.base, drawn, lanes, k as u64);
        let addr = all[k as int].addr;
        lemma_aligned_is_rounding(b.base, lanes, lanes_log);
        lemma_aligned_is_rounding(addr, lanes, lanes_log);
        vstd::arithmetic::power2::lemma_pow2_pos(lanes_log);
        vstd::arithmetic::div_mod::lemma_mod_multiples_vanish(
            k as int,
            b.base as int,
            lanes as int,
        );
        assert(lanes as int * k as int == k * lanes) by (nonlinear_arith);
        assert forall|i: int| 0 <= i < some.len() implies {
            let b = #[trigger] some[i];
            &&& aligned(b.addr, lanes) == b.addr
            &&& b.data.len() == word_count(width)
            &&& masked(b.data, width) == b.data
        } by {
            if i < k {
                assert(some[i] == rest[i]);
            } else {
                assert(some[i].data == random_data(before.lfsr, width));
            }
        }
    }
}

proof fn lemma_random_bursts_are_noted(
    config: MasterConfig,
    seed: u64,
    n: nat,
    span: u64,
    max_len: u64,
    lanes_log: nat,
)
    requires
        plain_bus(config.width, lanes_log),
        span > 0,
        max_len <= 15,
    ensures
        ({
            let t = Axi3MasterView::fresh(config, seed).random_burst_writes(n, span, max_len);
            &&& t.config == config
            &&& t.shadow == noted_all(ShadowView::empty(), all_beats(t.w_queue))
            &&& whole_beats(all_beats(t.w_queue), config.width)
        }),
    decreases n,
{
    if n > 0 {
        let k = (n - 1) as nat;
        lemma_random_bursts_are_noted(config, seed, k, span, max_len, lanes_log);
        let s = Axi3MasterView::fresh(config, seed);
        let t = s.random_burst_writes(k, span, max_len);
        let u = s.random_burst_writes(n, span, max_len);
        let width = config.width;
        let b = incr_burst(t.traffic_lfsr, t.shadow, span, max_len, width, true);
        let x = xorshift(t.traffic_lfsr);
        let y = xorshift(x);
        lemma_aligned_twice(x % span, lane_count(width));
        let drawn = wanted_len(y, b.base, max_len, lane_count(width), span);
        let more = beats_of(b.op(width));
        let before = all_beats(t.w_queue);
        lemma_incr_is_noted(y, b, t.shadow, drawn, width, lanes_log, (b.len + 1) as nat);
        assert(more.take((b.len + 1) as int) =~= more);
        assert(u.w_queue.drop_last() =~= t.w_queue);
        lemma_noted_all_concat(ShadowView::empty(), before, more);
        let now = all_beats(u.w_queue);
        assert(now == before + more);
        assert forall|i: int| 0 <= i < now.len() implies {
            let b = #[trigger] now[i];
            &&& aligned(b.addr, lane_count(width)) == b.addr
            &&& b.data.len() == word_count(width)
            &&& masked(b.data, width) == b.data
        } by {
            if i < before.len() {
                assert(now[i] == before[i]);
            } else {
                assert(now[i] == more[i - before.len()]);
            }
        }
    }
}

/// Random burst writes check themselves soundly under interleaving: on a bus
/// with a power of two of whole byte lanes, every word that a fresh master
/// reads back for verification holds the value it is held to, in whatever
/// order the beats of its random burst writes land in an empty memory.
pub proof fn lemma_interleaved_writes_are_recorded(
    config: MasterConfig,
    seed: u64,
    n: nat,
    span: u64,
    max_len: u64,
    lanes_log: nat,
    order: Seq<int>,
    a: u64,
)
    requires
        plain_bus(config.width, lanes_log),
        span > 0,
        max_len <= 15,
        ({
            let t = Axi3MasterView::fresh(config, seed).random_burst_writes(n, span, max_len);
            &&& is_order(order, all_beats(t.w_queue).len())
            &&& t.certain().contains_key(a)
        }),
    ensures
        ({
            let t = Axi3MasterView::fresh(config, seed).random_burst_writes(n, span, max_len);
            written_all(
                MemoryView::empty(config.width, None),
                reordered(all_beats(t.w_queue), order),
            ).at(a) == t.certain()[a]
        }),
{
    lemma_random_bursts_are_noted(config, seed, n, span, max_len, lanes_log);
    let t = Axi3MasterView::fresh(config, seed).random_burst_writes(n, span, max_len);
    lemma_certain_words_need_no_order(
        MemoryView::empty(config.width, None),
        all_beats(t.w_queue),
        order,
        a,
    );
}

/// A beat of write data under an ID.
pub ghost struct DataBeat {
    pub id: u64,
    pub data: Seq<u64>,
}

/// How many of some beats come under an ID.
pub open spec fn beats_under(beats: Seq<DataBeat>, id: u64) -> nat
    decreases beats.len(),
{
    if beats.len() == 0 {
        0
    } else {
        beats_under(beats.drop_last(), id) + (if beats.last().id == id {
            1nat
        } else {
            0nat
        })
    }
}

/// The memory after some beats of write data, each with every lane active; the
/// last beat of a burst ends it.
pub open spec fn routed(s: Axi3RamView, beats: Seq<DataBeat>) -> Axi3RamView
    decreases beats.len(),
{
    if beats.len() == 0 {
        s
    } else {
        let t = routed(s, beats.drop_last());
        let id = beats.last().id;
        let b = t.writes[id].burst;
        t.beat_written(id, beats.last().data, full_strobe(t.mem.width), b.beat == b.len)
    }
}

/// Where the beats go: each to the next address of the burst under its ID.
pub open spec fn placed_beats(s: Axi3RamView, beats: Seq<DataBeat>) -> Seq<Beat>
    decreases beats.len(),
{
    if beats.len() == 0 {
        seq![]
    } else {
        let rest = beats.drop_last();
        let id = beats.last().id;
        let b = s.writes[id].burst;
        placed_beats(s, rest).push(
            Beat {
                addr: b.beat_at((b.beat + beats_under(rest, id)) as u64) as u64,
                data: beats.last().data,
            },
        )
    }
}

/// Whether every beat belongs to an accepted burst that still awaits it, and
/// no address of these bursts answers with an error.
pub open spec fn awaited_beats(s: Axi3RamView, beats: Seq<DataBeat>) -> bool {
    forall|id: u64|
        {
            let w = s.writes[id];
            #[trigger] beats_under(beats, id) > 0 ==> {
                &&& s.writes.contains_key(id)
                &&& w.commit
                &&& w.burst.len < u64::MAX
                &&& w.burst.beat + beats_under(beats, id) <= w.burst.len + 1
                &&& forall|j: u64|
                    0 <= j <= w.burst.len ==> s.mem.response(
                        #[trigger] w.burst.beat_at(j) as u64,
                    ) == OKAY
            }
        }
}

/// The burst under an ID after some beats.
pub open spec fn advanced(s: Axi3RamView, beats: Seq<DataBeat>, id: u64) -> Burst {
    Burst {
        beat: (s.writes[id].burst.beat + beats_under(beats, id)) as u64,
        ..s.writes[id].burst
    }
}

proof fn lemma_beats_are_routed(s: Axi3RamView, beats: Seq<DataBeat>, other: u64)
    requires
        awaited_beats(s, beats),
    ensures
        ({
            let t = routed(s, beats);
            let w = s.writes[other];
            &&& t.mem == written_all(s.mem, placed_beats(s, beats))
            &&& t.mem.width == s.mem.width && t.mem.size == s.mem.size && t.mem.errors
                == s.mem.errors
            &&& s.writes.contains_key(other) && w.burst.beat + beats_under(beats, other)
                <= w.burst.len ==> t.writes.contains_key(other) && t.writes[other].burst
                == advanced(s, beats, other) && t.writes[other].commit == w.commit
        }),
    decreases beats.len(),
{
    if beats.len() > 0 {
        let rest = beats.drop_last();
        let last = beats.last();
        let id = last.id;
        assert(beats_under(beats, id) > 0);
        assert forall|x: u64| #[trigger] beats_under(rest, x) > 0 implies {
            let w = s.writes[x];
            &&& s.writes.contains_key(x)
            &&& w.commit
            &&& w.burst.len < u64::MAX
            &&& w.burst.beat + beats_under(rest, x) <= w.burst.len + 1
            &&& forall|j: u64|
                0 <= j <= w.burst.len ==> s.mem.response(#[trigger] w.burst.beat_at(j) as u64)
                    == OKAY
        } by {
            assert(beats_under(beats, x) > 0);
        }
        lemma_beats_are_routed(s, rest, other);
        lemma_beats_are_routed(s, rest, id);
        let t = routed(s, rest);
        let b = s.writes[id].burst;
        let at = (b.beat + beats_under(rest, id)) as u64;
        assert(t.writes[id].burst.at() == b.beat_at(at));
        assert(s.mem.response(b.beat_at(at) as u64) == OKAY);
        let placed = placed_beats(s, beats);
        assert(placed.drop_last() =~= placed_beats(s, rest));
    }
}

/// Interleaved write data goes where it belongs: in whatever order the beats of
/// several accepted bursts come, each under the ID of its burst, the word at the
/// address of a beat holds the data of that beat, unless another of the beats
/// goes to the same word.
pub proof fn lemma_interleaved_data_lands(s: Axi3RamView, beats: Seq<DataBeat>, k: int)
    requires
        s.wf(),
        s.mem.clean(),
        s.mem.width > 0 && s.mem.width % 8 == 0,
        awaited_beats(s, beats),
        whole_beats(placed_beats(s, beats), s.mem.width),
        0 <= k < placed_beats(s, beats).len(),
        forall|j: int|
            0 <= j < placed_beats(s, beats).len() && j != k ==> (#[trigger] placed_beats(
                s,
                beats,
            )[j]).addr != placed_beats(s, beats)[k].addr,
    ensures
        routed(s, beats).mem.at(placed_beats(s, beats)[k].addr) == placed_beats(s, beats)[k].data,
        placed_beats(s, beats)[k].data == beats[k].data,
{
    let placed = placed_beats(s, beats);
    lemma_beats_are_routed(s, beats, 0);
    lemma_placed_data(s, beats, k);
    assert(aligned(placed[k].addr, lane_count(s.mem.width)) == placed[k].addr);
    lemma_written_once_stays(s.mem, placed, placed[k].addr, k);
}

proof fn lemma_placed_data(s: Axi3RamView, beats: Seq<DataBeat>, k: int)
    ensures
        placed_beats(s, beats).len() == beats.len(),
        0 <= k < beats.len() ==> placed_beats(s, beats)[k].data == beats[k].data,
    decreases beats.len(),
{
    if beats.len() > 0 {
        lemma_placed_data(s, beats.drop_last(), k);
    }
}

} // verus!
