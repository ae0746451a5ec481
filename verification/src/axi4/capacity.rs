//! Which bursts the masters and the memories can follow.

use crate::axi3::master::{Axi3MasterPorts, Axi3MasterView};
use crate::axi3::ram::{Axi3RamView, Axi3SlavePorts};
use crate::axi4::answers::left;
use crate::axi4::burst::lemma_fits_by_code;
use crate::axi4::issue::ReadIssueView;
use crate::axi4::master::{Axi4MasterPorts, Axi4MasterView};
use crate::axi4::ram::{Axi4RamView, Axi4SlavePorts};
use crate::axi4::slave::{Burst, ReadSideView};
use crate::common::lanes::lemma_shift_is_pow2;
use vstd::arithmetic::power2::{lemma2_to64, lemma_pow2_strictly_increases};
use vstd::prelude::*;

verus! {

/// Whether a burst is one that a bus can announce, away from the end of the address
/// space: up to 256 beats of up to 128 bytes.
pub open spec fn modest(b: Burst) -> bool {
    &&& b.addr < u64::MAX / 2
    &&& b.len < 256 && b.beat < 512
    &&& 0 < b.size <= 128
}

/// The address of its current beat can be computed.
pub proof fn lemma_modest_fits(b: Burst)
    requires
        modest(b),
    ensures
        b.fits(),
{
    let block = (b.len + 1) * b.size;
    assert(0 < block <= 256 * 128 && 0 <= b.beat * b.size <= 512 * 128) by (nonlinear_arith)
        requires
            block == (b.len + 1) * b.size,
            0 <= b.len < 256,
            0 <= b.beat < 512,
            0 < b.size <= 128,
    ;
    crate::common::lanes::lemma_aligned_twice(b.addr, b.size);
    lemma_fits_by_code(b.addr, b.size, b.kind, b.len, b.beat);
    assert(0 <= b.addr as int % block < block) by (nonlinear_arith)
        requires
            block > 0,
    ;
}

proof fn lemma_small_size(log: u64)
    requires
        log < 8,
    ensures
        0 < 1u64 << log <= 128,
{
    lemma_shift_is_pow2(log);
    lemma2_to64();
    if log < 7 {
        lemma_pow2_strictly_increases(log as nat, 7);
    }
}

/// Whether the reads of an engine are such bursts.
pub open spec fn reads_are_modest(r: ReadSideView) -> bool {
    forall|i: int| 0 <= i < r.reads.len() ==> modest(#[trigger] r.reads[i]) && r.reads[i].beat < 511
}

proof fn lemma_read_side_follows(r: ReadSideView, ar: Option<Burst>, rready: bool)
    requires
        reads_are_modest(r),
        ar matches Some(b) ==> modest(b) && b.beat == 0,
    ensures
        r.can_clock(ar, rready),
{
    let q = left(r, ar, rready);
    assert(r.reads_after(ar, rready) =~= q);
    let all = crate::axi4::answers::running(r, ar);
    if all.len() > 0 {
        assert(modest(all[0]) && all[0].beat < 511);
    }
    if q.len() > 0 {
        assert(modest(q[0])) by {
            if q.len() > 0 && q != all && all[0].beat < all[0].len && all.len() == 1 {
            } else if q != all {
                assert(q[0] == all[1]);
                assert(modest(all[1]));
            }
        }
        lemma_modest_fits(q[0]);
    }
}

/// An AXI4 memory takes every cycle while what runs and what comes in are such bursts.
pub proof fn lemma_axi4_memory_takes_bursts(s: Axi4RamView, rst: bool, p: Axi4SlavePorts)
    requires
        s.w_cur matches Some(b) ==> modest(b),
        reads_are_modest(s.reads),
        p.awaddr < u64::MAX / 2 && p.awlen < 256 && p.awsize < 8,
        p.araddr < u64::MAX / 2 && p.arlen < 256 && p.arsize < 8,
    ensures
        s.can_clock(rst, p),
{
    lemma_small_size(p.awsize);
    lemma_small_size(p.arsize);
    lemma_read_side_follows(s.reads, s.ar_taken(p), p.rready@.truth());
    if let Some(b) = s.after_aw(p).w_cur {
        lemma_modest_fits(b);
    }
}

/// An AXI3 memory takes every cycle while what runs and what comes in are such bursts.
pub proof fn lemma_axi3_memory_takes_bursts(s: Axi3RamView, rst: bool, p: Axi3SlavePorts)
    requires
        forall|id: u64| #[trigger] s.writes.contains_key(id) ==> modest(s.writes[id].burst),
        reads_are_modest(s.reads),
        p.awaddr < u64::MAX / 2 && p.awlen < 256 && p.awsize < 8,
        p.araddr < u64::MAX / 2 && p.arlen < 256 && p.arsize < 8,
    ensures
        s.can_clock(rst, p),
{
    lemma_small_size(p.awsize);
    lemma_small_size(p.arsize);
    lemma_read_side_follows(s.reads, s.ar_taken(p), p.rready@.truth());
    let t = s.after_aw(p);
    if t.writes.contains_key(p.wid) {
        assert(modest(t.writes[p.wid].burst)) by {
            if p.wid != p.awid || t.writes == s.writes {
                assert(s.writes.contains_key(p.wid));
            }
        }
        lemma_modest_fits(t.writes[p.wid].burst);
    }
}

/// Whether no read is at a beat that cannot be counted.
pub open spec fn reads_have_room(r: ReadIssueView) -> bool {
    &&& r.cur.beat < u64::MAX
    &&& forall|id: u64| #[trigger] r.out.contains_key(id) ==> r.out[id].beat < u64::MAX
}

/// A master takes every cycle while its beats can be counted. One that starts has room.
pub proof fn lemma_masters_take_every_cycle(
    s: Axi4MasterView,
    t: Axi3MasterView,
    rst: bool,
    p: Axi4MasterPorts,
    q: Axi3MasterPorts,
)
    ensures
        reads_have_room(s.reads) && s.w_beat < u64::MAX ==> s.can_clock(rst, p),
        reads_have_room(t.reads) && (t.cur_aw matches Some(w) ==> w.beat < u64::MAX) && (
        t.active.len() > 0 ==> t.active[0].beat < u64::MAX) ==> t.can_clock(rst, q),
        reads_have_room(ReadIssueView::fresh()),
        s.can_clock(true, p),
        t.can_clock(true, q),
{
}

} // verus!
