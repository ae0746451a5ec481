//! What an AXI4-Lite memory takes, holds and answers in a cycle.

use crate::axi4_lite::ram::{drives, settled, Axi4LiteRamView, Axi4LiteSlavePorts, LiteRamConfig};
use crate::common::memory::MemoryView;
use crate::common::random::lemma_stall_extremes;
use crate::common::storage::{
    byte_lanes, bus_words, code_due, is_written, lane_active, lemma_empty_memory,
    lemma_memory_answers, lemma_same_lane, lemma_write_is_local, word_due, word_start,
};
use crate::common::words::extended;
use vstd::prelude::*;

verus! {

/// Whether a cycle hands over the address of a write.
pub open spec fn takes_aw(s: Axi4LiteRamView, p: Axi4LiteSlavePorts) -> bool {
    p.awvalid@.truth() && s.aw_ready
}

/// Whether a cycle hands over the data of a write.
pub open spec fn takes_w(s: Axi4LiteRamView, p: Axi4LiteSlavePorts) -> bool {
    p.wvalid@.truth() && s.w_ready
}

/// Whether a cycle hands over a read, with none under way.
pub open spec fn takes_ar(s: Axi4LiteRamView, p: Axi4LiteSlavePorts) -> bool {
    p.arvalid@.truth() && s.ar_ready && !(s.r_valid && !p.rready@.truth()) && s.read_delay is None
}

/// The cycles that a latency stands for.
pub open spec fn latency_of(n: Option<u64>) -> u64 {
    match n {
        Some(n) => n,
        None => 0,
    }
}

/// Whether both halves of a write are there and its time has come.
pub open spec fn write_is_due(s: Axi4LiteRamView, p: Axi4LiteSlavePorts) -> bool {
    match s.write_delay {
        Some(d) => d == 0,
        None => (s.have_aw || takes_aw(s, p)) && (s.have_w || takes_w(s, p)) && !(s.b_valid
            && !p.bready@.truth()) && latency_of(s.config.write_latency) == 0,
    }
}

/// Whether the time of a read has come.
pub open spec fn read_is_due(s: Axi4LiteRamView, p: Axi4LiteSlavePorts) -> bool {
    match s.read_delay {
        Some(d) => d == 0,
        None => takes_ar(s, p) && latency_of(s.config.read_latency) == 0,
    }
}

/// Whether a byte lies in one of the protected ranges.
pub open spec fn is_protected(ranges: Seq<(u64, u64)>, byte: int) -> bool {
    exists|i: int|
        0 <= i < ranges.len() && (#[trigger] ranges[i]).0 <= byte < ranges[i].0 + ranges[i].1
}

/// Whether a write at `a` touches a protected byte: its address is one, or a
/// byte of its word whose lane is active.
pub open spec fn touches_protected(
    s: Axi4LiteRamView,
    a: u64,
    strb: Seq<u64>,
) -> bool {
    let first = word_start(a, s.mem.width);
    is_protected(s.readonly, a as int) || exists|i: int|
        0 <= i < byte_lanes(s.mem.width) && #[trigger] lane_active(strb, i) && first + i <= u64::MAX
            && is_protected(s.readonly, first + i)
}

/// The address of the write that a cycle has, taken now or before.
pub open spec fn write_addr(s: Axi4LiteRamView, p: Axi4LiteSlavePorts) -> u64 {
    if takes_aw(s, p) {
        p.awaddr
    } else {
        s.addr
    }
}

/// The strobe of the write that a cycle has, taken now or before.
pub open spec fn write_strb(s: Axi4LiteRamView, p: Axi4LiteSlavePorts) -> Seq<u64> {
    if takes_w(s, p) {
        shown(p.wstrb@, bus_words(byte_lanes(s.config.width) as u32))
    } else {
        s.strb
    }
}

/// The data of the write that a cycle has, taken now or before.
pub open spec fn write_data(s: Axi4LiteRamView, p: Axi4LiteSlavePorts) -> Seq<u64> {
    if takes_w(s, p) {
        shown(p.wdata@, bus_words(s.config.width))
    } else {
        s.data
    }
}

/// The first `n` words that a port shows, with zeros where it shows fewer.
pub open spec fn shown(words: Seq<u64>, n: nat) -> Seq<u64> {
    Seq::new(
        n,
        |i: int|
            if i < words.len() {
                words[i]
            } else {
                0
            },
    )
}

proof fn lemma_shown(words: Seq<u64>, n: nat)
    ensures
        extended(words, n) == shown(words, n),
{
    assert(extended(words, n) =~= shown(words, n));
}

proof fn lemma_refuses(s: Axi4LiteRamView, a: u64, strb: Seq<u64>)
    ensures
        s.refuses(a, strb) == touches_protected(s, a, strb),
{
    lemma_memory_answers(s.mem, a);
    let lanes = byte_lanes(s.mem.width);
    let first = word_start(a, s.mem.width);
    assert forall|x: u64| #[trigger] s.protected(x) == is_protected(s.readonly, x as int) by {
        if s.protected(x) {
            let i = choose|i: int|
                0 <= i < s.readonly.len() && crate::axi4_lite::ram::in_range(
                    #[trigger] s.readonly[i],
                    x,
                );
            assert(s.readonly[i].0 <= x < s.readonly[i].0 + s.readonly[i].1);
        }
        if is_protected(s.readonly, x as int) {
            let i = choose|i: int|
                0 <= i < s.readonly.len() && (#[trigger] s.readonly[i]).0 <= x
                    < s.readonly[i].0 + s.readonly[i].1;
            assert(crate::axi4_lite::ram::in_range(s.readonly[i], x));
        }
    }
    if s.refuses_lane(a, strb, lanes) {
        let lane = choose|lane: u64|
            {
                &&& lane < lanes
                &&& #[trigger] crate::common::lanes::strobed(strb, lane as int)
                &&& s.mem.key(a) + lane <= u64::MAX
                &&& s.protected((s.mem.key(a) + lane) as u64)
            };
        lemma_same_lane(strb, lane as int);
        assert(lane_active(strb, lane as int));
    }
    if exists|i: int|
        0 <= i < lanes && #[trigger] lane_active(strb, i) && first + i <= u64::MAX && is_protected(
            s.readonly,
            first + i,
        ) {
        let i = choose|i: int|
            0 <= i < lanes && #[trigger] lane_active(strb, i) && first + i <= u64::MAX
                && is_protected(s.readonly, first + i);
        lemma_same_lane(strb, i);
        assert(crate::common::lanes::strobed(strb, (i as u64) as int));
        assert(s.protected((first + i) as u64));
    }
}

/// Writes: in a cycle in which a write is due, its response is offered, with the
/// code that the memory owes for its address, or with 2 where that is 0 and the
/// write touches a protected byte; a write answered with 0 changes exactly the
/// bytes of its active lanes, and any other changes nothing. In any other cycle
/// the memory stays, a response that is not taken stays, and none is offered
/// anew.
pub proof fn lemma_writes_are_answered(s: Axi4LiteRamView, p: Axi4LiteSlavePorts)
    requires
        s.wf(),
        settled(s),
    ensures
        ({
            let t = s.clocked(false, p);
            let a = write_addr(s, p);
            let strb = write_strb(s, p);
            let owed = code_due(s.mem, a);
            &&& write_is_due(s, p) ==> {
                &&& t.b_valid
                &&& !t.have_aw && !t.have_w && t.write_delay is None
                &&& t.b_resp == (if owed == 0 && touches_protected(s, a, strb) {
                    2
                } else {
                    owed
                })
                &&& if t.b_resp == 0 {
                    is_written(s.mem, t.mem, a, write_data(s, p), strb)
                } else {
                    t.mem == s.mem
                }
            }
            &&& !write_is_due(s, p) ==> {
                &&& t.mem == s.mem
                &&& t.b_valid == (s.b_valid && !p.bready@.truth())
                &&& t.b_resp == s.b_resp
                &&& t.have_aw == (s.have_aw || takes_aw(s, p))
                &&& t.have_w == (s.have_w || takes_w(s, p))
                &&& t.addr == a && t.strb == strb && t.data == write_data(s, p)
            }
            &&& t.config == s.config && t.readonly == s.readonly
        }),
{
    let u = s.drawn().captured(p);
    let v = u.write_started();
    lemma_shown(p.wdata@, bus_words(s.config.width));
    lemma_shown(p.wstrb@, bus_words(byte_lanes(s.config.width) as u32));
    lemma_memory_answers(s.mem, u.addr);
    lemma_refuses(v, u.addr, u.strb);
    lemma_write_is_local(s.mem, u.addr, u.data, u.strb);
    assert(touches_protected(v, u.addr, u.strb) == touches_protected(s, u.addr, u.strb));
    assert(u.addr == write_addr(s, p));
    assert(u.strb == write_strb(s, p));
    assert(u.data == write_data(s, p));
    assert(v.write_delay == Some(0u64) <==> write_is_due(s, p));
}

/// The latency of a write counts down by one in each cycle, from the cycle in
/// which its second half is there and no response is pending.
pub proof fn lemma_write_latency_counts(s: Axi4LiteRamView, p: Axi4LiteSlavePorts)
    requires
        settled(s),
        !write_is_due(s, p),
    ensures
        s.clocked(false, p).write_delay == (match s.write_delay {
            Some(d) => Some((d - 1) as u64),
            None => if (s.have_aw || takes_aw(s, p)) && (s.have_w || takes_w(s, p)) && !(s.b_valid
                && !p.bready@.truth()) {
                Some((latency_of(s.config.write_latency) - 1) as u64)
            } else {
                None
            },
        }),
{
}

/// Reads: in a cycle in which a read is due, its data is offered: the word that
/// the memory owes for its address, a write answered in the same cycle included,
/// with the code that it owes. In any other cycle data that is not taken stays,
/// and none is offered anew.
pub proof fn lemma_reads_are_answered(s: Axi4LiteRamView, p: Axi4LiteSlavePorts)
    requires
        settled(s),
    ensures
        ({
            let t = s.clocked(false, p);
            let a = if takes_ar(s, p) {
                p.araddr
            } else {
                s.r_addr
            };
            &&& t.r_addr == a
            &&& read_is_due(s, p) ==> {
                &&& t.r_valid && t.read_delay is None
                &&& t.r_data == word_due(t.mem, a)
                &&& t.r_resp == code_due(t.mem, a)
            }
            &&& !read_is_due(s, p) ==> {
                &&& t.r_valid == (s.r_valid && !p.rready@.truth())
                &&& t.r_data == s.r_data && t.r_resp == s.r_resp
                &&& t.read_delay == (match s.read_delay {
                    Some(d) => Some((d - 1) as u64),
                    None => if takes_ar(s, p) {
                        Some((latency_of(s.config.read_latency) - 1) as u64)
                    } else {
                        None
                    },
                })
            }
        }),
{
    let t = s.clocked(false, p);
    let w = s.drawn().captured(p).write_started().write_timed();
    assert(t.mem == w.mem);
    lemma_memory_answers(w.mem, t.r_addr);
}

/// READY: a half of a write can be taken where none is held, and a read where
/// none is under way, but for a cycle that stalls, which drops all of them. A
/// memory without a weight for that never stalls; one with a weight stalls where
/// its next random number, modulo 256, is below it.
pub proof fn lemma_readies_are_due(s: Axi4LiteRamView, p: Axi4LiteSlavePorts)
    ensures
        ({
            let t = s.clocked(false, p);
            let stall = match s.config.stall {
                Some(w) => crate::common::random::xorshift(s.lfsr) % 256 < w,
                None => false,
            };
            &&& t.aw_ready == (!t.have_aw && !stall)
            &&& t.w_ready == (!t.have_w && !stall)
            &&& t.ar_ready == (!t.r_valid && t.read_delay is None && !stall)
            &&& t.lfsr == (match s.config.stall {
                Some(_) => crate::common::random::xorshift(s.lfsr),
                None => s.lfsr,
            })
        }),
{
    if let Some(w) = s.config.stall {
        lemma_stall_extremes(s.lfsr, w);
    }
}

/// The ports show what the memory offers: the READY and VALID lines at any time,
/// the responses and the data but for reset.
pub proof fn lemma_ports_show_answers(
    s: Axi4LiteRamView,
    rst: bool,
    before: Axi4LiteSlavePorts,
    after: Axi4LiteSlavePorts,
)
    requires
        drives(s, rst, before, after),
    ensures
        after.awready == s.aw_ready,
        after.wready == s.w_ready,
        after.arready == s.ar_ready,
        after.bvalid == s.b_valid,
        after.rvalid == s.r_valid,
        !rst ==> after.bresp == s.b_resp && after.rresp == s.r_resp && after.rdata@ == s.r_data,
        after.awaddr == before.awaddr && after.araddr == before.araddr,
{
}

/// A reset drops every line and everything under way, and keeps what is stored,
/// injected and protected. A memory starts like that, with nothing stored.
pub proof fn lemma_reset_drops_answers(
    s: Axi4LiteRamView,
    p: Axi4LiteSlavePorts,
    config: LiteRamConfig,
    seed: u64,
    a: u64,
)
    ensures
        ({
            let t = s.clocked(true, p);
            &&& t.mem == s.mem && t.readonly == s.readonly && t.config == s.config
            &&& !t.aw_ready && !t.w_ready && !t.ar_ready && !t.b_valid && !t.r_valid
            &&& !t.have_aw && !t.have_w && t.write_delay is None && t.read_delay is None
        }),
        ({
            let t = Axi4LiteRamView::fresh(config, seed);
            &&& t.config == config && t.mem.width == config.width && t.mem.size == config.size
            &&& !t.aw_ready && !t.w_ready && !t.ar_ready && !t.b_valid && !t.r_valid
            &&& !t.have_aw && !t.have_w && t.write_delay is None && t.read_delay is None
            &&& t.readonly.len() == 0
            &&& t.mem == MemoryView::empty(config.width, config.size)
        }),
{
    lemma_empty_memory(config.width, config.size, a);
}

} // verus!
