//! What an AXI4 memory takes, holds and answers in a cycle.

use crate::axi4::burst::beat;
use crate::axi4::ram::{drives, Axi4RamView, Axi4SlavePorts};
use crate::axi4::slave::{Answer, Burst, RamConfig, ReadSideView};
use crate::common::memory::MemoryView;
use crate::common::random::{lemma_stall_extremes, xorshift};
use crate::common::storage::{
    bus_words, code_due, is_written, lemma_memory_answers, lemma_write_is_local, word_due,
    word_start,
};
use vstd::prelude::*;

verus! {

/// The accesses that may run at once.
pub open spec fn slots(config: RamConfig) -> u64 {
    match config.max_outstanding {
        Some(n) => n,
        None => 4,
    }
}

/// Whether a cycle drops the READY lines.
pub open spec fn drops_ready(lfsr: u64, config: RamConfig) -> bool {
    match config.stall {
        Some(w) => xorshift(lfsr) % 256 < w,
        None => false,
    }
}

/// The address of the beat that a burst is at.
pub open spec fn place(b: Burst) -> u64 {
    beat(b.addr, b.size, b.kind, b.len, b.beat) as u64
}

/// A burst with one beat less to go.
pub open spec fn stepped(b: Burst) -> Burst {
    Burst {
        addr: b.addr,
        len: b.len,
        size: b.size,
        kind: b.kind,
        id: b.id,
        exclusive: b.exclusive,
        beat: (b.beat + 1) as u64,
    }
}

/// The reads that run, and last the one that comes in.
pub open spec fn running(r: ReadSideView, ar: Option<Burst>) -> Seq<Burst> {
    match ar {
        Some(b) => r.reads.push(b),
        None => r.reads,
    }
}

/// The reads that are left once the beat offered was taken, or not: the first
/// leaves after its last beat and goes behind the others after any other.
pub open spec fn left(r: ReadSideView, ar: Option<Burst>, taken: bool) -> Seq<Burst> {
    let all = running(r, ar);
    if !(r.r_valid && taken) || all.len() == 0 {
        all
    } else if all[0].beat >= all[0].len {
        all.drop_first()
    } else {
        all.drop_first().push(stepped(all[0]))
    }
}

/// What a read engine does in a cycle. A beat is offered while a read runs: that of
/// the first in turn, with its ID, the word its address holds and the code that it
/// owes, which for an exclusive read is 1 in place of 0, and RLAST at the last beat
/// announced. A read is accepted while fewer run than may.
pub proof fn lemma_read_engine_answers(
    r: ReadSideView,
    m: MemoryView,
    ar: Option<Burst>,
    taken: bool,
    max: u64,
    stall: bool,
)
    requires
        r.can_clock(ar, taken),
    ensures
        ({
            let t = r.clocked(m, ar, taken, max, stall);
            let q = left(r, ar, taken);
            &&& t.reads == q
            &&& t.ar_ready == (q.len() < max && !stall)
            &&& t.r_valid == (q.len() > 0)
            &&& if q.len() > 0 {
                let a = place(q[0]);
                &&& t.r_data == word_due(m, a)
                &&& t.r_id == q[0].id
                &&& t.r_resp == (if code_due(m, a) == 0 && q[0].exclusive {
                    1
                } else {
                    code_due(m, a)
                })
                &&& t.r_last == (q[0].beat == q[0].len)
            } else {
                t.r_data == r.r_data && t.r_id == r.r_id && t.r_resp == r.r_resp && t.r_last
                    == r.r_last
            }
        }),
{
    let q = left(r, ar, taken);
    assert(r.reads_after(ar, taken) =~= q);
    if q.len() > 0 {
        lemma_memory_answers(m, place(q[0]));
    }
}

/// Whether a cycle hands over the address of a write.
pub open spec fn takes_aw(s: Axi4RamView, p: Axi4SlavePorts) -> bool {
    p.awvalid@.truth() && s.aw_ready
}

/// The write that comes in.
pub open spec fn write_shown(p: Axi4SlavePorts) -> Burst {
    Burst {
        addr: p.awaddr,
        len: p.awlen,
        size: 1u64 << p.awsize,
        kind: p.awburst,
        id: p.awid,
        exclusive: p.awlock != 0,
        beat: 0,
    }
}

/// The read that comes in.
pub open spec fn read_shown(s: Axi4RamView, p: Axi4SlavePorts) -> Option<Burst> {
    if p.arvalid@.truth() && s.reads.ar_ready {
        Some(
            Burst {
                addr: p.araddr,
                len: p.arlen,
                size: 1u64 << p.arsize,
                kind: p.arburst,
                id: p.arid,
                exclusive: p.arlock != 0,
                beat: 0,
            },
        )
    } else {
        None
    }
}

/// Whether the word that a write comes in for is reserved.
pub open spec fn finds_reserved(s: Axi4RamView, p: Axi4SlavePorts) -> bool {
    s.reserved.contains(word_start(p.awaddr, s.config.width))
}

/// The write whose data is awaited.
pub open spec fn awaited(s: Axi4RamView, p: Axi4SlavePorts) -> Option<Burst> {
    if takes_aw(s, p) {
        Some(write_shown(p))
    } else {
        s.w_cur
    }
}

/// Whether that write may change the memory: one that is not exclusive may, and an
/// exclusive one where its word was reserved.
pub open spec fn may_change(s: Axi4RamView, p: Axi4SlavePorts) -> bool {
    if takes_aw(s, p) {
        p.awlock == 0 || finds_reserved(s, p)
    } else {
        s.w_commit
    }
}

/// The code that it is answered with so far: at first 1 where it is exclusive and
/// its word was reserved, else 0.
pub open spec fn code_so_far(s: Axi4RamView, p: Axi4SlavePorts) -> u64 {
    if !takes_aw(s, p) {
        s.w_resp
    } else if p.awlock != 0 && finds_reserved(s, p) {
        1
    } else {
        0
    }
}

/// Whether a beat of its data is handed over.
pub open spec fn takes_w(s: Axi4RamView, p: Axi4SlavePorts) -> bool {
    p.wvalid@.truth() && s.w_ready && awaited(s, p) is Some
}

/// The code that it is answered with once that beat is in: the larger of the one so
/// far and the one that the beat's address owes.
pub open spec fn code_then(s: Axi4RamView, p: Axi4SlavePorts) -> u64 {
    let code = code_due(s.mem, place(awaited(s, p)->0));
    if !takes_w(s, p) || code_so_far(s, p) > code {
        code_so_far(s, p)
    } else {
        code
    }
}

/// What a cycle does to the writes of an AXI4 memory. A beat changes the strobed
/// bytes of its word where the write may change the memory and the address owes the
/// code 0, and nothing otherwise. The last beat, by WLAST, queues the answer under
/// the ID of the write, and a BREADY takes the first answer away. An address is
/// accepted while no write awaits data and fewer answers wait than may.
pub proof fn lemma_writes_are_answered(s: Axi4RamView, p: Axi4SlavePorts)
    requires
        s.wf(),
        s.can_clock(false, p),
    ensures
        ({
            let t = s.clocked(false, p);
            let a = place(awaited(s, p)->0);
            let ends = takes_w(s, p) && p.wlast@.truth();
            let q = if ends {
                s.b_queue.push(Answer { id: (awaited(s, p)->0).id, resp: code_then(s, p) })
            } else {
                s.b_queue
            };
            let stall = drops_ready(s.lfsr, s.config);
            &&& if takes_w(s, p) && may_change(s, p) && code_due(s.mem, a) == 0 {
                is_written(s.mem, t.mem, a, p.wdata@, p.wstrb@)
            } else {
                t.mem == s.mem
            }
            &&& t.w_cur == (if ends {
                None
            } else if takes_w(s, p) {
                Some(stepped(awaited(s, p)->0))
            } else {
                awaited(s, p)
            })
            &&& t.w_resp == code_then(s, p)
            &&& t.w_commit == may_change(s, p)
            &&& t.b_queue == (if p.bready@.truth() && s.b_valid && q.len() > 0 {
                q.drop_first()
            } else {
                q
            })
            &&& t.aw_ready == (t.w_cur is None && t.b_queue.len() < slots(s.config) && !stall)
            &&& t.w_ready == (t.w_cur is Some && !stall)
            &&& t.b_valid == (t.b_queue.len() > 0)
            &&& t.config == s.config
        }),
{
    if let Some(w) = s.config.stall {
        lemma_stall_extremes(s.lfsr, w);
    }
    lemma_memory_answers(s.mem, p.awaddr);
    if takes_w(s, p) {
        let a = place(awaited(s, p)->0);
        lemma_memory_answers(s.mem, a);
        lemma_write_is_local(s.mem, a, p.wdata@, p.wstrb@);
    }
}

/// What a cycle does to the reservations of an AXI4 memory: a write takes away that
/// of its word, and an exclusive read then makes one for its own.
pub proof fn lemma_reservations_follow(s: Axi4RamView, p: Axi4SlavePorts, k: u64)
    requires
        s.wf(),
        s.can_clock(false, p),
    ensures
        s.clocked(false, p).reserved.contains(k) <==> {
            ||| p.arvalid@.truth() && s.reads.ar_ready && p.arlock != 0 && k == word_start(
                p.araddr,
                s.config.width,
            )
            ||| s.reserved.contains(k) && !(takes_aw(s, p) && k == word_start(
                p.awaddr,
                s.config.width,
            ))
        },
{
    lemma_memory_answers(s.mem, p.awaddr);
    lemma_memory_answers(s.clocked(false, p).mem, p.araddr);
    lemma_writes_are_answered(s, p);
}

/// What a cycle does to the reads of an AXI4 memory: what the read engine does with
/// the read that comes in, RREADY and what the memory holds after the write data of
/// the same cycle.
pub proof fn lemma_reads_are_answered(s: Axi4RamView, p: Axi4SlavePorts)
    requires
        s.wf(),
        s.can_clock(false, p),
    ensures
        ({
            let t = s.clocked(false, p);
            let q = left(s.reads, read_shown(s, p), p.rready@.truth());
            &&& t.reads.reads == q
            &&& t.reads.ar_ready == (q.len() < slots(s.config) && !drops_ready(s.lfsr, s.config))
            &&& t.reads.r_valid == (q.len() > 0)
            &&& q.len() > 0 ==> {
                let a = place(q[0]);
                &&& t.reads.r_data == word_due(t.mem, a)
                &&& t.reads.r_id == q[0].id
                &&& t.reads.r_resp == (if code_due(t.mem, a) == 0 && q[0].exclusive {
                    1
                } else {
                    code_due(t.mem, a)
                })
                &&& t.reads.r_last == (q[0].beat == q[0].len)
            }
        }),
{
    let t = s.clocked(false, p);
    if let Some(w) = s.config.stall {
        lemma_stall_extremes(s.lfsr, w);
    }
    lemma_read_engine_answers(
        s.reads,
        t.mem,
        read_shown(s, p),
        p.rready@.truth(),
        slots(s.config),
        drops_ready(s.lfsr, s.config),
    );
}

/// The ports show the answers: the first that waits on the write side, and the beat
/// offered on the read side, with RLAST only beside RVALID. In reset only the
/// handshake lines move. What the master drives stays.
pub proof fn lemma_ports_show_answers(
    s: Axi4RamView,
    rst: bool,
    before: Axi4SlavePorts,
    after: Axi4SlavePorts,
)
    requires
        drives(s, rst, before, after),
    ensures
        after.awready == s.aw_ready && after.wready == s.w_ready && after.bvalid == s.b_valid,
        after.arready == s.reads.ar_ready && after.rvalid == s.reads.r_valid,
        !rst && s.b_queue.len() > 0 ==> after.bresp == s.b_queue[0].resp && after.bid
            == s.b_queue[0].id,
        !rst && s.b_queue.len() == 0 ==> after.bresp == 0 && after.bid == 0,
        !rst ==> after.rdata@ == s.reads.r_data && after.rresp == s.reads.r_resp && after.rid
            == s.reads.r_id && after.rlast == (s.reads.r_valid && s.reads.r_last),
        rst ==> after.bresp == before.bresp && after.bid == before.bid && after.rdata
            == before.rdata && after.rresp == before.rresp && after.rid == before.rid
            && after.rlast == before.rlast,
        after.awaddr == before.awaddr && after.wdata == before.wdata && after.araddr
            == before.araddr,
{
}

/// A reset drops what runs and what is reserved, and leaves the memory as it is.
/// A memory starts like that, never written.
pub proof fn lemma_reset_drops_bursts(
    s: Axi4RamView,
    p: Axi4SlavePorts,
    config: RamConfig,
    seed: u64,
)
    ensures
        ({
            let t = s.clocked(true, p);
            &&& t.w_cur is None && t.b_queue.len() == 0 && t.reads.reads.len() == 0
            &&& t.reserved == Set::<u64>::empty()
            &&& !t.aw_ready && !t.w_ready && !t.b_valid && !t.reads.ar_ready && !t.reads.r_valid
            &&& t.mem == s.mem && t.config == s.config && t.lfsr == s.lfsr
        }),
        ({
            let t = Axi4RamView::fresh(config, seed);
            &&& t.w_cur is None && t.b_queue.len() == 0 && t.reads.reads.len() == 0
            &&& t.reserved == Set::<u64>::empty()
            &&& !t.aw_ready && !t.w_ready && !t.b_valid && !t.reads.ar_ready && !t.reads.r_valid
            &&& t.mem == MemoryView::empty(config.width, config.size) && t.config == config
            &&& t.reads.r_data == Seq::new(bus_words(config.width), |i: int| 0u64)
            &&& t.reads.r_resp == 0 && t.reads.r_id == 0 && !t.reads.r_last
        }),
{
    lemma_memory_answers(MemoryView::empty(config.width, config.size), 0);
    let t = Axi4RamView::fresh(config, seed);
    assert(t.reads.r_data =~= Seq::new(bus_words(config.width), |i: int| 0u64));
}

} // verus!
