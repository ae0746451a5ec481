//! What an AXI3 memory takes, holds and answers in a cycle.

use crate::axi3::ram::{drives, Axi3RamView, Axi3SlavePorts, WriteBurst};
use crate::axi4::answers::{drops_ready, left, lemma_read_engine_answers, place, slots, stepped};
use crate::axi4::slave::{Answer, Burst, RamConfig};
use crate::common::memory::MemoryView;
use crate::common::random::lemma_stall_extremes;
use crate::common::storage::{
    bus_words, code_due, is_written, lemma_memory_answers, lemma_write_is_local, word_due,
    word_start,
};
use vstd::prelude::*;

verus! {

/// Whether a cycle hands over the address of a write.
pub open spec fn takes_aw(s: Axi3RamView, p: Axi3SlavePorts) -> bool {
    p.awvalid@.truth() && s.aw_ready
}

/// The write that comes in.
pub open spec fn write_shown(p: Axi3SlavePorts) -> Burst {
    Burst {
        addr: p.awaddr,
        len: p.awlen,
        size: 1u64 << p.awsize,
        kind: p.awburst,
        id: p.awid,
        exclusive: p.awlock == 1,
        beat: 0,
    }
}

/// The read that comes in.
pub open spec fn read_shown(s: Axi3RamView, p: Axi3SlavePorts) -> Option<Burst> {
    if p.arvalid@.truth() && s.reads.ar_ready {
        Some(
            Burst {
                addr: p.araddr,
                len: p.arlen,
                size: 1u64 << p.arsize,
                kind: p.arburst,
                id: p.arid,
                exclusive: p.arlock == 1,
                beat: 0,
            },
        )
    } else {
        None
    }
}

/// Whether the word that a write comes in for is reserved.
pub open spec fn finds_reserved(s: Axi3RamView, p: Axi3SlavePorts) -> bool {
    s.reserved.contains(word_start(p.awaddr, s.config.width))
}

/// The writes whose data is awaited, by ID: those that were, and the one that comes
/// in. That may change the memory where it is not exclusive or its word was
/// reserved, and is answered with 1 so far where it is exclusive and its word was.
pub open spec fn awaited(s: Axi3RamView, p: Axi3SlavePorts) -> Map<u64, WriteBurst> {
    if takes_aw(s, p) {
        s.writes.insert(
            p.awid,
            WriteBurst {
                burst: write_shown(p),
                commit: p.awlock != 1 || finds_reserved(s, p),
                resp: if p.awlock == 1 && finds_reserved(s, p) {
                    1
                } else {
                    0
                },
            },
        )
    } else {
        s.writes
    }
}

/// Whether a beat of the write under WID is handed over.
pub open spec fn takes_w(s: Axi3RamView, p: Axi3SlavePorts) -> bool {
    p.wvalid@.truth() && s.w_ready && awaited(s, p).contains_key(p.wid)
}

/// The code that this write is answered with once that beat is in: the larger of
/// the one so far and the one that the beat's address owes.
pub open spec fn code_then(s: Axi3RamView, p: Axi3SlavePorts) -> u64 {
    let w = awaited(s, p)[p.wid];
    let code = code_due(s.mem, place(w.burst));
    if w.resp > code {
        w.resp
    } else {
        code
    }
}

/// What a cycle does to the writes of an AXI3 memory. A beat belongs to the write
/// under its WID, and is dropped where none is awaited under it. It changes the
/// strobed bytes of its word where that write may change the memory and the address
/// owes the code 0, and nothing otherwise. The last beat, by WLAST, queues the
/// answer under the ID of the write, and a BREADY takes the first answer away. An
/// address is accepted while fewer writes await data and fewer answers wait than
/// may.
pub proof fn lemma_writes_are_answered(s: Axi3RamView, p: Axi3SlavePorts)
    requires
        s.wf(),
        s.can_clock(false, p),
    ensures
        ({
            let t = s.clocked(false, p);
            let w = awaited(s, p)[p.wid];
            let a = place(w.burst);
            let ends = takes_w(s, p) && p.wlast@.truth();
            let q = if ends {
                s.b_queue.push(Answer { id: w.burst.id, resp: code_then(s, p) })
            } else {
                s.b_queue
            };
            let stall = drops_ready(s.lfsr, s.config);
            &&& if takes_w(s, p) && w.commit && code_due(s.mem, a) == 0 {
                is_written(s.mem, t.mem, a, p.wdata@, p.wstrb@)
            } else {
                t.mem == s.mem
            }
            &&& t.writes == (if ends {
                awaited(s, p).remove(p.wid)
            } else if takes_w(s, p) {
                awaited(s, p).insert(
                    p.wid,
                    WriteBurst {
                        burst: stepped(w.burst),
                        commit: w.commit,
                        resp: code_then(s, p),
                    },
                )
            } else {
                awaited(s, p)
            })
            &&& t.b_queue == (if p.bready@.truth() && s.b_valid && q.len() > 0 {
                q.drop_first()
            } else {
                q
            })
            &&& t.aw_ready == (t.writes.len() < slots(s.config) && t.b_queue.len() < slots(s.config)
                && !stall)
            &&& t.w_ready == (t.writes.len() > 0 && !stall)
            &&& t.b_valid == (t.b_queue.len() > 0)
            &&& t.config == s.config
        }),
{
    if let Some(w) = s.config.stall {
        lemma_stall_extremes(s.lfsr, w);
    }
    lemma_memory_answers(s.mem, p.awaddr);
    if takes_w(s, p) {
        let a = place(awaited(s, p)[p.wid].burst);
        lemma_memory_answers(s.mem, a);
        lemma_write_is_local(s.mem, a, p.wdata@, p.wstrb@);
    }
}

/// What a cycle does to the reservations of an AXI3 memory: a write takes away that
/// of its word, and an exclusive read then makes one for its own.
pub proof fn lemma_reservations_follow(s: Axi3RamView, p: Axi3SlavePorts, k: u64)
    requires
        s.wf(),
        s.can_clock(false, p),
    ensures
        s.clocked(false, p).reserved.contains(k) <==> {
            ||| p.arvalid@.truth() && s.reads.ar_ready && p.arlock == 1 && k == word_start(
                p.araddr,
                s.config.width,
            )
            ||| s.reserved.contains(k) && !(takes_aw(s, p) && k == word_start(
                p.awaddr,
                s.config.width,
            ))
        },
{
    lemma_memory_answers(s.mem, p.awaddr);
    lemma_memory_answers(s.clocked(false, p).mem, p.araddr);
    lemma_writes_are_answered(s, p);
}

/// What a cycle does to the reads of an AXI3 memory: what the read engine does with
/// the read that comes in, RREADY and what the memory holds after the write data of
/// the same cycle.
pub proof fn lemma_reads_are_answered(s: Axi3RamView, p: Axi3SlavePorts)
    requires
        s.wf(),
        s.can_clock(false, p),
    ensures
        ({
            let t = s.clocked(false, p);
            let q = left(s.reads, read_shown(s, p), p.rready@.truth());
            &&& t.reads.reads == q
            &&& t.reads.ar_ready == (q.len() < slots(s.config) && !drops_ready(s.lfsr, s.config))
            &&& t.reads.r_valid == (q.len() > 0)
            &&& q.len() > 0 ==> {
                let a = place(q[0]);
                &&& t.reads.r_data == word_due(t.mem, a)
                &&& t.reads.r_id == q[0].id
                &&& t.reads.r_resp == (if code_due(t.mem, a) == 0 && q[0].exclusive {
                    1
                } else {
                    code_due(t.mem, a)
                })
                &&& t.reads.r_last == (q[0].beat == q[0].len)
            }
        }),
{
    let t = s.clocked(false, p);
    if let Some(w) = s.config.stall {
        lemma_stall_extremes(s.lfsr, w);
    }
    lemma_read_engine_answers(
        s.reads,
        t.mem,
        read_shown(s, p),
        p.rready@.truth(),
        slots(s.config),
        drops_ready(s.lfsr, s.config),
    );
}

/// The ports show the answers: the first that waits on the write side, and the beat
/// offered on the read side, with RLAST only beside RVALID. In reset only the
/// handshake lines move. What the master drives stays.
pub proof fn lemma_ports_show_answers(
    s: Axi3RamView,
    rst: bool,
    before: Axi3SlavePorts,
    after: Axi3SlavePorts,
)
    requires
        drives(s, rst, before, after),
    ensures
        after.awready == s.aw_ready && after.wready == s.w_ready && after.bvalid == s.b_valid,
        after.arready == s.reads.ar_ready && after.rvalid == s.reads.r_valid,
        !rst && s.b_queue.len() > 0 ==> after.bresp == s.b_queue[0].resp && after.bid
            == s.b_queue[0].id,
        !rst && s.b_queue.len() == 0 ==> after.bresp == 0 && after.bid == 0,
        !rst ==> after.rdata@ == s.reads.r_data && after.rresp == s.reads.r_resp && after.rid
            == s.reads.r_id && after.rlast == (s.reads.r_valid && s.reads.r_last),
        rst ==> after.bresp == before.bresp && after.bid == before.bid && after.rdata
            == before.rdata && after.rresp == before.rresp && after.rid == before.rid
            && after.rlast == before.rlast,
        after.awaddr == before.awaddr && after.wdata == before.wdata && after.araddr
            == before.araddr,
{
}

/// A reset drops what runs and what is reserved, and leaves the memory as it is.
/// A memory starts like that, never written.
pub proof fn lemma_reset_drops_bursts(
    s: Axi3RamView,
    p: Axi3SlavePorts,
    config: RamConfig,
    seed: u64,
)
    ensures
        ({
            let t = s.clocked(true, p);
            &&& t.writes == Map::<u64, WriteBurst>::empty() && t.b_queue.len() == 0 && t.reads.reads.len() == 0
            &&& t.reserved == Set::<u64>::empty()
            &&& !t.aw_ready && !t.w_ready && !t.b_valid && !t.reads.ar_ready && !t.reads.r_valid
            &&& t.mem == s.mem && t.config == s.config && t.lfsr == s.lfsr
        }),
        ({
            let t = Axi3RamView::fresh(config, seed);
            &&& t.writes == Map::<u64, WriteBurst>::empty() && t.b_queue.len() == 0 && t.reads.reads.len() == 0
            &&& t.reserved == Set::<u64>::empty()
            &&& !t.aw_ready && !t.w_ready && !t.b_valid && !t.reads.ar_ready && !t.reads.r_valid
            &&& t.mem == MemoryView::empty(config.width, config.size) && t.config == config
            &&& t.reads.r_data == Seq::new(bus_words(config.width), |i: int| 0u64)
            &&& t.reads.r_resp == 0 && t.reads.r_id == 0 && !t.reads.r_last
        }),
{
    lemma_memory_answers(MemoryView::empty(config.width, config.size), 0);
    let t = Axi3RamView::fresh(config, seed);
    assert(t.reads.r_data =~= Seq::new(bus_words(config.width), |i: int| 0u64));
}

} // verus!
