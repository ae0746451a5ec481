//! What a memory does over the whole run of a write burst.

use crate::axi4::ram::{offers_answer, Axi4RamView, Axi4SlavePorts};
use crate::axi4::slave::{front_answer, taken, Answer, Burst};
use crate::common::counting::larger;
use crate::common::memory::MemoryView;
use crate::common::random::stalls;
use crate::common::resp::OKAY;
use vstd::prelude::*;

verus! {

/// A beat of write data.
pub ghost struct WriteBeat {
    pub data: Seq<u64>,
    pub strb: Seq<u64>,
    pub last: bool,
}

/// The memory after a run of cycles without reset.
pub open spec fn run(s: Axi4RamView, cycles: Seq<Axi4SlavePorts>) -> Axi4RamView
    decreases cycles.len(),
{
    if cycles.len() == 0 {
        s
    } else {
        run(s, cycles.drop_last()).clocked(false, cycles.last())
    }
}

/// The beats of write data handed over in a run.
pub open spec fn beats_handed(s: Axi4RamView, cycles: Seq<Axi4SlavePorts>) -> Seq<WriteBeat>
    decreases cycles.len(),
{
    if cycles.len() == 0 {
        seq![]
    } else {
        let before = beats_handed(s, cycles.drop_last());
        let p = cycles.last();
        if p.wvalid@.truth() && run(s, cycles.drop_last()).w_ready {
            before.push(WriteBeat { data: p.wdata@, strb: p.wstrb@, last: p.wlast@.truth() })
        } else {
            before
        }
    }
}

/// The write responses handed over in a run.
pub open spec fn answers_handed(s: Axi4RamView, cycles: Seq<Axi4SlavePorts>) -> Seq<Answer>
    decreases cycles.len(),
{
    if cycles.len() == 0 {
        seq![]
    } else {
        let before = answers_handed(s, cycles.drop_last());
        let t = run(s, cycles.drop_last());
        if cycles.last().bready@.truth() && t.b_valid {
            before.push(front_answer(t.b_queue))
        } else {
            before
        }
    }
}

/// The memory after the first `n` beats of a write burst: each beat writes its
/// strobed bytes, unless its response is an error.
pub open spec fn landed(m: MemoryView, b: Burst, beats: Seq<WriteBeat>, n: nat) -> MemoryView
    decreases n,
{
    if n == 0 {
        m
    } else {
        let before = landed(m, b, beats, (n - 1) as nat);
        let addr = b.beat_at((n - 1) as u64) as u64;
        if m.response(addr) == OKAY {
            before.written(addr, beats[n - 1].data, beats[n - 1].strb)
        } else {
            before
        }
    }
}

/// The worst response to the first `n` beats of a burst.
pub open spec fn worst(m: MemoryView, b: Burst, n: nat) -> u64
    decreases n,
{
    if n == 0 {
        OKAY
    } else {
        larger(
            worst(m, b, (n - 1) as nat),
            m.response(b.beat_at((n - 1) as u64) as u64),
        )
    }
}

/// The worst response is no better than that of any beat, and is that of some
/// beat or OKAY.
pub proof fn lemma_worst_is_a_beats(m: MemoryView, b: Burst, n: nat)
    ensures
        forall|k: u64| k < n ==> m.response(#[trigger] b.beat_at(k) as u64) <= worst(m, b, n),
        worst(m, b, n) == OKAY || exists|k: u64|
            k < n && m.response(#[trigger] b.beat_at(k) as u64) == worst(m, b, n),
    decreases n,
{
    if n > 0 {
        let j = (n - 1) as nat;
        lemma_worst_is_a_beats(m, b, j);
        let code = m.response(b.beat_at(j as u64) as u64);
        assert forall|k: u64| k < n implies m.response(#[trigger] b.beat_at(k) as u64) <= worst(
            m,
            b,
            n,
        ) by {
            if k == j {
            }
        }
        if worst(m, b, n) != OKAY {
            if worst(m, b, n) == code && j <= u64::MAX {
                assert((j as u64) < n);
            } else {
                let k = choose|k: u64|
                    k < j && m.response(#[trigger] b.beat_at(k) as u64) == worst(m, b, j);
                assert(m.response(b.beat_at(k) as u64) == worst(m, b, n));
            }
        }
    }
}

/// A word that no beat with an OKAY response goes to stays as it is.
pub proof fn lemma_other_words_stay(
    m: MemoryView,
    b: Burst,
    beats: Seq<WriteBeat>,
    n: nat,
    addr: u64,
)
    requires
        n <= u64::MAX + 1,
        forall|k: u64|
            k < n && m.key(#[trigger] b.beat_at(k) as u64) == m.key(addr) ==> m.response(
                b.beat_at(k) as u64,
            ) != OKAY,
    ensures
        landed(m, b, beats, n).at(addr) == m.at(addr),
    decreases n,
{
    lemma_landed_keeps_settings(m, b, beats, n);
    if n > 0 {
        let j = (n - 1) as nat;
        lemma_other_words_stay(m, b, beats, j, addr);
        lemma_landed_keeps_settings(m, b, beats, j);
        assert((j as u64) < n);
        let at = b.beat_at(j as u64) as u64;
        assert(m.key(b.beat_at(j as u64) as u64) == m.key(addr) ==> m.response(at) != OKAY);
    }
}

proof fn lemma_landed_keeps_settings(m: MemoryView, b: Burst, beats: Seq<WriteBeat>, n: nat)
    ensures
        ({
            let t = landed(m, b, beats, n);
            t.width == m.width && t.size == m.size && t.errors == m.errors
        }),
    decreases n,
{
    if n > 0 {
        lemma_landed_keeps_settings(m, b, beats, (n - 1) as nat);
    }
}

/// Whether the READY lines of the write channels fit what the memory holds.
pub open spec fn readies_fit(s: Axi4RamView) -> bool {
    &&& s.aw_ready ==> s.w_cur is None
    &&& s.w_ready ==> s.w_cur is Some
    &&& offers_answer(s)
}

/// A normal write address that is taken starts a burst which commits and whose
/// response is OKAY so far; the READY lines go on fitting.
pub proof fn lemma_burst_starts(s: Axi4RamView, p: Axi4SlavePorts)
    requires
        readies_fit(s),
    ensures
        readies_fit(s.clocked(false, p)),
        p.awvalid@.truth() && s.aw_ready && p.awlock == 0 ==> ({
            let t = s.clocked(false, p);
            &&& t.w_cur == Some(p.aw_burst())
            &&& t.w_commit
            &&& t.w_resp == OKAY
            &&& t.mem == s.mem
        }),
{
}

/// Whether a run hands over at most the beats of the burst, the last one marked
/// and none before it.
pub open spec fn drives_burst(beats: Seq<WriteBeat>, b: Burst) -> bool {
    &&& beats.len() <= b.len + 1
    &&& forall|i: int| 0 <= i < beats.len() ==> (#[trigger] beats[i]).last == (i == b.len)
}

proof fn lemma_burst_runs(s: Axi4RamView, b: Burst, cycles: Seq<Axi4SlavePorts>)
    requires
        readies_fit(s),
        s.w_cur == Some(b),
        s.w_commit,
        s.w_resp == OKAY,
        b.beat == 0,
        b.len < u64::MAX,
        drives_burst(beats_handed(s, cycles), b),
        cycles.len() > 0 ==> beats_handed(s, cycles.drop_last()).len() <= b.len,
    ensures
        ({
            let t = run(s, cycles);
            let beats = beats_handed(s, cycles);
            let n = beats.len();
            &&& readies_fit(t)
            &&& t.mem == landed(s.mem, b, beats, n)
            &&& t.w_commit
            &&& t.w_resp == worst(s.mem, b, n)
            &&& n <= b.len ==> t.w_cur == Some(Burst { beat: n as u64, ..b })
                && answers_handed(s, cycles) + t.b_queue == s.b_queue
            &&& n == b.len + 1 ==> t.w_cur is None && answers_handed(s, cycles) + t.b_queue
                == s.b_queue.push(Answer { id: b.id, resp: worst(s.mem, b, n) })
        }),
    decreases cycles.len(),
{
    if cycles.len() == 0 {
        assert(answers_handed(s, cycles) + s.b_queue =~= s.b_queue);
    } else {
        let before = cycles.drop_last();
        let beats = beats_handed(s, cycles);
        let early = beats_handed(s, before);
        let k = early.len();
        assert(drives_burst(early, b)) by {
            assert forall|i: int| 0 <= i < early.len() implies (#[trigger] early[i]).last == (i
                == b.len) by {
                assert(early[i] == beats[i]);
            }
        }
        lemma_handed_grows(s, before);
        lemma_burst_runs(s, b, before);
        let u = run(s, before);
        let p = cycles.last();
        let t = run(s, cycles);
        lemma_cycle_of_burst(u, p, Burst { beat: k as u64, ..b });
        lemma_landed_keeps_settings(s.mem, b, early, k);
        lemma_landed_agrees(s.mem, b, early, beats, k);
        let c = Burst { beat: k as u64, ..b };
        assert(c.at() == b.beat_at(k as u64));
        let addr = b.beat_at(k as u64) as u64;
        assert(u.mem.response(addr) == s.mem.response(addr));
        let sent = answers_handed(s, before);
        if beats.len() > k {
            assert(beats[k as int].last == (k == b.len));
        }
        if p.bready@.truth() && u.b_valid {
            assert(answers_handed(s, cycles) == sent.push(u.b_queue[0]));
        }
        let added = if beats.len() == b.len + 1 {
            seq![Answer { id: b.id, resp: worst(s.mem, b, beats.len()) }]
        } else {
            seq![]
        };
        assert(answers_handed(s, cycles) + t.b_queue =~= sent + (u.b_queue + added));
        assert(sent + (u.b_queue + added) =~= (sent + u.b_queue) + added);
        if beats.len() == b.len + 1 {
            assert(s.b_queue + added =~= s.b_queue.push(added[0]));
        } else {
            assert(s.b_queue + added =~= s.b_queue);
        }
    }
}

/// Beats that were handed over stay handed over.
proof fn lemma_handed_grows(s: Axi4RamView, cycles: Seq<Axi4SlavePorts>)
    ensures
        cycles.len() > 0 ==> beats_handed(s, cycles.drop_last()).len() <= beats_handed(
            s,
            cycles,
        ).len(),
{
}

/// What has landed depends only on the beats that were handed over.
proof fn lemma_landed_agrees(
    m: MemoryView,
    b: Burst,
    some: Seq<WriteBeat>,
    more: Seq<WriteBeat>,
    n: nat,
)
    requires
        n <= some.len() <= more.len(),
        forall|i: int| 0 <= i < some.len() ==> #[trigger] more[i] == some[i],
    ensures
        landed(m, b, more, n) == landed(m, b, some, n),
    decreases n,
{
    if n > 0 {
        lemma_landed_agrees(m, b, some, more, (n - 1) as nat);
        assert(more[n - 1] == some[n - 1]);
    }
}

/// A cycle of a burst: a beat is taken, or none, and a response is handed over,
/// or none.
proof fn lemma_cycle_of_burst(u: Axi4RamView, p: Axi4SlavePorts, c: Burst)
    requires
        readies_fit(u),
        u.w_cur == Some(c),
        u.w_commit,
    ensures
        ({
            let t = u.clocked(false, p);
            let fire = p.wvalid@.truth() && u.w_ready;
            let last = p.wlast@.truth();
            let addr = c.at() as u64;
            let code = u.mem.response(addr);
            let resp = larger(u.w_resp, code);
            let q = if fire && last {
                u.b_queue.push(Answer { id: c.id, resp })
            } else {
                u.b_queue
            };
            &&& readies_fit(t)
            &&& t.w_commit
            &&& t.mem == (if fire && code == OKAY {
                u.mem.written(addr, p.wdata@, p.wstrb@)
            } else {
                u.mem
            })
            &&& t.w_resp == (if fire {
                resp
            } else {
                u.w_resp
            })
            &&& t.w_cur == (if !fire {
                Some(c)
            } else if last {
                None
            } else {
                Some(c.next())
            })
            &&& t.b_queue == taken(q, p.bready@.truth() && u.b_valid)
        }),
{
    let stall = stalls(u.lfsr, u.config.stall);
    let w = u.drawn().write_cycle(p, stall);
    assert(u.drawn().after_aw(p) == u.drawn());
    assert(w.mem == u.clocked(false, p).mem);
}

/// A write burst is answered once and lands where it may: from the cycle after
/// its address was taken, through any cycles up to the one that takes its last
/// beat, exactly one response is added to those that wait or were handed over,
/// with the ID of the burst and the worst response of its beats, and each beat
/// writes its strobed bytes exactly where its own response is OKAY.
pub proof fn lemma_write_burst_is_answered_once(
    s: Axi4RamView,
    b: Burst,
    cycles: Seq<Axi4SlavePorts>,
)
    requires
        readies_fit(s),
        s.w_cur == Some(b),
        s.w_commit,
        s.w_resp == OKAY,
        b.beat == 0,
        b.len < u64::MAX,
        cycles.len() > 0,
        drives_burst(beats_handed(s, cycles), b),
        beats_handed(s, cycles).len() == b.len + 1,
        beats_handed(s, cycles.drop_last()).len() == b.len,
    ensures
        ({
            let t = run(s, cycles);
            let n = (b.len + 1) as nat;
            &&& t.w_cur is None
            &&& t.mem == landed(s.mem, b, beats_handed(s, cycles), n)
            &&& answers_handed(s, cycles) + t.b_queue == s.b_queue.push(
                Answer { id: b.id, resp: worst(s.mem, b, n) },
            )
        }),
{
    lemma_burst_runs(s, b, cycles);
}

} // verus!
