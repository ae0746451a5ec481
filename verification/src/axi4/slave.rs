//! What the AXI4 and AXI3 memories share: accepted bursts, queued write
//! responses and the engine that answers reads.

use crate::axi4::burst::{beat, beat_addr, beat_fits, beat_in_range};
use crate::collections::Fifo;
use crate::common::memory::{Memory, MemoryView};
use crate::common::resp::{EXOKAY, OKAY};
use crate::common::words::{words_for, zero_words, zeros};
use crate::value::word_count;
use vstd::prelude::*;

verus! {

/// How a burst memory is set up.
#[derive(Clone, Copy, Debug, PartialEq, Eq, Structural)]
pub struct RamConfig {
    /// The width of the write data port.
    pub width: u32,
    /// The weight, of 256, for dropping the READY lines.
    pub stall: Option<u64>,
    /// The accesses that may run at once; unset means 4.
    pub max_outstanding: Option<u64>,
    /// The size in bytes; no size means no end.
    pub size: Option<u64>,
}

impl RamConfig {
    /// The accesses that may run at once.
    pub open spec fn max_spec(self) -> u64 {
        match self.max_outstanding {
            Some(n) => n,
            None => 4,
        }
    }

    /// The accesses that may run at once.
    pub fn max(&self) -> (r: u64)
        ensures
            r == self.max_spec(),
    {
        match self.max_outstanding {
            Some(n) => n,
            None => 4,
        }
    }
}

/// An accepted burst and the beat it is at.
#[derive(Clone, Copy, Debug, PartialEq, Eq, Structural)]
pub struct Burst {
    pub addr: u64,
    pub len: u64,
    /// The bytes of a beat.
    pub size: u64,
    pub kind: u64,
    pub id: u64,
    pub exclusive: bool,
    pub beat: u64,
}

impl View for Burst {
    type V = Burst;

    open spec fn view(&self) -> Burst {
        *self
    }
}

impl Burst {
    /// The address of beat `n`.
    pub open spec fn beat_at(self, n: u64) -> int {
        beat(self.addr, self.size, self.kind, self.len, n)
    }

    /// The address of the current beat.
    pub open spec fn at(self) -> int {
        self.beat_at(self.beat)
    }

    /// Whether the address of the current beat can be computed in 64 bits.
    pub open spec fn fits(self) -> bool {
        beat_fits(self.addr, self.size, self.kind, self.len, self.beat)
    }

    /// The burst at its next beat.
    pub open spec fn next(self) -> Burst {
        Burst { beat: (self.beat + 1) as u64, ..self }
    }

    /// The address of the current beat.
    pub fn beat_addr(&self) -> (r: u64)
        requires
            self.fits(),
        ensures
            r == self.at(),
    {
        beat_addr(self.addr, self.size, self.kind, self.len, self.beat)
    }

    /// Whether the address of the current beat can be computed.
    pub fn in_range(&self) -> (r: bool)
        ensures
            r == self.fits(),
    {
        beat_in_range(self.addr, self.size, self.kind, self.len, self.beat)
    }
}

/// A write response that waits to be taken.
#[derive(Clone, Copy, Debug, PartialEq, Eq, Structural)]
pub struct Answer {
    pub id: u64,
    pub resp: u64,
}

impl View for Answer {
    type V = Answer;

    open spec fn view(&self) -> Answer {
        *self
    }
}

/// The first waiting response, or ID 0 with OKAY where none waits.
pub open spec fn front_answer(q: Seq<Answer>) -> Answer {
    if q.len() > 0 {
        q[0]
    } else {
        Answer { id: 0, resp: OKAY }
    }
}

/// The first waiting response.
pub fn first_answer(q: &Fifo<Answer>) -> (r: Answer)
    ensures
        r == front_answer(q@),
{
    if q.is_empty() {
        Answer { id: 0, resp: OKAY }
    } else {
        *q.at(0)
    }
}

/// The responses that wait after a cycle in which the first was taken, or not.
pub open spec fn taken(q: Seq<Answer>, fire: bool) -> Seq<Answer> {
    if fire && q.len() > 0 {
        q.drop_first()
    } else {
        q
    }
}

/// The reads that run after one was accepted, or none.
pub open spec fn joined(reads: Seq<Burst>, ar: Option<Burst>) -> Seq<Burst> {
    match ar {
        Some(b) => reads.push(b),
        None => reads,
    }
}

/// The reads that run after a beat of the first was taken, or not. The others
/// get their turn before it goes on.
pub open spec fn advanced(reads: Seq<Burst>, fire: bool) -> Seq<Burst> {
    if fire && reads.len() > 0 {
        let b = reads[0].next();
        if b.beat > b.len {
            reads.drop_first()
        } else {
            reads.drop_first().push(b)
        }
    } else {
        reads
    }
}

/// What the read engine holds.
#[verifier::ext_equal]
pub ghost struct ReadSideView {
    pub reads: Seq<Burst>,
    pub ar_ready: bool,
    pub r_valid: bool,
    pub r_data: Seq<u64>,
    pub r_id: u64,
    pub r_resp: u64,
    pub r_last: bool,
}

impl ReadSideView {
    /// An engine with nothing to do.
    pub open spec fn fresh(width: u32) -> ReadSideView {
        ReadSideView {
            reads: seq![],
            ar_ready: false,
            r_valid: false,
            r_data: zeros(word_count(width)),
            r_id: 0,
            r_resp: 0,
            r_last: false,
        }
    }

    /// After a reset.
    pub open spec fn reset(self) -> ReadSideView {
        ReadSideView { reads: seq![], ar_ready: false, r_valid: false, ..self }
    }

    /// The reads that run after a cycle.
    pub open spec fn reads_after(self, ar: Option<Burst>, rready: bool) -> Seq<Burst> {
        advanced(joined(self.reads, ar), self.r_valid && rready)
    }

    /// Whether a cycle can be computed in 64 bits.
    pub open spec fn can_clock(self, ar: Option<Burst>, rready: bool) -> bool {
        let before = joined(self.reads, ar);
        let after = self.reads_after(ar, rready);
        &&& self.r_valid && rready && before.len() > 0 ==> before[0].beat < u64::MAX
        &&& after.len() > 0 ==> after[0].fits()
    }

    /// After a cycle. The beat offered is read from memory; an error comes
    /// before an exclusive read's EXOKAY.
    pub open spec fn clocked(
        self,
        mem: MemoryView,
        ar: Option<Burst>,
        rready: bool,
        max: u64,
        stall: bool,
    ) -> ReadSideView {
        let reads = self.reads_after(ar, rready);
        let s = ReadSideView {
            reads,
            ar_ready: reads.len() < max && !stall,
            r_valid: reads.len() > 0,
            ..self
        };
        if reads.len() > 0 {
            let b = reads[0];
            let addr = b.at() as u64;
            ReadSideView {
                r_data: mem.at(addr),
                r_id: b.id,
                r_resp: if mem.response(addr) == OKAY && b.exclusive {
                    EXOKAY
                } else {
                    mem.response(addr)
                },
                r_last: b.beat == b.len,
                ..s
            }
        } else {
            s
        }
    }
}

/// The engine that answers reads: several run at once, and their beats take
/// turns.
pub struct ReadSide {
    reads: Fifo<Burst>,
    ar_ready: bool,
    r_valid: bool,
    r_data: Vec<u64>,
    r_id: u64,
    r_resp: u64,
    r_last: bool,
}

impl View for ReadSide {
    type V = ReadSideView;

    closed spec fn view(&self) -> ReadSideView {
        ReadSideView {
            reads: self.reads@,
            ar_ready: self.ar_ready,
            r_valid: self.r_valid,
            r_data: self.r_data@,
            r_id: self.r_id,
            r_resp: self.r_resp,
            r_last: self.r_last,
        }
    }
}

impl ReadSide {
    /// An engine with nothing to do.
    pub fn new(width: u32) -> (r: ReadSide)
        ensures
            r@ == ReadSideView::fresh(width),
    {
        ReadSide {
            reads: Fifo::new(),
            ar_ready: false,
            r_valid: false,
            r_data: zero_words(words_for(width)),
            r_id: 0,
            r_resp: 0,
            r_last: false,
        }
    }

    /// Whether a read can be accepted.
    pub fn ar_ready(&self) -> (r: bool)
        ensures
            r == self@.ar_ready,
    {
        self.ar_ready
    }

    /// Whether a beat is offered.
    pub fn r_valid(&self) -> (r: bool)
        ensures
            r == self@.r_valid,
    {
        self.r_valid
    }

    /// The data offered.
    pub fn r_data(&self) -> (r: &Vec<u64>)
        ensures
            r@ == self@.r_data,
    {
        &self.r_data
    }

    /// The ID offered.
    pub fn r_id(&self) -> (r: u64)
        ensures
            r == self@.r_id,
    {
        self.r_id
    }

    /// The response offered.
    pub fn r_resp(&self) -> (r: u64)
        ensures
            r == self@.r_resp,
    {
        self.r_resp
    }

    /// Whether the beat offered is its burst's last.
    pub fn r_last(&self) -> (r: bool)
        ensures
            r == self@.r_last,
    {
        self.r_last
    }

    /// Drops every read.
    pub fn reset(&mut self)
        ensures
            final(self)@ == old(self)@.reset(),
    {
        self.reads.clear();
        self.ar_ready = false;
        self.r_valid = false;
        assert(self@ =~= old(self)@.reset());
    }

    /// Whether a cycle can be computed in 64 bits.
    pub fn in_range(&self, ar: Option<Burst>, rready: bool) -> (r: bool)
        ensures
            r == self@.can_clock(ar, rready),
    {
        let n: usize = self.reads.len();
        if n == 0 {
            return match ar {
                Some(b) => if self.r_valid && rready {
                    b.beat < u64::MAX && (b.beat + 1 > b.len || Burst {
                        beat: b.beat + 1,
                        ..b
                    }.in_range())
                } else {
                    b.in_range()
                },
                None => true,
            };
        }
        let b: Burst = *self.reads.at(0);
        if !(self.r_valid && rready) {
            return b.in_range();
        }
        if b.beat == u64::MAX {
            return false;
        }
        if n > 1 {
            self.reads.at(1).in_range()
        } else {
            match ar {
                Some(c) => c.in_range(),
                None => b.beat + 1 > b.len || Burst { beat: b.beat + 1, ..b }.in_range(),
            }
        }
    }

    /// Moves on by a cycle: accepts a read, or none, notes whether the beat
    /// offered was taken, and offers the next.
    pub fn clock(&mut self, mem: &Memory, ar: Option<Burst>, rready: bool, max: u64, stall: bool)
        requires
            old(self)@.can_clock(ar, rready),
        ensures
            final(self)@ == old(self)@.clocked(mem@, ar, rready, max, stall),
    {
        if let Some(b) = ar {
            self.reads.push_back(b);
        }
        if self.r_valid && rready {
            if let Some(b) = self.reads.pop_front() {
                let next = Burst { beat: b.beat + 1, ..b };
                if next.beat <= next.len {
                    self.reads.push_back(next);
                }
            }
        }
        assert(self@.reads =~= old(self)@.reads_after(ar, rready));
        self.ar_ready = (self.reads.len() as u64) < max && !stall;
        self.r_valid = !self.reads.is_empty();
        if !self.reads.is_empty() {
            let b: Burst = *self.reads.at(0);
            let addr: u64 = b.beat_addr();
            self.r_data = mem.read_mem(addr);
            self.r_id = b.id;
            let code: u64 = mem.resp_for(addr);
            self.r_resp = if code != OKAY {
                code
            } else if b.exclusive {
                EXOKAY
            } else {
                OKAY
            };
            self.r_last = b.beat == b.len;
        }
    }
}

/// Whether no running read is past its last beat.
pub open spec fn on_course(reads: Seq<Burst>) -> bool {
    forall|i: int| 0 <= i < reads.len() ==> (#[trigger] reads[i]).beat <= reads[i].len
}

/// The beats that running reads still owe.
pub open spec fn owed(reads: Seq<Burst>) -> int
    decreases reads.len(),
{
    if reads.len() == 0 {
        0
    } else {
        owed(reads.drop_last()) + (reads.last().len - reads.last().beat + 1)
    }
}

proof fn lemma_owed_push(reads: Seq<Burst>, b: Burst)
    ensures
        owed(reads.push(b)) == owed(reads) + (b.len - b.beat + 1),
{
    assert(reads.push(b).drop_last() =~= reads);
}

proof fn lemma_owed_drop_first(reads: Seq<Burst>)
    requires
        reads.len() > 0,
    ensures
        owed(reads) == owed(reads.drop_first()) + (reads[0].len - reads[0].beat + 1),
    decreases reads.len(),
{
    if reads.len() > 1 {
        lemma_owed_drop_first(reads.drop_last());
        assert(reads.drop_first().drop_last() =~= reads.drop_last().drop_first());
    } else {
        assert(reads.drop_first() =~= seq![]);
        assert(reads.drop_last() =~= seq![]);
    }
}

/// A read owes one beat for each that it asked for; a beat taken pays exactly
/// one of them, and a read that owes none is done.
pub proof fn lemma_reads_pay_their_beats(reads: Seq<Burst>, ar: Option<Burst>, fire: bool)
    requires
        on_course(reads),
        ar matches Some(b) ==> b.beat == 0,
        forall|i: int| 0 <= i < reads.len() ==> (#[trigger] reads[i]).beat < u64::MAX,
    ensures
        on_course(advanced(joined(reads, ar), fire)),
        owed(advanced(joined(reads, ar), fire)) == owed(reads) + (match ar {
            Some(b) => b.len + 1,
            None => 0int,
        }) - (if fire && joined(reads, ar).len() > 0 {
            1int
        } else {
            0int
        }),
{
    let all = joined(reads, ar);
    if let Some(b) = ar {
        lemma_owed_push(reads, b);
    }
    assert(on_course(all));
    if fire && all.len() > 0 {
        let next = all[0].next();
        assert(all[0].beat <= all[0].len);
        lemma_owed_drop_first(all);
        let rest = all.drop_first();
        assert forall|i: int| 0 <= i < rest.len() implies (#[trigger] rest[i]).beat
            <= rest[i].len by {
            assert(rest[i] == all[i + 1]);
        }
        lemma_owed_push(rest, next);
        assert(on_course(advanced(all, fire)));
    }
}

/// Reads take turns: once a beat of the first read was taken, every other read
/// comes one place nearer to the front, and the read itself waits behind them
/// all unless it is done.
pub proof fn lemma_reads_take_turns(reads: Seq<Burst>, i: int)
    requires
        0 < i < reads.len(),
    ensures
        advanced(reads, true)[i - 1] == reads[i],
        advanced(reads, true).len() > reads.len() - 1 ==> advanced(reads, true).last()
            == reads[0].next(),
{
}

/// Whether what an engine offers is the current beat of its first read.
pub open spec fn offers_front(s: ReadSideView) -> bool {
    &&& s.r_valid == (s.reads.len() > 0)
    &&& s.r_valid ==> s.r_id == s.reads[0].id && s.r_last == (s.reads[0].beat
        == s.reads[0].len)
}

/// An engine always offers the current beat of its first read. A beat that is
/// not taken stays offered, with its ID and its mark of the last beat, and with
/// its data and response as long as the memory does not change.
pub proof fn lemma_offered_beat_is_stable(
    s: ReadSideView,
    mem: MemoryView,
    later: MemoryView,
    ar: Option<Burst>,
    next: Option<Burst>,
    rready: bool,
    max: u64,
    stall: bool,
)
    ensures
        offers_front(ReadSideView::fresh(mem.width)),
        offers_front(s.reset()),
        ({
            let t = s.clocked(mem, ar, rready, max, stall);
            let u = t.clocked(later, next, false, max, stall);
            &&& offers_front(t)
            &&& t.r_valid ==> u.r_valid && u.r_id == t.r_id && u.r_last == t.r_last
            &&& t.r_valid && later == mem ==> u.r_data == t.r_data && u.r_resp == t.r_resp
        }),
{
}

} // verus!
