//! The bursts of an AXI4 or AXI3 master and what it makes of the responses.

use crate::axi4::burst::{beat, INCR};
use crate::text::{dec, push_dec};
use crate::value::copy_words;
use vstd::arithmetic::div_mod::{lemma_fundamental_div_mod, lemma_mod_multiples_basic};
use vstd::arithmetic::power2::{
    lemma2_to64, lemma2_to64_rest, lemma_pow2_pos, lemma_pow2_strictly_increases, lemma_pow2_unfold,
    pow2,
};
use vstd::prelude::*;
use vstd::string::*;

verus! {

/// What a list of word vectors holds.
pub open spec fn beat_words(beats: Seq<Vec<u64>>) -> Seq<Seq<u64>> {
    beats.map_values(|w: Vec<u64>| w@)
}

/// A queued write burst.
pub struct WriteOp {
    pub addr: u64,
    pub len: u64,
    pub size_log: u64,
    pub kind: u64,
    pub lock: u64,
    pub data: Vec<Vec<u64>>,
    pub strb: Vec<Vec<u64>>,
    pub expect_ok: bool,
}

/// What a [`WriteOp`] holds.
#[verifier::ext_equal]
pub ghost struct WriteOpView {
    pub addr: u64,
    pub len: u64,
    pub size_log: u64,
    pub kind: u64,
    pub lock: u64,
    pub data: Seq<Seq<u64>>,
    pub strb: Seq<Seq<u64>>,
    pub expect_ok: bool,
}

impl View for WriteOp {
    type V = WriteOpView;

    open spec fn view(&self) -> WriteOpView {
        WriteOpView {
            addr: self.addr,
            len: self.len,
            size_log: self.size_log,
            kind: self.kind,
            lock: self.lock,
            data: beat_words(self.data@),
            strb: beat_words(self.strb@),
            expect_ok: self.expect_ok,
        }
    }
}

impl WriteOpView {
    /// A write of nothing.
    pub open spec fn empty() -> WriteOpView {
        WriteOpView {
            addr: 0,
            len: 0,
            size_log: 0,
            kind: 0,
            lock: 0,
            data: seq![],
            strb: seq![],
            expect_ok: false,
        }
    }

    /// A write of one full-width beat.
    pub open spec fn single(
        addr: u64,
        size_log: u64,
        lock: u64,
        data: Seq<u64>,
        strb: Seq<u64>,
        expect_ok: bool,
    ) -> WriteOpView {
        WriteOpView {
            addr,
            len: 0,
            size_log,
            kind: INCR,
            lock,
            data: seq![data],
            strb: seq![strb],
            expect_ok,
        }
    }
}

impl WriteOp {
    /// A write of one full-width beat.
    pub fn one(
        addr: u64,
        size_log: u64,
        lock: u64,
        data: Vec<u64>,
        strb: Vec<u64>,
        expect_ok: bool,
    ) -> (r: WriteOp)
        ensures
            r@ == WriteOpView::single(addr, size_log, lock, data@, strb@, expect_ok),
    {
        let r = WriteOp {
            addr,
            len: 0,
            size_log,
            kind: INCR,
            lock,
            data: vec![data],
            strb: vec![strb],
            expect_ok,
        };
        assert(r@.data =~= seq![data@]);
        assert(r@.strb =~= seq![strb@]);
        r
    }
}

/// The word vector at `i`, or `other` past the end.
pub open spec fn beat_or(beats: Seq<Seq<u64>>, i: u64, other: Seq<u64>) -> Seq<u64> {
    if i < beats.len() {
        beats[i as int]
    } else {
        other
    }
}

/// The word vector at `i`, or `other` past the end.
pub fn pick_beat(beats: &Vec<Vec<u64>>, i: u64, other: Vec<u64>) -> (r: Vec<u64>)
    ensures
        r@ == beat_or(beat_words(beats@), i, other@),
{
    if i < beats.len() as u64 {
        assert(beat_words(beats@)[i as int] == beats[i as int]@);
        copy_words(&beats[i as usize])
    } else {
        other
    }
}

/// A queued or running read burst.
pub struct ReadOp {
    pub addr: u64,
    pub len: u64,
    pub size_log: u64,
    pub kind: u64,
    pub lock: u64,
    pub beat: u64,
    pub expect: Option<Vec<Vec<u64>>>,
}

/// What a [`ReadOp`] holds.
#[verifier::ext_equal]
pub ghost struct ReadOpView {
    pub addr: u64,
    pub len: u64,
    pub size_log: u64,
    pub kind: u64,
    pub lock: u64,
    pub beat: u64,
    pub expect: Option<Seq<Seq<u64>>>,
}

impl View for ReadOp {
    type V = ReadOpView;

    open spec fn view(&self) -> ReadOpView {
        ReadOpView {
            addr: self.addr,
            len: self.len,
            size_log: self.size_log,
            kind: self.kind,
            lock: self.lock,
            beat: self.beat,
            expect: match self.expect {
                Some(b) => Some(beat_words(b@)),
                None => None,
            },
        }
    }
}

impl ReadOpView {
    /// A read of nothing.
    pub open spec fn empty() -> ReadOpView {
        ReadOpView { addr: 0, len: 0, size_log: 0, kind: 0, lock: 0, beat: 0, expect: None }
    }

    /// An incrementing read of full-width beats.
    pub open spec fn incr(
        addr: u64,
        len: u64,
        size_log: u64,
        lock: u64,
        expect: Option<Seq<Seq<u64>>>,
    ) -> ReadOpView {
        ReadOpView { addr, len, size_log, kind: INCR, lock, beat: 0, expect }
    }

    /// Whether a beat is not the data that the read expects.
    pub open spec fn mismatches(self, data: Seq<u64>) -> bool {
        self.expect matches Some(want) && !(self.beat < want.len() && want[self.beat as int]
            == data)
    }
}

impl ReadOp {
    /// A read of nothing.
    pub fn empty() -> (r: ReadOp)
        ensures
            r@ == ReadOpView::empty(),
    {
        ReadOp { addr: 0, len: 0, size_log: 0, kind: 0, lock: 0, beat: 0, expect: None }
    }

    /// An incrementing read of full-width beats, unchecked.
    pub fn unchecked(addr: u64, len: u64, size_log: u64, lock: u64) -> (r: ReadOp)
        ensures
            r@ == ReadOpView::incr(addr, len, size_log, lock, None),
    {
        ReadOp { addr, len, size_log, kind: INCR, lock, beat: 0, expect: None }
    }

    /// An incrementing read of full-width beats, checked against `want`.
    pub fn checked(addr: u64, len: u64, size_log: u64, want: Vec<Vec<u64>>) -> (r: ReadOp)
        ensures
            r@ == ReadOpView::incr(addr, len, size_log, 0, Some(beat_words(want@))),
    {
        ReadOp { addr, len, size_log, kind: INCR, lock: 0, beat: 0, expect: Some(want) }
    }

    /// Whether a beat is not the data that the read expects.
    pub fn mismatches(&self, data: &Vec<u64>) -> (r: bool)
        ensures
            r == self@.mismatches(data@),
    {
        match &self.expect {
            Some(want) => {
                if self.beat < want.len() as u64 {
                    assert(beat_words(want@)[self.beat as int] == want[self.beat as int]@);
                    !crate::value::same_words(&want[self.beat as usize], data)
                } else {
                    true
                }
            },
            None => false,
        }
    }
}

/// A write whose response is awaited.
#[derive(Clone, Copy, Debug, PartialEq, Eq, Structural)]
pub struct PendingBurst {
    pub expect_ok: bool,
    pub exclusive: bool,
}

impl View for PendingBurst {
    type V = PendingBurst;

    open spec fn view(&self) -> PendingBurst {
        *self
    }
}

/// What a burst master reports.
#[derive(Clone, Copy, Debug, PartialEq, Eq, Structural)]
pub enum MasterFault {
    /// The write of this ID had to succeed and was answered with this code.
    WriteResponse { id: u64, code: u64 },
    /// A write response for an ID without a write.
    UnexpectedB(u64),
    /// Read data for an ID without a read.
    UnexpectedR(u64),
    /// RLAST where the read of this ID does not end, or none where it does.
    LastMisaligned(u64),
    /// Data that the read of this ID does not expect.
    DataMismatch(u64),
}

impl MasterFault {
    /// The fault in words, for the protocol called `protocol`.
    pub open spec fn text(self, protocol: Seq<char>) -> Seq<char> {
        match self {
            MasterFault::WriteResponse { id, code } => protocol + " write id "@ + dec(id)
                + ": response "@ + dec(code),
            MasterFault::UnexpectedB(id) => protocol + " B: unexpected BID "@ + dec(id),
            MasterFault::UnexpectedR(id) => protocol + " R: unexpected RID "@ + dec(id),
            MasterFault::LastMisaligned(id) => protocol + " read id "@ + dec(id)
                + ": RLAST misaligned"@,
            MasterFault::DataMismatch(id) => protocol + " read id "@ + dec(id)
                + ": data mismatch"@,
        }
    }

    /// The fault in words.
    pub fn message(&self, protocol: &str) -> (r: String)
        ensures
            r@ == self.text(protocol@),
    {
        let mut r = String::new();
        r.append(protocol);
        match *self {
            MasterFault::WriteResponse { id, code } => {
                r.append(" write id ");
                push_dec(&mut r, id);
                r.append(": response ");
                push_dec(&mut r, code);
            },
            MasterFault::UnexpectedB(id) => {
                r.append(" B: unexpected BID ");
                push_dec(&mut r, id);
            },
            MasterFault::UnexpectedR(id) => {
                r.append(" R: unexpected RID ");
                push_dec(&mut r, id);
            },
            MasterFault::LastMisaligned(id) => {
                r.append(" read id ");
                push_dec(&mut r, id);
                r.append(": RLAST misaligned");
            },
            MasterFault::DataMismatch(id) => {
                r.append(" read id ");
                push_dec(&mut r, id);
                r.append(": data mismatch");
            },
        }
        assert(r@ =~= self.text(protocol@));
        r
    }
}

/// The refusal of a read beat that is not there.
#[derive(Clone, Copy, Debug, PartialEq, Eq, Structural)]
pub struct NoReadBeat;

impl NoReadBeat {
    /// The refusal in words.
    pub fn message(&self) -> (r: &'static str)
        ensures
            r@ == "no read beat available"@,
    {
        "no read beat available"
    }
}

/// The number of times that two divides `n`.
pub open spec fn twos(n: u64) -> nat
    decreases n,
{
    if n == 0 || n % 2 == 1 {
        0
    } else {
        1 + twos(n / 2)
    }
}

/// The number of times that two divides `n`, which is not zero.
pub fn count_twos(n: u64) -> (r: u64)
    requires
        n > 0,
    ensures
        r == twos(n),
        r < 64,
{
    let mut m: u64 = n;
    let mut k: u64 = 0;
    proof {
        lemma_twos_bound(n);
    }
    while m % 2 == 0
        invariant
            m > 0,
            k + twos(m) == twos(n),
            twos(n) < 64,
        decreases m,
    {
        m = m / 2;
        k = k + 1;
    }
    k
}

/// The power of two that divides `n` is not above it and divides it.
pub proof fn lemma_twos_bound(n: u64)
    requires
        n > 0,
    ensures
        pow2(twos(n)) <= n,
        twos(n) < 64,
        n as int % pow2(twos(n)) as int == 0,
    decreases n,
{
    lemma_pow2_pos(twos(n));
    if n % 2 == 1 {
        lemma2_to64();
    } else {
        lemma_twos_bound(n / 2);
        let k = twos(n / 2);
        let p = pow2(k);
        lemma_pow2_unfold(k + 1);
        lemma_pow2_pos(k);
        let h = n as int / 2;
        lemma_fundamental_div_mod(h, p as int);
        let q = h / p as int;
        assert(n as int == q * (2 * p)) by (nonlinear_arith)
            requires
                n as int == 2 * h,
                h == p * q,
        ;
        lemma_mod_multiples_basic(q, (2 * p) as int);
    }
    if twos(n) >= 64 {
        lemma2_to64_rest();
        if twos(n) > 64 {
            lemma_pow2_strictly_increases(64, twos(n));
        }
    }
}

} // verus!
