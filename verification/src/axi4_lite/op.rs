//! The transactions of an AXI4-Lite master.

use crate::collections::{Fifo, KeySet};
use crate::common::lanes::{
    align, aligned, blend, bytes_for, lane_count, lemma_lanes_fit, lemma_merged_len, merge_lanes,
    merged,
};
use crate::common::stimulus::{full_strb, full_strobe};
use crate::text::{dec, hex, hex_list, push_dec, push_hex, push_hex_list};
use crate::value::{copy_words, word_count};
use vstd::prelude::*;
use vstd::string::*;

verus! {

/// A read, queued or in flight: the data it is checked against, if any, and
/// the `(mask, value)` of a read-modify-write, if it is one.
pub struct ReadMeta {
    pub addr: u64,
    pub expect: Option<Vec<u64>>,
    pub rmw: Option<(Vec<u64>, Vec<u64>)>,
}

/// What a [`ReadMeta`] holds.
#[verifier::ext_equal]
pub ghost struct ReadView {
    pub addr: u64,
    pub expect: Option<Seq<u64>>,
    pub rmw: Option<(Seq<u64>, Seq<u64>)>,
}

impl View for ReadMeta {
    type V = ReadView;

    open spec fn view(&self) -> ReadView {
        ReadView {
            addr: self.addr,
            expect: match self.expect {
                Some(w) => Some(w@),
                None => None,
            },
            rmw: match self.rmw {
                Some(p) => Some((p.0@, p.1@)),
                None => None,
            },
        }
    }
}

impl ReadMeta {
    /// A copy.
    pub fn copy(&self) -> (r: ReadMeta)
        ensures
            r@ == self@,
    {
        ReadMeta {
            addr: self.addr,
            expect: match &self.expect {
                Some(w) => Some(copy_words(w)),
                None => None,
            },
            rmw: match &self.rmw {
                Some(p) => Some((copy_words(&p.0), copy_words(&p.1))),
                None => None,
            },
        }
    }
}

/// A queued transaction. Reads and writes share one queue in program order,
/// so that the order of accesses to one address holds across the channels.
pub enum Op {
    Write { addr: u64, data: Vec<u64>, strb: Vec<u64>, expect_ok: bool },
    Read(ReadMeta),
}

/// What an [`Op`] holds.
#[verifier::ext_equal]
pub ghost enum OpView {
    Write { addr: u64, data: Seq<u64>, strb: Seq<u64>, expect_ok: bool },
    Read(ReadView),
}

impl View for Op {
    type V = OpView;

    open spec fn view(&self) -> OpView {
        match self {
            Op::Write { addr, data, strb, expect_ok } => OpView::Write {
                addr: *addr,
                data: data@,
                strb: strb@,
                expect_ok: *expect_ok,
            },
            Op::Read(r) => OpView::Read(r@),
        }
    }
}

impl OpView {
    /// The address accessed.
    pub open spec fn addr(self) -> u64 {
        match self {
            OpView::Write { addr, .. } => addr,
            OpView::Read(r) => r.addr,
        }
    }

    /// Whether the access is a write.
    pub open spec fn is_write(self) -> bool {
        self is Write
    }

    /// Whether the access changes the memory: it is a write or a
    /// read-modify-write.
    pub open spec fn changes(self) -> bool {
        match self {
            OpView::Write { .. } => true,
            OpView::Read(r) => r.expect is None && r.rmw is Some,
        }
    }
}

/// The word at aligned address `key` after an access, where it was `v` before.
pub open spec fn left_by(op: OpView, key: u64, v: Seq<u64>, width: u32) -> Seq<u64> {
    let lanes = lane_count(width);
    if aligned(op.addr(), lanes) != key {
        v
    } else {
        match op {
            OpView::Write { data, strb, .. } => merged(v, data, strb, lanes as nat),
            OpView::Read(r) => match (r.expect, r.rmw) {
                (None, Some(p)) => merged(
                    v,
                    modified(v, p.0, p.1),
                    full_strobe(width),
                    lanes as nat,
                ),
                _ => v,
            },
        }
    }
}

/// The word at aligned address `key` after accesses in program order.
pub open spec fn left_by_all(ops: Seq<OpView>, key: u64, v: Seq<u64>, width: u32) -> Seq<u64>
    decreases ops.len(),
{
    if ops.len() == 0 {
        v
    } else {
        left_by(ops.last(), key, left_by_all(ops.drop_last(), key, v, width), width)
    }
}

/// Accesses keep a word as wide as it is.
pub proof fn lemma_left_by_len(op: OpView, key: u64, v: Seq<u64>, width: u32)
    requires
        v.len() == word_count(width),
    ensures
        left_by(op, key, v, width).len() == word_count(width),
{
    lemma_lanes_fit(width);
    let lanes = lane_count(width) as nat;
    match op {
        OpView::Write { data, strb, .. } => lemma_merged_len(v, data, strb, lanes),
        OpView::Read(r) => if let Some(p) = r.rmw {
            lemma_merged_len(v, modified(v, p.0, p.1), full_strobe(width), lanes);
        },
    }
}

/// Accesses keep a word as wide as it is.
pub proof fn lemma_left_by_all_len(ops: Seq<OpView>, key: u64, v: Seq<u64>, width: u32)
    requires
        v.len() == word_count(width),
    ensures
        left_by_all(ops, key, v, width).len() == word_count(width),
    decreases ops.len(),
{
    if ops.len() > 0 {
        lemma_left_by_all_len(ops.drop_last(), key, v, width);
        lemma_left_by_len(
            ops.last(),
            key,
            left_by_all(ops.drop_last(), key, v, width),
            width,
        );
    }
}

/// Applies an access to the word at aligned address `key`.
pub fn apply(op: &Op, key: u64, word: &mut Vec<u64>, width: u32)
    requires
        old(word).len() == word_count(width),
    ensures
        final(word)@ == left_by(op@, key, old(word)@, width),
        final(word).len() == word_count(width),
{
    let bytes: u64 = bytes_for(width);
    proof {
        lemma_left_by_len(op@, key, word@, width);
        lemma_lanes_fit(width);
    }
    if align(op.addr(), bytes) == key {
        match op {
            Op::Write { data, strb, .. } => merge_lanes(word, data, strb, bytes),
            Op::Read(r) => {
                if r.expect.is_none() {
                    if let Some(p) = &r.rmw {
                        let new: Vec<u64> = modify(word, &p.0, &p.1);
                        merge_lanes(word, &new, &full_strb(width), bytes);
                    }
                }
            },
        }
    }
}

/// Applies the queued accesses in program order to the word at aligned address
/// `key`.
pub fn apply_all(ops: &Fifo<Op>, key: u64, word: &mut Vec<u64>, width: u32)
    requires
        old(word).len() == word_count(width),
    ensures
        final(word)@ == left_by_all(ops@, key, old(word)@, width),
        final(word).len() == word_count(width),
{
    let mut i: usize = 0;
    while i < ops.len()
        invariant
            i <= ops@.len(),
            word.len() == word_count(width),
            word@ == left_by_all(ops@.take(i as int), key, old(word)@, width),
        decreases ops@.len() - i,
    {
        apply(ops.at(i), key, word, width);
        i = i + 1;
        assert(ops@.take(i as int).drop_last() =~= ops@.take(i - 1));
    }
    assert(ops@.take(ops@.len() as int) =~= ops@);
}

impl Op {
    /// The address accessed.
    pub fn addr(&self) -> (r: u64)
        ensures
            r == self@.addr(),
    {
        match self {
            Op::Write { addr, .. } => *addr,
            Op::Read(r) => r.addr,
        }
    }

    fn is_write(&self) -> (r: bool)
        ensures
            r == self@.is_write(),
    {
        match self {
            Op::Write { .. } => true,
            Op::Read(_) => false,
        }
    }
}

/// Whether the queued access at `i` may be issued: it is on the wanted
/// channel, its address has nothing in flight, and no access queued before it
/// has the same address.
pub open spec fn issuable(ops: Seq<OpView>, inflight: Set<u64>, write: bool, i: int) -> bool {
    &&& 0 <= i < ops.len()
    &&& ops[i].is_write() == write
    &&& !inflight.contains(ops[i].addr())
    &&& forall|j: int| 0 <= j < i ==> (#[trigger] ops[j]).addr() != ops[i].addr()
}

/// The first access from position `i` on that may be issued.
pub open spec fn next_issuable(
    ops: Seq<OpView>,
    inflight: Set<u64>,
    write: bool,
    i: int,
) -> Option<int>
    decreases ops.len() - i,
{
    if i >= ops.len() {
        None
    } else if issuable(ops, inflight, write, i) {
        Some(i)
    } else {
        next_issuable(ops, inflight, write, i + 1)
    }
}

/// The position of the first access for the wanted channel that may be
/// issued.
pub fn next_op(ops: &Fifo<Op>, inflight: &KeySet, write: bool) -> (r: Option<usize>)
    ensures
        match r {
            Some(i) => next_issuable(ops@, inflight@, write, 0) == Some(i as int) && issuable(
                ops@,
                inflight@,
                write,
                i as int,
            ),
            None => next_issuable(ops@, inflight@, write, 0) is None,
        },
{
    let mut blocked = KeySet::new();
    let mut i: usize = 0;
    while i < ops.len()
        invariant
            i <= ops@.len(),
            forall|a: u64| #[trigger]
                blocked@.contains(a) <==> exists|j: int|
                    0 <= j < i && (#[trigger] ops@[j]).addr() == a,
            next_issuable(ops@, inflight@, write, 0) == next_issuable(
                ops@,
                inflight@,
                write,
                i as int,
            ),
        decreases ops@.len() - i,
    {
        let op = ops.at(i);
        let addr: u64 = op.addr();
        if !inflight.contains(addr) && !blocked.contains(addr) && op.is_write() == write {
            return Some(i);
        }
        assert(!issuable(ops@, inflight@, write, i as int)) by {
            if blocked@.contains(addr) {
                let j = choose|j: int| 0 <= j < i && (#[trigger] ops@[j]).addr() == addr;
                assert(ops@[j].addr() == ops@[i as int].addr());
            }
        }
        let ghost before = blocked@;
        blocked.insert(addr);
        proof {
            assert forall|a: u64| #[trigger] blocked@.contains(a) <==> exists|j: int|
                0 <= j < i + 1 && (#[trigger] ops@[j]).addr() == a by {
                if a == addr {
                    assert(ops@[i as int].addr() == a);
                } else if before.contains(a) {
                    let j = choose|j: int| 0 <= j < i && (#[trigger] ops@[j]).addr() == a;
                    assert(ops@[j].addr() == a);
                }
            }
        }
        i = i + 1;
    }
    None
}

/// A write whose response is awaited.
#[derive(Clone, Copy, Debug, PartialEq, Eq, Structural)]
pub struct PendingWrite {
    pub addr: u64,
    pub expect_ok: bool,
}

impl View for PendingWrite {
    type V = PendingWrite;

    open spec fn view(&self) -> PendingWrite {
        *self
    }
}

/// `data` with the bits of `mask` replaced by those of `value`.
pub open spec fn modified(data: Seq<u64>, mask: Seq<u64>, value: Seq<u64>) -> Seq<u64> {
    Seq::new(
        data.len(),
        |i: int|
            if i < mask.len() && i < value.len() {
                blend(data[i], value[i], mask[i])
            } else {
                data[i]
            },
    )
}

/// Replaces the bits of `mask` in `data` by those of `value`.
pub fn modify(data: &Vec<u64>, mask: &Vec<u64>, value: &Vec<u64>) -> (r: Vec<u64>)
    ensures
        r@ == modified(data@, mask@, value@),
{
    let mut r: Vec<u64> = Vec::new();
    let mut i: usize = 0;
    while i < data.len()
        invariant
            i <= data.len(),
            r.len() == i,
            forall|j: int| 0 <= j < i ==> r[j] == modified(data@, mask@, value@)[j],
        decreases data.len() - i,
    {
        if i < mask.len() && i < value.len() {
            r.push((data[i] & !mask[i]) | (value[i] & mask[i]));
        } else {
            r.push(data[i]);
        }
        i = i + 1;
    }
    assert(r@ =~= modified(data@, mask@, value@));
    r
}

/// What the master reports.
#[derive(Debug, PartialEq, Eq)]
pub enum LiteMasterFault {
    /// A write that had to succeed was answered with this code.
    WriteResponse { addr: u64, code: u64 },
    /// A write response that no write awaits.
    ResponseWithoutWrite,
    /// A checked read returned other data.
    ReadMismatch { addr: u64, want: Vec<u64>, got: Vec<u64> },
    /// Read data that no read awaits.
    ResponseWithoutRead,
}

/// What a [`LiteMasterFault`] says.
#[verifier::ext_equal]
pub ghost enum LiteMasterFaultView {
    WriteResponse { addr: u64, code: u64 },
    ResponseWithoutWrite,
    ReadMismatch { addr: u64, want: Seq<u64>, got: Seq<u64> },
    ResponseWithoutRead,
}

impl View for LiteMasterFault {
    type V = LiteMasterFaultView;

    open spec fn view(&self) -> LiteMasterFaultView {
        match self {
            LiteMasterFault::WriteResponse { addr, code } => LiteMasterFaultView::WriteResponse {
                addr: *addr,
                code: *code,
            },
            LiteMasterFault::ResponseWithoutWrite => LiteMasterFaultView::ResponseWithoutWrite,
            LiteMasterFault::ReadMismatch { addr, want, got } =>
                LiteMasterFaultView::ReadMismatch { addr: *addr, want: want@, got: got@ },
            LiteMasterFault::ResponseWithoutRead => LiteMasterFaultView::ResponseWithoutRead,
        }
    }
}

impl LiteMasterFaultView {
    /// The fault in words.
    pub open spec fn text(self) -> Seq<char> {
        match self {
            LiteMasterFaultView::WriteResponse { addr, code } => "write @0x"@ + hex(addr)
                + ": response "@ + dec(code) + " (expected OKAY)"@,
            LiteMasterFaultView::ResponseWithoutWrite =>
                "AXI4-Lite B: response with no outstanding write"@,
            LiteMasterFaultView::ReadMismatch { addr, want, got } => "read @0x"@ + hex(addr)
                + ": expected "@ + hex_list(want) + ", got "@ + hex_list(got),
            LiteMasterFaultView::ResponseWithoutRead =>
                "AXI4-Lite R: response with no outstanding read"@,
        }
    }
}

impl LiteMasterFault {
    /// The fault in words.
    pub fn message(&self) -> (r: String)
        ensures
            r@ == self@.text(),
    {
        let mut r = String::new();
        match self {
            LiteMasterFault::WriteResponse { addr, code } => {
                r.append("write @0x");
                push_hex(&mut r, *addr);
                r.append(": response ");
                push_dec(&mut r, *code);
                r.append(" (expected OKAY)");
            },
            LiteMasterFault::ResponseWithoutWrite => {
                r.append("AXI4-Lite B: response with no outstanding write");
            },
            LiteMasterFault::ReadMismatch { addr, want, got } => {
                r.append("read @0x");
                push_hex(&mut r, *addr);
                r.append(": expected ");
                push_hex_list(&mut r, want);
                r.append(", got ");
                push_hex_list(&mut r, got);
            },
            LiteMasterFault::ResponseWithoutRead => {
                r.append("AXI4-Lite R: response with no outstanding read");
            },
        }
        assert(r@ =~= self@.text());
        r
    }
}

/// What a list of faults says.
pub open spec fn fault_views(faults: Seq<LiteMasterFault>) -> Seq<LiteMasterFaultView> {
    faults.map_values(|f: LiteMasterFault| f@)
}

/// The access picked for a channel is the oldest queued one to its address,
/// which has nothing in flight; an access is left waiting only where an older
/// one, queued or in flight, has its address. So accesses to one address keep
/// program order across the channels.
pub proof fn lemma_oldest_access_goes_first(
    ops: Seq<OpView>,
    inflight: Set<u64>,
    write: bool,
)
    ensures
        match next_issuable(ops, inflight, write, 0) {
            Some(i) => issuable(ops, inflight, write, i) && forall|j: int|
                0 <= j < i ==> !#[trigger] issuable(ops, inflight, write, j),
            None => forall|j: int| 0 <= j < ops.len() ==> !#[trigger] issuable(
                ops,
                inflight,
                write,
                j,
            ),
        },
{
    lemma_next_issuable(ops, inflight, write, 0);
}

proof fn lemma_next_issuable(ops: Seq<OpView>, inflight: Set<u64>, write: bool, i: int)
    requires
        0 <= i,
    ensures
        match next_issuable(ops, inflight, write, i) {
            Some(k) => i <= k && issuable(ops, inflight, write, k) && forall|j: int|
                i <= j < k ==> !#[trigger] issuable(ops, inflight, write, j),
            None => forall|j: int| i <= j < ops.len() ==> !#[trigger] issuable(
                ops,
                inflight,
                write,
                j,
            ),
        },
    decreases ops.len() - i,
{
    if i < ops.len() && !issuable(ops, inflight, write, i) {
        lemma_next_issuable(ops, inflight, write, i + 1);
    }
}

} // verus!
