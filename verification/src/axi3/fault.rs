//! What the AXI3 checker reports.

use crate::common::monitor::{Chan, LineFault};
use crate::common::report::times;
use crate::text::{dec, hex, push_dec, push_hex};
use vstd::prelude::*;
use vstd::string::*;

verus! {

/// A broken AXI3 rule.
#[derive(Clone, Copy, Debug, PartialEq, Eq, Structural)]
pub enum Axi3Fault {
    Line(LineFault),
    /// A beat of this many bytes does not fit the bus.
    SizeExceedsBus(Chan, u64),
    /// `AxLOCK` is `0b11`.
    ReservedLock(Chan),
    /// An exclusive access of this many beats.
    ExclusiveLength(Chan, u64),
    /// An exclusive access of this many bytes.
    ExclusiveTotal(Chan, u64),
    /// An exclusive access at this address, of this many bytes.
    ExclusiveUnaligned(Chan, u64, u64),
    /// `AxBURST` is not a burst type.
    ReservedBurst(Chan, u64),
    /// A burst of this many beats.
    TooManyBeats(Chan, u64),
    /// An incrementing burst leaves its 4 KiB page.
    CrossesPage(Chan),
    /// A wrapping burst of this many beats.
    WrapLength(Chan, u64),
    /// A wrapping burst at this address.
    WrapUnaligned(Chan, u64),
    /// Write data for this ID, which has no write outstanding.
    DataWithoutWrite(u64),
    /// WLAST for an ID after so many beats, where so many were announced.
    WriteLength { id: u64, count: u64, expected: u64 },
    /// Read data for this ID, which has no read outstanding.
    DataWithoutRead(u64),
    /// RLAST for an ID after so many beats, where so many were asked for.
    ReadLength { id: u64, count: u64, expected: u64 },
    /// EXOKAY for this ID, whose read is not exclusive.
    ExokayRead(u64),
    /// A write response for this ID, which has no write outstanding.
    ResponseWithoutWrite(u64),
    /// EXOKAY for this ID, whose write is not exclusive.
    ExokayWrite(u64),
}

/// The beginning of a message about a channel.
pub open spec fn about(c: Chan) -> Seq<char> {
    "AXI3 "@ + c.text() + ": "@
}

fn push_about(out: &mut String, c: Chan)
    ensures
        final(out)@ == old(out)@ + about(c),
{
    out.append("AXI3 ");
    out.append(c.name());
    out.append(": ");
    assert(out@ =~= old(out)@ + about(c));
}

impl Axi3Fault {
    /// The fault in words.
    pub open spec fn text(self) -> Seq<char> {
        match self {
            Axi3Fault::Line(f) => f.text("AXI3"@),
            Axi3Fault::SizeExceedsBus(c, bytes) => about(c) + "SIZE "@ + dec(bytes)
                + " exceeds bus width"@,
            Axi3Fault::ReservedLock(c) => about(c) + "reserved LOCK type 0b11"@,
            Axi3Fault::ExclusiveLength(c, beats) => about(c) + "exclusive length "@ + dec(beats)
                + " is not a power of two"@,
            Axi3Fault::ExclusiveTotal(c, total) => about(c) + "exclusive burst of "@ + dec(total)
                + " bytes exceeds 128"@,
            Axi3Fault::ExclusiveUnaligned(c, addr, total) => about(c) + "exclusive address 0x"@
                + hex(addr) + " not aligned to "@ + dec(total),
            Axi3Fault::ReservedBurst(c, kind) => about(c) + "reserved BURST type "@ + dec(kind),
            Axi3Fault::TooManyBeats(c, beats) => about(c) + dec(beats)
                + " beats exceeds the 16-beat limit"@,
            Axi3Fault::CrossesPage(c) => about(c) + "INCR burst crosses a 4 KiB boundary"@,
            Axi3Fault::WrapLength(c, beats) => about(c) + "WRAP length "@ + dec(beats)
                + " is not 2/4/8/16"@,
            Axi3Fault::WrapUnaligned(c, addr) => about(c) + "WRAP address 0x"@ + hex(addr)
                + " not size-aligned"@,
            Axi3Fault::DataWithoutWrite(id) => "AXI3 W: WID "@ + dec(id)
                + " has no outstanding write"@,
            Axi3Fault::WriteLength { id, count, expected } => "AXI3 W id "@ + dec(id)
                + ": WLAST after "@ + dec(count) + " beats, expected "@ + dec(expected),
            Axi3Fault::DataWithoutRead(id) => "AXI3 R: RID "@ + dec(id)
                + " has no outstanding read"@,
            Axi3Fault::ReadLength { id, count, expected } => "AXI3 R id "@ + dec(id)
                + ": RLAST after "@ + dec(count) + " beats, expected "@ + dec(expected),
            Axi3Fault::ExokayRead(id) => "AXI3 R id "@ + dec(id)
                + ": EXOKAY on a non-exclusive read"@,
            Axi3Fault::ResponseWithoutWrite(id) => "AXI3 B: BID "@ + dec(id)
                + " has no outstanding write"@,
            Axi3Fault::ExokayWrite(id) => "AXI3 B: EXOKAY on a non-exclusive write (id "@ + dec(id)
                + ")"@,
        }
    }

    /// The fault in words.
    pub fn message(&self) -> (r: String)
        ensures
            r@ == self.text(),
    {
        let mut r = String::new();
        match *self {
            Axi3Fault::Line(f) => {
                return f.message("AXI3");
            },
            Axi3Fault::SizeExceedsBus(c, bytes) => {
                push_about(&mut r, c);
                r.append("SIZE ");
                push_dec(&mut r, bytes);
                r.append(" exceeds bus width");
            },
            Axi3Fault::ReservedLock(c) => {
                push_about(&mut r, c);
                r.append("reserved LOCK type 0b11");
            },
            Axi3Fault::ExclusiveLength(c, beats) => {
                push_about(&mut r, c);
                r.append("exclusive length ");
                push_dec(&mut r, beats);
                r.append(" is not a power of two");
            },
            Axi3Fault::ExclusiveTotal(c, total) => {
                push_about(&mut r, c);
                r.append("exclusive burst of ");
                push_dec(&mut r, total);
                r.append(" bytes exceeds 128");
            },
            Axi3Fault::ExclusiveUnaligned(c, addr, total) => {
                push_about(&mut r, c);
                r.append("exclusive address 0x");
                push_hex(&mut r, addr);
                r.append(" not aligned to ");
                push_dec(&mut r, total);
            },
            Axi3Fault::ReservedBurst(c, kind) => {
                push_about(&mut r, c);
                r.append("reserved BURST type ");
                push_dec(&mut r, kind);
            },
            Axi3Fault::TooManyBeats(c, beats) => {
                push_about(&mut r, c);
                push_dec(&mut r, beats);
                r.append(" beats exceeds the 16-beat limit");
            },
            Axi3Fault::CrossesPage(c) => {
                push_about(&mut r, c);
                r.append("INCR burst crosses a 4 KiB boundary");
            },
            Axi3Fault::WrapLength(c, beats) => {
                push_about(&mut r, c);
                r.append("WRAP length ");
                push_dec(&mut r, beats);
                r.append(" is not 2/4/8/16");
            },
            Axi3Fault::WrapUnaligned(c, addr) => {
                push_about(&mut r, c);
                r.append("WRAP address 0x");
                push_hex(&mut r, addr);
                r.append(" not size-aligned");
            },
            Axi3Fault::DataWithoutWrite(id) => {
                r.append("AXI3 W: WID ");
                push_dec(&mut r, id);
                r.append(" has no outstanding write");
            },
            Axi3Fault::WriteLength { id, count, expected } => {
                r.append("AXI3 W id ");
                push_dec(&mut r, id);
                r.append(": WLAST after ");
                push_dec(&mut r, count);
                r.append(" beats, expected ");
                push_dec(&mut r, expected);
            },
            Axi3Fault::DataWithoutRead(id) => {
                r.append("AXI3 R: RID ");
                push_dec(&mut r, id);
                r.append(" has no outstanding read");
            },
            Axi3Fault::ReadLength { id, count, expected } => {
                r.append("AXI3 R id ");
                push_dec(&mut r, id);
                r.append(": RLAST after ");
                push_dec(&mut r, count);
                r.append(" beats, expected ");
                push_dec(&mut r, expected);
            },
            Axi3Fault::ExokayRead(id) => {
                r.append("AXI3 R id ");
                push_dec(&mut r, id);
                r.append(": EXOKAY on a non-exclusive read");
            },
            Axi3Fault::ResponseWithoutWrite(id) => {
                r.append("AXI3 B: BID ");
                push_dec(&mut r, id);
                r.append(" has no outstanding write");
            },
            Axi3Fault::ExokayWrite(id) => {
                r.append("AXI3 B: EXOKAY on a non-exclusive write (id ");
                push_dec(&mut r, id);
                r.append(")");
            },
        }
        assert(r@ =~= self.text());
        r
    }
}

/// Handshake faults as AXI3 faults.
pub open spec fn lines(faults: Seq<LineFault>) -> Seq<Axi3Fault> {
    faults.map_values(|f: LineFault| Axi3Fault::Line(f))
}

/// Adds handshake faults.
pub fn report_lines(fails: &mut Vec<Axi3Fault>, faults: &Vec<LineFault>)
    ensures
        final(fails)@ == old(fails)@ + lines(faults@),
{
    let mut i: usize = 0;
    assert(fails@ =~= old(fails)@ + lines(faults@.take(0)));
    while i < faults.len()
        invariant
            i <= faults.len(),
            fails@ == old(fails)@ + lines(faults@.take(i as int)),
        decreases faults.len() - i,
    {
        fails.push(Axi3Fault::Line(faults[i]));
        i = i + 1;
        assert(fails@ =~= old(fails)@ + lines(faults@.take(i as int)));
    }
    assert(faults@.take(faults.len() as int) =~= faults@);
}

/// A handshake fault is reported as often as it is found, and nothing else is.
pub proof fn lemma_times_lines(faults: Seq<LineFault>, x: Axi3Fault)
    ensures
        times(lines(faults), x) == (match x {
            Axi3Fault::Line(f) => times(faults, f),
            _ => 0,
        }),
    decreases faults.len(),
{
    reveal(times);
    if faults.len() > 0 {
        lemma_times_lines(faults.drop_last(), x);
        assert(lines(faults).drop_last() =~= lines(faults.drop_last()));
        assert(lines(faults).last() == Axi3Fault::Line(faults.last()));
    }
}

} // verus!
