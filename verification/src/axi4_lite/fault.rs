//! What the AXI4-Lite checker reports.

use crate::common::monitor::{Chan, LineFault};
use crate::common::report::times;
use crate::text::{dec, hex, push_dec, push_hex};
use vstd::prelude::*;
use vstd::string::*;

verus! {

/// A broken AXI4-Lite rule.
#[derive(Clone, Copy, Debug, PartialEq, Eq, Structural)]
pub enum Axi4LiteFault {
    Line(LineFault),
    /// EXOKAY, where there is no exclusive access.
    Exokay(Chan),
    /// An address that is not aligned to the data width.
    Unaligned(Chan, u64),
    /// A write response before its request.
    EarlyWriteResponse,
    /// A read response before its request.
    EarlyReadResponse,
    /// No handshake for this many cycles with work outstanding.
    Deadlock(u64),
}

impl Axi4LiteFault {
    /// The fault in words.
    pub open spec fn text(self) -> Seq<char> {
        match self {
            Axi4LiteFault::Line(f) => f.text("AXI4-Lite"@),
            Axi4LiteFault::Exokay(c) => "AXI4-Lite "@ + c.text()
                + ": EXOKAY is not a legal AXI4-Lite response"@,
            Axi4LiteFault::Unaligned(c, addr) => "AXI4-Lite "@ + c.text()
                + ": unaligned address 0x"@ + hex(addr),
            Axi4LiteFault::EarlyWriteResponse =>
                "AXI4-Lite B: write response with no outstanding write"@,
            Axi4LiteFault::EarlyReadResponse =>
                "AXI4-Lite R: read response with no outstanding read"@,
            Axi4LiteFault::Deadlock(limit) => "AXI4-Lite: bus idle for "@ + dec(limit)
                + " cycles with work outstanding (deadlock)"@,
        }
    }

    /// The fault in words.
    pub fn message(&self) -> (r: String)
        ensures
            r@ == self.text(),
    {
        let mut r = String::new();
        match *self {
            Axi4LiteFault::Line(f) => {
                return f.message("AXI4-Lite");
            },
            Axi4LiteFault::Exokay(c) => {
                r.append("AXI4-Lite ");
                r.append(c.name());
                r.append(": EXOKAY is not a legal AXI4-Lite response");
            },
            Axi4LiteFault::Unaligned(c, addr) => {
                r.append("AXI4-Lite ");
                r.append(c.name());
                r.append(": unaligned address 0x");
                push_hex(&mut r, addr);
            },
            Axi4LiteFault::EarlyWriteResponse => {
                r.append("AXI4-Lite B: write response with no outstanding write");
            },
            Axi4LiteFault::EarlyReadResponse => {
                r.append("AXI4-Lite R: read response with no outstanding read");
            },
            Axi4LiteFault::Deadlock(limit) => {
                r.append("AXI4-Lite: bus idle for ");
                push_dec(&mut r, limit);
                r.append(" cycles with work outstanding (deadlock)");
            },
        }
        assert(r@ =~= self.text());
        r
    }
}

/// Handshake faults as AXI4-Lite faults.
pub open spec fn lines(faults: Seq<LineFault>) -> Seq<Axi4LiteFault> {
    faults.map_values(|f: LineFault| Axi4LiteFault::Line(f))
}

/// Adds handshake faults.
pub fn report_lines(fails: &mut Vec<Axi4LiteFault>, faults: &Vec<LineFault>)
    ensures
        final(fails)@ == old(fails)@ + lines(faults@),
{
    let mut i: usize = 0;
    assert(fails@ =~= old(fails)@ + lines(faults@.take(0)));
    while i < faults.len()
        invariant
            i <= faults.len(),
            fails@ == old(fails)@ + lines(faults@.take(i as int)),
        decreases faults.len() - i,
    {
        fails.push(Axi4LiteFault::Line(faults[i]));
        i = i + 1;
        assert(fails@ =~= old(fails)@ + lines(faults@.take(i as int)));
    }
    assert(faults@.take(faults.len() as int) =~= faults@);
}

/// A handshake fault is reported as often as it is found, and nothing else is.
pub proof fn lemma_times_lines(faults: Seq<LineFault>, x: Axi4LiteFault)
    ensures
        times(lines(faults), x) == (match x {
            Axi4LiteFault::Line(f) => times(faults, f),
            _ => 0,
        }),
    decreases faults.len(),
{
    reveal(times);
    if faults.len() > 0 {
        lemma_times_lines(faults.drop_last(), x);
        assert(lines(faults).drop_last() =~= lines(faults.drop_last()));
        assert(lines(faults).last() == Axi4LiteFault::Line(faults.last()));
    }
}

} // verus!
