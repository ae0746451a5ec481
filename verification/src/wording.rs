//! What messages and reports say: each value under its own words.

use crate::axi3::coverage::Axi3Coverage;
use crate::axi3::fault::{about, Axi3Fault};
use crate::axi4::ops::MasterFault;
use crate::axi4_lite::coverage::LiteCoverage;
use crate::axi4_lite::fault::Axi4LiteFault;
use crate::axi4_lite::hex::HexError;
use crate::axi4_lite::op::LiteMasterFaultView;
use crate::axi4_stream::checker::{Axi4StreamCheckerView, Axi4StreamFault};
use crate::axi4_stream::sink::StreamMismatchView;
use crate::common::latency::{latency_text, Latency};
use crate::common::monitor::{Chan, LineFault, Wire};
use crate::common::setup::BuildError;
use crate::common::words::{ArgError, ArgFault};
use crate::text::{dec, hex, hex_list};
use vstd::prelude::*;

verus! {

/// Whether `part` stands in a text from position `i` on.
pub open spec fn stands(text: Seq<char>, part: Seq<char>, i: int) -> bool {
    0 <= i && i + part.len() <= text.len() && text.subrange(i, i + part.len()) == part
}

/// Whether a text says `value` right behind `label`.
pub open spec fn says(text: Seq<char>, label: Seq<char>, value: Seq<char>) -> bool {
    exists|i: int| #[trigger] stands(text, label + value, i)
}

/// A text that ends in a label and a value says it.
pub broadcast proof fn lemma_says_here(before: Seq<char>, label: Seq<char>, value: Seq<char>)
    ensures
        #[trigger] says(before + label + value, label, value),
{
    let text = before + label + value;
    let i = before.len() as int;
    assert(text.subrange(i, i + (label + value).len()) =~= label + value);
    assert(stands(text, label + value, i));
}

/// So does one that is no more than that.
pub broadcast proof fn lemma_says_alone(label: Seq<char>, value: Seq<char>)
    ensures
        #[trigger] says(label + value, label, value),
{
    let text = label + value;
    assert(text.subrange(0, text.len() as int) =~= text);
    assert(stands(text, label + value, 0));
}

/// What a text says, it says with more behind it too.
pub broadcast proof fn lemma_says_more(
    text: Seq<char>,
    more: Seq<char>,
    label: Seq<char>,
    value: Seq<char>,
)
    requires
        says(text, label, value),
    ensures
        #[trigger] says(text + more, label, value),
{
    let part = label + value;
    let i = choose|i: int| #[trigger] stands(text, part, i);
    assert((text + more).subrange(i, i + part.len()) =~= text.subrange(i, i + part.len()));
    assert(stands(text + more, part, i));
}

/// The name of a channel and of a handshake line.
pub proof fn lemma_names(c: Chan)
    ensures
        c.text() == (match c {
            Chan::Aw => seq!['A', 'W'],
            Chan::W => seq!['W'],
            Chan::B => seq!['B'],
            Chan::Ar => seq!['A', 'R'],
            Chan::R => seq!['R'],
        }),
        Wire::Valid(c).text() == c.text() + seq!['V', 'A', 'L', 'I', 'D'],
        Wire::Ready(c).text() == c.text() + seq!['R', 'E', 'A', 'D', 'Y'],
{
    reveal_strlit("AW");
    reveal_strlit("W");
    reveal_strlit("B");
    reveal_strlit("AR");
    reveal_strlit("R");
    reveal_strlit("VALID");
    reveal_strlit("READY");
    assert("AW"@ =~= seq!['A', 'W']);
    assert("W"@ =~= seq!['W']);
    assert("B"@ =~= seq!['B']);
    assert("AR"@ =~= seq!['A', 'R']);
    assert("R"@ =~= seq!['R']);
    assert("VALID"@ =~= seq!['V', 'A', 'L', 'I', 'D']);
    assert("READY"@ =~= seq!['R', 'E', 'A', 'D', 'Y']);
}

/// A handshake fault names its line or channel, and a timeout its limit.
pub proof fn lemma_line_fault_says(f: LineFault, protocol: Seq<char>)
    ensures
        match f {
            LineFault::HighInReset(w) => says(f.text(protocol), ": "@, w.text()),
            LineFault::Unknown(w) => says(f.text(protocol), ": "@, w.text()),
            LineFault::UnknownPayload(c) => says(f.text(protocol), " "@, c.text()),
            LineFault::Unsteady(c, u) => says(f.text(protocol), " "@, c.text()) && says(
                f.text(protocol),
                ": "@,
                u.text(),
            ),
            LineFault::Timeout(c, limit) => says(f.text(protocol), " "@, c.text()) && says(
                f.text(protocol),
                ": no READY within "@,
                dec(limit),
            ),
        },
{
    broadcast use {lemma_says_here, lemma_says_alone, lemma_says_more};

}

/// An AXI4-Lite fault names its channel, its address or its limit.
pub proof fn lemma_lite_fault_says(f: Axi4LiteFault)
    ensures
        match f {
            Axi4LiteFault::Exokay(c) => says(f.text(), "AXI4-Lite "@, c.text()),
            Axi4LiteFault::Unaligned(c, addr) => says(f.text(), "AXI4-Lite "@, c.text()) && says(
                f.text(),
                ": unaligned address 0x"@,
                hex(addr),
            ),
            Axi4LiteFault::Deadlock(limit) => says(f.text(), "AXI4-Lite: bus idle for "@, dec(limit)),
            _ => true,
        },
{
    broadcast use {lemma_says_here, lemma_says_alone, lemma_says_more};

}

/// An AXI3 fault about a burst names what is wrong with it.
pub proof fn lemma_axi3_burst_fault_says(f: Axi3Fault)
    ensures
        match f {
            Axi3Fault::SizeExceedsBus(_, bytes) => says(f.text(), "SIZE "@, dec(bytes)),
            Axi3Fault::ExclusiveLength(_, beats) => says(f.text(), "exclusive length "@, dec(beats)),
            Axi3Fault::ExclusiveTotal(_, total) => says(
                f.text(),
                "exclusive burst of "@,
                dec(total),
            ),
            Axi3Fault::ExclusiveUnaligned(_, addr, total) => says(
                f.text(),
                "exclusive address 0x"@,
                hex(addr),
            ) && says(f.text(), " not aligned to "@, dec(total)),
            Axi3Fault::ReservedBurst(_, kind) => says(f.text(), "reserved BURST type "@, dec(kind)),
            Axi3Fault::WrapLength(_, beats) => says(f.text(), "WRAP length "@, dec(beats)),
            Axi3Fault::WrapUnaligned(_, addr) => says(f.text(), "WRAP address 0x"@, hex(addr)),
            _ => true,
        },
{
    broadcast use {lemma_says_here, lemma_says_alone, lemma_says_more};

}

/// An AXI3 fault about a burst names the channel that announced it.
pub proof fn lemma_axi3_burst_fault_names_channel(f: Axi3Fault)
    ensures
        match f {
            Axi3Fault::SizeExceedsBus(c, _) => says(f.text(), "AXI3 "@, c.text()),
            Axi3Fault::ReservedLock(c) => says(f.text(), "AXI3 "@, c.text()),
            Axi3Fault::ExclusiveLength(c, _) => says(f.text(), "AXI3 "@, c.text()),
            Axi3Fault::ExclusiveTotal(c, _) => says(f.text(), "AXI3 "@, c.text()),
            Axi3Fault::ExclusiveUnaligned(c, _, _) => says(f.text(), "AXI3 "@, c.text()),
            Axi3Fault::ReservedBurst(c, _) => says(f.text(), "AXI3 "@, c.text()),
            Axi3Fault::TooManyBeats(c, beats) => says(f.text(), "AXI3 "@, c.text()) && says(
                f.text(),
                about(c),
                dec(beats),
            ),
            Axi3Fault::CrossesPage(c) => says(f.text(), "AXI3 "@, c.text()),
            Axi3Fault::WrapLength(c, _) => says(f.text(), "AXI3 "@, c.text()),
            Axi3Fault::WrapUnaligned(c, _) => says(f.text(), "AXI3 "@, c.text()),
            _ => true,
        },
{
    broadcast use {lemma_says_here, lemma_says_alone, lemma_says_more};

}

/// A stream fault names what is unstable, or the limit of a timeout.
pub proof fn lemma_stream_fault_says(f: Axi4StreamFault)
    ensures
        match f {
            Axi4StreamFault::Stability(u) => says(f.text(), "AXI4-Stream: "@, u.text()),
            Axi4StreamFault::Timeout(limit) => says(
                f.text(),
                "AXI4-Stream: no TREADY within "@,
                dec(limit),
            ),
            _ => true,
        },
{
    broadcast use {lemma_says_here, lemma_says_alone, lemma_says_more};

}

/// An AXI3 fault about a transaction names its ID and its beats.
pub proof fn lemma_axi3_order_fault_says(f: Axi3Fault)
    ensures
        match f {
            Axi3Fault::DataWithoutWrite(id) => says(f.text(), "AXI3 W: WID "@, dec(id)),
            Axi3Fault::WriteLength { id, count, expected } => says(
                f.text(),
                "AXI3 W id "@,
                dec(id),
            ) && says(f.text(), ": WLAST after "@, dec(count)) && says(
                f.text(),
                " beats, expected "@,
                dec(expected),
            ),
            Axi3Fault::DataWithoutRead(id) => says(f.text(), "AXI3 R: RID "@, dec(id)),
            Axi3Fault::ReadLength { id, count, expected } => says(f.text(), "AXI3 R id "@, dec(id))
                && says(f.text(), ": RLAST after "@, dec(count)) && says(
                f.text(),
                " beats, expected "@,
                dec(expected),
            ),
            Axi3Fault::ExokayRead(id) => says(f.text(), "AXI3 R id "@, dec(id)),
            Axi3Fault::ResponseWithoutWrite(id) => says(f.text(), "AXI3 B: BID "@, dec(id)),
            Axi3Fault::ExokayWrite(id) => says(
                f.text(),
                "AXI3 B: EXOKAY on a non-exclusive write (id "@,
                dec(id),
            ),
            _ => true,
        },
{
    broadcast use {lemma_says_here, lemma_says_alone, lemma_says_more};

}

/// A fault that a burst master reports names its ID, and a response its code.
pub proof fn lemma_master_fault_says(f: MasterFault, protocol: Seq<char>)
    ensures
        match f {
            MasterFault::WriteResponse { id, code } => says(f.text(protocol), " write id "@, dec(id))
                && says(f.text(protocol), ": response "@, dec(code)),
            MasterFault::UnexpectedB(id) => says(f.text(protocol), " B: unexpected BID "@, dec(id)),
            MasterFault::UnexpectedR(id) => says(f.text(protocol), " R: unexpected RID "@, dec(id)),
            MasterFault::LastMisaligned(id) => says(f.text(protocol), " read id "@, dec(id)),
            MasterFault::DataMismatch(id) => says(f.text(protocol), " read id "@, dec(id)),
        },
{
    broadcast use {lemma_says_here, lemma_says_alone, lemma_says_more};

}

/// A fault that an AXI4-Lite master reports names its address, with the code that came,
/// or with the data that was expected and the data that came.
pub proof fn lemma_lite_master_fault_says(f: LiteMasterFaultView)
    ensures
        match f {
            LiteMasterFaultView::WriteResponse { addr, code } => says(
                f.text(),
                "write @0x"@,
                hex(addr),
            ) && says(f.text(), ": response "@, dec(code)),
            LiteMasterFaultView::ReadMismatch { addr, want, got } => says(
                f.text(),
                "read @0x"@,
                hex(addr),
            ) && says(f.text(), ": expected "@, hex_list(want)) && says(
                f.text(),
                ", got "@,
                hex_list(got),
            ),
            _ => true,
        },
{
    broadcast use {lemma_says_here, lemma_says_alone, lemma_says_more};

}

/// A stream mismatch names the beat, what was expected and what came.
pub proof fn lemma_mismatch_says(m: StreamMismatchView)
    ensures
        says(m.text(), "stream beat "@, dec(m.beat)),
        says(m.text(), ": expected "@, hex_list(m.want)),
        says(m.text(), ", got "@, hex_list(m.got)),
{
    broadcast use {lemma_says_here, lemma_says_alone, lemma_says_more};

}

/// A refusal to build names the component, the port and its width, or the limit and the
/// IDs there are.
pub proof fn lemma_build_error_says(e: BuildError)
    ensures
        match e {
            BuildError::AddressTooWide { component, port, width } => {
                &&& says(e.text(), component@, ": "@)
                &&& says(e.text(), ": "@, port@)
                &&& says(e.text(), " width "@, dec(width as u64))
            },
            BuildError::TooFewIds { component, max, id_width, ids } => {
                &&& says(e.text(), component@, ": MAX_OUTSTANDING ("@)
                &&& says(e.text(), ": MAX_OUTSTANDING ("@, dec(max))
                &&& says(e.text(), ") exceeds the "@, dec(id_width as u64))
                &&& says(e.text(), "-bit ID space ("@, dec(ids))
            },
        },
{
    broadcast use {lemma_says_here, lemma_says_alone, lemma_says_more};

}

/// The refusal of an argument names what it is for and why, and where it does not fit
/// the width of the bus; the refusal of an image its path and line.
pub proof fn lemma_refusals_say(e: ArgError, h: HexError, path: Seq<char>)
    ensures
        match e.fault {
            ArgFault::Unknown => says(e.text(), e.what@, " contains X/Z bits"@),
            ArgFault::NotBits => says(e.text(), e.what@, " is not a bit value"@),
            ArgFault::DoesNotFit => says(e.text(), e.what@, " does not fit the "@) && says(
                e.text(),
                " does not fit the "@,
                dec(e.width as u64),
            ),
        },
        says(h.text(path), path, ":"@),
        says(h.text(path), ":"@, dec(h.line)),
{
    broadcast use {lemma_says_here, lemma_says_alone, lemma_says_more};

}

/// A latency is reported as its least, its average and its largest value.
pub proof fn lemma_latency_says(l: Latency)
    ensures
        says(latency_text(l), dec(l.min), "/"@),
        says(latency_text(l), "/"@, dec(l.average())),
        latency_text(l) == dec(l.min) + "/"@ + dec(l.average()) + "/"@ + dec(l.max),
{
    broadcast use {lemma_says_here, lemma_says_alone, lemma_says_more};

}

/// The report on a stream names the beats, the packets, the lanes and the longest stall.
pub proof fn lemma_stream_report_says(s: Axi4StreamCheckerView)
    ensures
        says(s.text(), "AXI4-Stream checker: "@, dec(s.beats)),
        says(s.text(), " beat(s), "@, dec(s.packets)),
        says(s.text(), " packet(s); keep lanes=0x"@, hex(s.keep_seen)),
        says(s.text(), ", strb lanes=0x"@, hex(s.strb_seen)),
        says(s.text(), "; max stall="@, dec(s.ch.max_stall)),
{
    broadcast use {lemma_says_here, lemma_says_alone, lemma_says_more};

}

/// The report on an AXI4-Lite bus names each of its counts.
pub proof fn lemma_lite_report_says(
    c: LiteCoverage,
    writes: u64,
    reads: u64,
    distinct: u64,
    stall: u64,
)
    ensures
        ({
            let text = c.text(writes, reads, distinct, stall);
            &&& says(text, "AXI4-Lite checker: "@, dec(writes))
            &&& says(text, " write(s), "@, dec(reads))
            &&& says(text, " read(s); resp okay="@, dec(c.resp_okay))
            &&& says(text, " slverr="@, dec(c.resp_slverr))
            &&& says(text, " decerr="@, dec(c.resp_decerr))
            &&& says(text, "; addr [0x"@, hex(c.addr_lo))
            &&& says(text, "..=0x"@, hex(c.addr_hi))
            &&& says(text, "] ("@, dec(distinct))
            &&& says(text, " distinct); strobe lanes=0x"@, hex(c.strobe_seen))
            &&& says(text, ", "@, dec(c.noop_writes))
            &&& says(text, " no-op write(s); max outstanding="@, dec(c.max_outstanding))
            &&& says(text, "; max stall="@, dec(stall))
            &&& says(text, " cyc; write latency min/avg/max="@, latency_text(c.write_lat))
            &&& says(text, "; read latency min/avg/max="@, latency_text(c.read_lat))
        }),
{
    broadcast use {lemma_says_here, lemma_says_alone, lemma_says_more};

}

/// The report on an AXI3 bus names each of its counts.
pub proof fn lemma_axi3_report_says(c: Axi3Coverage, stall: u64)
    ensures
        ({
            let text = c.text(stall);
            &&& says(text, "AXI3 checker: "@, dec(c.writes))
            &&& says(text, " write(s), "@, dec(c.reads))
            &&& says(text, " read(s), "@, dec(c.beats))
            &&& says(text, " beat(s); burst fixed="@, dec(c.fixed))
            &&& says(text, " incr="@, dec(c.incr))
            &&& says(text, " wrap="@, dec(c.wrap))
            &&& says(text, "; exclusive="@, dec(c.exclusive))
            &&& says(text, " (EXOKAY="@, dec(c.exclusive_ok))
            &&& says(text, "); resp okay="@, dec(c.resp_okay))
            &&& says(text, " slverr="@, dec(c.resp_slverr))
            &&& says(text, " decerr="@, dec(c.resp_decerr))
            &&& says(text, "; max len="@, dec(c.max_len))
            &&& says(text, "; sizes=0x"@, hex(c.sizes_seen))
            &&& says(text, "; write latency min/avg/max="@, latency_text(c.write_lat))
            &&& says(text, "; read latency min/avg/max="@, latency_text(c.read_lat))
            &&& says(text, "; max stall="@, dec(stall))
        }),
{
    broadcast use {lemma_says_here, lemma_says_alone, lemma_says_more};

}

/// A list of words is each of them in hexadecimal, with a comma and a space between, in
/// brackets.
pub proof fn lemma_list_says(words: Seq<u64>, w: u64)
    ensures
        hex_list(Seq::empty()) == seq!['[', ']'],
        hex_list(seq![w]) == seq!['['] + hex(w) + seq![']'],
        words.len() > 0 ==> hex_list(words.push(w)) == hex_list(words).drop_last() + seq![',', ' ']
            + hex(w) + seq![']'],
{
    reveal_strlit("[");
    reveal_strlit("]");
    reveal_strlit(", ");
    assert("["@ =~= seq!['[']);
    assert("]"@ =~= seq![']']);
    assert(", "@ =~= seq![',', ' ']);
    assert(hex_list(Seq::empty()) =~= seq!['[', ']']);
    assert(hex_list(seq![w]) =~= seq!['['] + hex(w) + seq![']']);
    assert(words.push(w).drop_last() =~= words);
    if words.len() > 0 {
        assert(hex_list(words.push(w)) =~= hex_list(words).drop_last() + seq![',', ' '] + hex(w)
            + seq![']']);
    }
}

} // verus!
