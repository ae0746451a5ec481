//! What the AXI3 checker has seen.

use crate::axi3::rules::Announced;
use crate::common::counting::{bump, bumped, larger, max_of};
use crate::common::latency::{latency_text, push_latency, Latency};
use crate::common::resp::{DECERR, OKAY, SLVERR};
use crate::text::{dec, hex, push_dec, push_hex};
use vstd::prelude::*;
use vstd::string::*;

verus! {

/// The counts reported at the end of a test.
#[derive(Clone, Copy, Debug, PartialEq, Eq)]
pub struct Axi3Coverage {
    pub writes: u64,
    pub reads: u64,
    pub beats: u64,
    pub max_len: u64,
    pub fixed: u64,
    pub incr: u64,
    pub wrap: u64,
    /// A set bit for each `AxSIZE` seen.
    pub sizes_seen: u64,
    pub exclusive: u64,
    pub exclusive_ok: u64,
    pub resp_okay: u64,
    pub resp_slverr: u64,
    pub resp_decerr: u64,
    pub write_lat: Latency,
    pub read_lat: Latency,
}

impl Axi3Coverage {
    /// Nothing seen.
    pub open spec fn empty() -> Axi3Coverage {
        Axi3Coverage {
            writes: 0,
            reads: 0,
            beats: 0,
            max_len: 0,
            fixed: 0,
            incr: 0,
            wrap: 0,
            sizes_seen: 0,
            exclusive: 0,
            exclusive_ok: 0,
            resp_okay: 0,
            resp_slverr: 0,
            resp_decerr: 0,
            write_lat: Latency::empty(),
            read_lat: Latency::empty(),
        }
    }

    /// Whether an announced burst can be counted.
    pub open spec fn takes_burst(self, a: Announced) -> bool {
        &&& a.lock == 1 ==> self.exclusive < u64::MAX
        &&& a.kind == 0 ==> self.fixed < u64::MAX
        &&& a.kind == 1 ==> self.incr < u64::MAX
        &&& a.kind == 2 ==> self.wrap < u64::MAX
    }

    /// Whether a response can be counted.
    pub open spec fn takes_resp(self, code: u64) -> bool {
        &&& code == OKAY ==> self.resp_okay < u64::MAX
        &&& code == SLVERR ==> self.resp_slverr < u64::MAX
        &&& code == DECERR ==> self.resp_decerr < u64::MAX
    }

    /// After a burst was announced. A reserved burst type is not counted.
    pub open spec fn with_burst(self, a: Announced) -> Axi3Coverage {
        Axi3Coverage {
            exclusive: bumped(self.exclusive, a.lock == 1),
            fixed: bumped(self.fixed, a.kind == 0),
            incr: bumped(self.incr, a.kind == 1),
            wrap: bumped(self.wrap, a.kind == 2),
            sizes_seen: self.sizes_seen | (1u64 << a.size),
            max_len: larger(self.max_len, a.len),
            ..self
        }
    }

    /// After a response. EXOKAY is counted with the exclusive accesses.
    pub open spec fn with_resp(self, code: u64) -> Axi3Coverage {
        Axi3Coverage {
            resp_okay: bumped(self.resp_okay, code == OKAY),
            resp_slverr: bumped(self.resp_slverr, code == SLVERR),
            resp_decerr: bumped(self.resp_decerr, code == DECERR),
            ..self
        }
    }

    /// The report.
    pub open spec fn text(self, max_stall: u64) -> Seq<char> {
        "AXI3 checker: "@ + dec(self.writes) + " write(s), "@ + dec(self.reads) + " read(s), "@
            + dec(self.beats) + " beat(s); burst fixed="@ + dec(self.fixed) + " incr="@ + dec(
            self.incr,
        ) + " wrap="@ + dec(self.wrap) + "; exclusive="@ + dec(self.exclusive) + " (EXOKAY="@
            + dec(self.exclusive_ok) + "); resp okay="@ + dec(self.resp_okay) + " slverr="@ + dec(
            self.resp_slverr,
        ) + " decerr="@ + dec(self.resp_decerr) + "; max len="@ + dec(self.max_len)
            + "; sizes=0x"@ + hex(self.sizes_seen) + "; write latency min/avg/max="@
            + latency_text(self.write_lat) + "; read latency min/avg/max="@ + latency_text(
            self.read_lat,
        ) + "; max stall="@ + dec(max_stall) + " cyc"@
    }

    /// Nothing seen.
    pub fn new() -> (r: Axi3Coverage)
        ensures
            r == Axi3Coverage::empty(),
    {
        Axi3Coverage {
            writes: 0,
            reads: 0,
            beats: 0,
            max_len: 0,
            fixed: 0,
            incr: 0,
            wrap: 0,
            sizes_seen: 0,
            exclusive: 0,
            exclusive_ok: 0,
            resp_okay: 0,
            resp_slverr: 0,
            resp_decerr: 0,
            write_lat: Latency::new(),
            read_lat: Latency::new(),
        }
    }

    /// Whether an announced burst can be counted.
    pub fn burst_in_range(&self, a: &Announced) -> (r: bool)
        ensures
            r == self.takes_burst(*a),
    {
        (a.lock != 1 || self.exclusive < u64::MAX) && (a.kind != 0 || self.fixed < u64::MAX) && (
        a.kind != 1 || self.incr < u64::MAX) && (a.kind != 2 || self.wrap < u64::MAX)
    }

    /// Whether a response can be counted.
    pub fn resp_in_range(&self, code: u64) -> (r: bool)
        ensures
            r == self.takes_resp(code),
    {
        (code != OKAY || self.resp_okay < u64::MAX) && (code != SLVERR || self.resp_slverr
            < u64::MAX) && (code != DECERR || self.resp_decerr < u64::MAX)
    }

    /// Counts an announced burst.
    pub fn note_burst(&mut self, a: &Announced)
        requires
            old(self).takes_burst(*a),
            a.size < 64,
        ensures
            *final(self) == old(self).with_burst(*a),
    {
        self.exclusive = bump(self.exclusive, a.lock == 1);
        self.fixed = bump(self.fixed, a.kind == 0);
        self.incr = bump(self.incr, a.kind == 1);
        self.wrap = bump(self.wrap, a.kind == 2);
        self.sizes_seen = self.sizes_seen | (1u64 << a.size);
        self.max_len = max_of(self.max_len, a.len);
    }

    /// Counts a response.
    pub fn note_resp(&mut self, code: u64)
        requires
            old(self).takes_resp(code),
        ensures
            *final(self) == old(self).with_resp(code),
    {
        self.resp_okay = bump(self.resp_okay, code == OKAY);
        self.resp_slverr = bump(self.resp_slverr, code == SLVERR);
        self.resp_decerr = bump(self.resp_decerr, code == DECERR);
    }

    /// The report, with the longest stall of any channel.
    pub fn summary(&self, max_stall: u64) -> (r: String)
        ensures
            r@ == self.text(max_stall),
    {
        let mut r = String::new();
        r.append("AXI3 checker: ");
        push_dec(&mut r, self.writes);
        r.append(" write(s), ");
        push_dec(&mut r, self.reads);
        r.append(" read(s), ");
        push_dec(&mut r, self.beats);
        r.append(" beat(s); burst fixed=");
        push_dec(&mut r, self.fixed);
        r.append(" incr=");
        push_dec(&mut r, self.incr);
        r.append(" wrap=");
        push_dec(&mut r, self.wrap);
        r.append("; exclusive=");
        push_dec(&mut r, self.exclusive);
        r.append(" (EXOKAY=");
        push_dec(&mut r, self.exclusive_ok);
        r.append("); resp okay=");
        push_dec(&mut r, self.resp_okay);
        r.append(" slverr=");
        push_dec(&mut r, self.resp_slverr);
        r.append(" decerr=");
        push_dec(&mut r, self.resp_decerr);
        r.append("; max len=");
        push_dec(&mut r, self.max_len);
        r.append("; sizes=0x");
        push_hex(&mut r, self.sizes_seen);
        r.append("; write latency min/avg/max=");
        push_latency(&mut r, &self.write_lat);
        r.append("; read latency min/avg/max=");
        push_latency(&mut r, &self.read_lat);
        r.append("; max stall=");
        push_dec(&mut r, max_stall);
        r.append(" cyc");
        assert(r@ =~= self.text(max_stall));
        r
    }
}

} // verus!
