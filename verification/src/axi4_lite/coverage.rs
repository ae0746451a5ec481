//! What the AXI4-Lite checker has seen.

use crate::common::counting::{bump, bumped, larger, max_of};
use crate::common::latency::{latency_text, push_latency, Latency};
use crate::common::resp::{DECERR, OKAY, SLVERR};
use crate::text::{dec, hex, push_dec, push_hex};
use vstd::prelude::*;
use vstd::string::*;

verus! {

/// The counts reported at the end of a test, but for the transactions and
/// the addresses themselves.
#[derive(Clone, Copy, Debug, PartialEq, Eq)]
pub struct LiteCoverage {
    pub resp_okay: u64,
    pub resp_slverr: u64,
    pub resp_decerr: u64,
    pub addr_lo: u64,
    pub addr_hi: u64,
    pub seen_addr: bool,
    /// A set bit for each strobe lane that was active.
    pub strobe_seen: u64,
    pub noop_writes: u64,
    pub max_outstanding: u64,
    pub write_lat: Latency,
    pub read_lat: Latency,
}

impl LiteCoverage {
    /// Nothing seen.
    pub open spec fn empty() -> LiteCoverage {
        LiteCoverage {
            resp_okay: 0,
            resp_slverr: 0,
            resp_decerr: 0,
            addr_lo: 0,
            addr_hi: 0,
            seen_addr: false,
            strobe_seen: 0,
            noop_writes: 0,
            max_outstanding: 0,
            write_lat: Latency::empty(),
            read_lat: Latency::empty(),
        }
    }

    /// Whether a response can be counted.
    pub open spec fn takes_resp(self, code: u64) -> bool {
        &&& code == OKAY ==> self.resp_okay < u64::MAX
        &&& code == SLVERR ==> self.resp_slverr < u64::MAX
        &&& code == DECERR ==> self.resp_decerr < u64::MAX
    }

    /// Whether write data with these lanes active can be counted.
    pub open spec fn takes_strobe(self, lanes: u64) -> bool {
        lanes == 0 ==> self.noop_writes < u64::MAX
    }

    /// After an address.
    pub open spec fn with_addr(self, addr: u64) -> LiteCoverage {
        LiteCoverage {
            addr_lo: if self.seen_addr && self.addr_lo < addr {
                self.addr_lo
            } else {
                addr
            },
            addr_hi: if self.seen_addr && self.addr_hi > addr {
                self.addr_hi
            } else {
                addr
            },
            seen_addr: true,
            ..self
        }
    }

    /// After a response.
    pub open spec fn with_resp(self, code: u64) -> LiteCoverage {
        LiteCoverage {
            resp_okay: bumped(self.resp_okay, code == OKAY),
            resp_slverr: bumped(self.resp_slverr, code == SLVERR),
            resp_decerr: bumped(self.resp_decerr, code == DECERR),
            ..self
        }
    }

    /// After write data with these lanes active.
    pub open spec fn with_strobe(self, lanes: u64) -> LiteCoverage {
        LiteCoverage {
            strobe_seen: self.strobe_seen | lanes,
            noop_writes: bumped(self.noop_writes, lanes == 0),
            ..self
        }
    }

    /// After a cycle with this many transactions outstanding.
    pub open spec fn with_outstanding(self, n: u64) -> LiteCoverage {
        LiteCoverage { max_outstanding: larger(self.max_outstanding, n), ..self }
    }

    /// The report of this many writes and reads to so many distinct
    /// addresses.
    pub open spec fn text(self, writes: u64, reads: u64, distinct: u64, max_stall: u64) -> Seq<
        char,
    > {
        "AXI4-Lite checker: "@ + dec(writes) + " write(s), "@ + dec(reads)
            + " read(s); resp okay="@ + dec(self.resp_okay) + " slverr="@ + dec(self.resp_slverr)
            + " decerr="@ + dec(self.resp_decerr) + "; addr [0x"@ + hex(self.addr_lo) + "..=0x"@
            + hex(self.addr_hi) + "] ("@ + dec(distinct) + " distinct); strobe lanes=0x"@ + hex(
            self.strobe_seen,
        ) + ", "@ + dec(self.noop_writes) + " no-op write(s); max outstanding="@ + dec(
            self.max_outstanding,
        ) + "; max stall="@ + dec(max_stall) + " cyc; write latency min/avg/max="@
            + latency_text(self.write_lat) + "; read latency min/avg/max="@ + latency_text(
            self.read_lat,
        )
    }

    /// Nothing seen.
    pub fn new() -> (r: LiteCoverage)
        ensures
            r == LiteCoverage::empty(),
    {
        LiteCoverage {
            resp_okay: 0,
            resp_slverr: 0,
            resp_decerr: 0,
            addr_lo: 0,
            addr_hi: 0,
            seen_addr: false,
            strobe_seen: 0,
            noop_writes: 0,
            max_outstanding: 0,
            write_lat: Latency::new(),
            read_lat: Latency::new(),
        }
    }

    /// Whether a response can be counted.
    pub fn resp_in_range(&self, code: u64) -> (r: bool)
        ensures
            r == self.takes_resp(code),
    {
        (code != OKAY || self.resp_okay < u64::MAX) && (code != SLVERR || self.resp_slverr
            < u64::MAX) && (code != DECERR || self.resp_decerr < u64::MAX)
    }

    /// Notes an address.
    pub fn note_addr(&mut self, addr: u64)
        ensures
            *final(self) == old(self).with_addr(addr),
    {
        if self.seen_addr {
            if addr <= self.addr_lo {
                self.addr_lo = addr;
            }
            if addr >= self.addr_hi {
                self.addr_hi = addr;
            }
        } else {
            self.addr_lo = addr;
            self.addr_hi = addr;
            self.seen_addr = true;
        }
    }

    /// Counts a response.
    pub fn note_resp(&mut self, code: u64)
        requires
            old(self).takes_resp(code),
        ensures
            *final(self) == old(self).with_resp(code),
    {
        self.resp_okay = bump(self.resp_okay, code == OKAY);
        self.resp_slverr = bump(self.resp_slverr, code == SLVERR);
        self.resp_decerr = bump(self.resp_decerr, code == DECERR);
    }

    /// Notes the active lanes of write data.
    pub fn note_strobe(&mut self, lanes: u64)
        requires
            old(self).takes_strobe(lanes),
        ensures
            *final(self) == old(self).with_strobe(lanes),
    {
        self.strobe_seen = self.strobe_seen | lanes;
        self.noop_writes = bump(self.noop_writes, lanes == 0);
    }

    /// Notes how many transactions are outstanding.
    pub fn note_outstanding(&mut self, n: u64)
        ensures
            *final(self) == old(self).with_outstanding(n),
    {
        self.max_outstanding = max_of(self.max_outstanding, n);
    }

    /// The report.
    pub fn summary(&self, writes: u64, reads: u64, distinct: u64, max_stall: u64) -> (r: String)
        ensures
            r@ == self.text(writes, reads, distinct, max_stall),
    {
        let mut r = String::new();
        r.append("AXI4-Lite checker: ");
        push_dec(&mut r, writes);
        r.append(" write(s), ");
        push_dec(&mut r, reads);
        r.append(" read(s); resp okay=");
        push_dec(&mut r, self.resp_okay);
        r.append(" slverr=");
        push_dec(&mut r, self.resp_slverr);
        r.append(" decerr=");
        push_dec(&mut r, self.resp_decerr);
        r.append("; addr [0x");
        push_hex(&mut r, self.addr_lo);
        r.append("..=0x");
        push_hex(&mut r, self.addr_hi);
        r.append("] (");
        push_dec(&mut r, distinct);
        r.append(" distinct); strobe lanes=0x");
        push_hex(&mut r, self.strobe_seen);
        r.append(", ");
        push_dec(&mut r, self.noop_writes);
        r.append(" no-op write(s); max outstanding=");
        push_dec(&mut r, self.max_outstanding);
        r.append("; max stall=");
        push_dec(&mut r, max_stall);
        r.append(" cyc; write latency min/avg/max=");
        push_latency(&mut r, &self.write_lat);
        r.append("; read latency min/avg/max=");
        push_latency(&mut r, &self.read_lat);
        assert(r@ =~= self.text(writes, reads, distinct, max_stall));
        r
    }
}

} // verus!
