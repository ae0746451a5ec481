//! The AXI3 rules for the address phase of a burst.

use crate::axi3::fault::Axi3Fault;
use crate::axi4::burst::{beat, INCR};
use crate::common::lanes::{aligned, lemma_aligned_is_rounding, lemma_shift_is_pow2};
use crate::common::monitor::Chan;
use crate::common::report::{only_if, report};
use vstd::arithmetic::power2::is_pow2;
use vstd::prelude::*;

verus! {

/// The attributes a master announces a burst with.
#[derive(Clone, Copy, Debug, PartialEq, Eq, Structural)]
pub struct Announced {
    pub addr: u64,
    pub len: u64,
    pub size: u64,
    pub kind: u64,
    pub lock: u64,
}

impl Announced {
    /// The width of a beat in bytes.
    pub open spec fn bytes(self) -> u64 {
        1u64 << self.size
    }

    /// The number of bytes of the whole burst.
    pub open spec fn total(self) -> int {
        (self.len + 1) * self.bytes()
    }

    /// Whether the sizes that the rules speak of can be computed in 64 bits.
    pub open spec fn fits(self) -> bool {
        &&& self.size < 64
        &&& self.len < u64::MAX
        &&& self.lock == 1 || self.kind == 1 ==> self.total() <= u64::MAX
    }

    /// The address of the last byte, capped at the end of the address space.
    pub open spec fn last_byte(self) -> int {
        if self.addr + self.total() > u64::MAX {
            u64::MAX - 1
        } else {
            self.addr + self.total() - 1
        }
    }

    /// The rules that a burst announced on channel `c` breaks, on a bus with
    /// `lanes` byte lanes.
    pub open spec fn faults(self, c: Chan, lanes: u64) -> Seq<Axi3Fault> {
        let beats = (self.len + 1) as u64;
        let exclusive = self.lock == 1;
        let total = self.total();
        only_if(self.bytes() > lanes, Axi3Fault::SizeExceedsBus(c, self.bytes())) + only_if(
            self.lock == 3,
            Axi3Fault::ReservedLock(c),
        ) + only_if(
            exclusive && !(beats == 1 || beats == 2 || beats == 4 || beats == 8 || beats == 16),
            Axi3Fault::ExclusiveLength(c, beats),
        ) + only_if(exclusive && total > 128, Axi3Fault::ExclusiveTotal(c, total as u64)) + only_if(
            exclusive && is_pow2(total) && self.addr as int % total != 0,
            Axi3Fault::ExclusiveUnaligned(c, self.addr, total as u64),
        ) + only_if(self.kind > 2, Axi3Fault::ReservedBurst(c, self.kind)) + only_if(
            beats > 16,
            Axi3Fault::TooManyBeats(c, beats),
        ) + only_if(
            self.kind == 1 && self.addr as int / 4096 != self.last_byte() / 4096,
            Axi3Fault::CrossesPage(c),
        ) + only_if(
            self.kind == 2 && !(beats == 2 || beats == 4 || beats == 8 || beats == 16),
            Axi3Fault::WrapLength(c, beats),
        ) + only_if(
            self.kind == 2 && self.addr % self.bytes() != 0,
            Axi3Fault::WrapUnaligned(c, self.addr),
        )
    }

    /// Whether the rules can be applied in 64 bits.
    pub fn in_range(&self) -> (r: bool)
        ensures
            r == self.fits(),
    {
        if self.size >= 64 || self.len == u64::MAX {
            return false;
        }
        if self.lock == 1 || self.kind == 1 {
            proof {
                lemma_shift_is_pow2(self.size);
            }
            (self.len + 1).checked_mul(1u64 << self.size).is_some()
        } else {
            true
        }
    }

    /// Holds an announced burst to the rules.
    pub fn check_burst(&self, c: Chan, lanes: u64) -> (r: Vec<Axi3Fault>)
        requires
            self.fits(),
        ensures
            r@ == self.faults(c, lanes),
    {
        proof {
            lemma_shift_is_pow2(self.size);
        }
        let bytes: u64 = 1u64 << self.size;
        let beats: u64 = self.len + 1;
        let exclusive = self.lock == 1;
        assert(self.total() >= 1) by (nonlinear_arith)
            requires
                self.total() == (self.len + 1) * bytes,
                bytes >= 1,
        ;
        let total: u64 = if self.lock == 1 || self.kind == 1 {
            beats * bytes
        } else {
            1
        };
        let end: u64 = self.addr.saturating_add(total);
        let mut f: Vec<Axi3Fault> = Vec::new();
        report(&mut f, bytes > lanes, Axi3Fault::SizeExceedsBus(c, bytes));
        report(&mut f, self.lock == 3, Axi3Fault::ReservedLock(c));
        report(
            &mut f,
            exclusive && !(beats == 1 || beats == 2 || beats == 4 || beats == 8 || beats == 16),
            Axi3Fault::ExclusiveLength(c, beats),
        );
        report(&mut f, exclusive && total > 128, Axi3Fault::ExclusiveTotal(c, total));
        report(
            &mut f,
            exclusive && power_of_two(total) && self.addr % total != 0,
            Axi3Fault::ExclusiveUnaligned(c, self.addr, total),
        );
        report(&mut f, self.kind > 2, Axi3Fault::ReservedBurst(c, self.kind));
        report(&mut f, beats > 16, Axi3Fault::TooManyBeats(c, beats));
        report(
            &mut f,
            self.kind == 1 && self.addr / 4096 != (end - 1) / 4096,
            Axi3Fault::CrossesPage(c),
        );
        report(
            &mut f,
            self.kind == 2 && !(beats == 2 || beats == 4 || beats == 8 || beats == 16),
            Axi3Fault::WrapLength(c, beats),
        );
        report(
            &mut f,
            self.kind == 2 && self.addr % bytes != 0,
            Axi3Fault::WrapUnaligned(c, self.addr),
        );
        assert(f@ =~= self.faults(c, lanes));
        f
    }
}

/// Whether `n` is a power of two.
pub fn power_of_two(n: u64) -> (r: bool)
    ensures
        r == is_pow2(n as int),
{
    reveal(is_pow2);
    let mut m: u64 = n;
    while m > 1 && m % 2 == 0
        invariant
            is_pow2(m as int) == is_pow2(n as int),
        decreases m,
    {
        reveal(is_pow2);
        m = m / 2;
    }
    m == 1
}

/// An incrementing burst within the address space that is not faulted keeps
/// every beat within the 4 KiB page of its start address.
pub proof fn lemma_legal_incr_stays_in_page(a: Announced, c: Chan, lanes: u64, n: u64)
    requires
        a.fits(),
        a.kind == INCR,
        a.addr + a.total() <= u64::MAX + 1,
        !a.faults(c, lanes).contains(Axi3Fault::CrossesPage(c)),
        n <= a.len,
    ensures
        beat(a.addr, a.bytes(), INCR, a.len, n) / 4096 == a.addr as int / 4096,
{
    let fault = Axi3Fault::CrossesPage(c);
    let crosses = a.addr as int / 4096 != a.last_byte() / 4096;
    if crosses {
        lemma_faults_name_the_page(a, c, lanes);
    }
    let bytes = a.bytes();
    lemma_shift_is_pow2(a.size);
    let total = a.total();
    assert(total >= bytes && n * bytes + bytes <= total && n * bytes >= 0) by (nonlinear_arith)
        requires
            total == (a.len + 1) * bytes,
            0 <= n <= a.len,
            bytes >= 1,
    ;
    let first = aligned(a.addr, bytes);
    lemma_aligned_is_rounding(a.addr, bytes, a.size as nat);
    assert(total <= 4096);
    assert(a.size <= 12) by {
        if a.size > 12 {
            vstd::arithmetic::power2::lemma_pow2_strictly_increases(12, a.size as nat);
            vstd::arithmetic::power2::lemma2_to64();
        }
    }
    let s = a.size;
    let x = a.addr;
    let b = bytes;
    assert((x - x % b) / 4096 == x as int / 4096) by {
        vstd::arithmetic::power2::lemma_pow2_adds(s as nat, (12 - s) as nat);
        vstd::arithmetic::power2::lemma2_to64();
        let k = vstd::arithmetic::power2::pow2((12 - s) as nat);
        assert(b * k == 4096);
        lemma_round_down_keeps_page(x as int, b as int, k as int);
    }
}

/// Rounding down to a divisor of 4096 stays in the page.
proof fn lemma_round_down_keeps_page(x: int, b: int, k: int)
    requires
        x >= 0,
        b > 0,
        b * k == 4096,
    ensures
        (x - x % b) / 4096 == x / 4096,
{
    let q = x / 4096;
    let r = x % 4096;
    assert(x == 4096 * q + r);
    assert(k > 0) by (nonlinear_arith)
        requires
            b > 0,
            b * k == 4096,
    ;
    vstd::arithmetic::div_mod::lemma_mod_multiples_vanish(k * q, r, b);
    assert(b * (k * q) == (b * k) * q) by (nonlinear_arith);
    assert(x % b == r % b);
    vstd::arithmetic::div_mod::lemma_mod_decreases(r as nat, b as nat);
    assert(r - r % b >= 0);
    assert(0 <= r % b <= r) by {
        vstd::arithmetic::div_mod::lemma_mod_bound(r, b);
    }
}

proof fn lemma_faults_name_the_page(a: Announced, c: Chan, lanes: u64)
    requires
        a.kind == 1,
        a.addr as int / 4096 != a.last_byte() / 4096,
    ensures
        a.faults(c, lanes).contains(Axi3Fault::CrossesPage(c)),
{
    let beats = (a.len + 1) as u64;
    let exclusive = a.lock == 1;
    let total = a.total();
    let before = only_if(a.bytes() > lanes, Axi3Fault::SizeExceedsBus(c, a.bytes())) + only_if(
        a.lock == 3,
        Axi3Fault::ReservedLock(c),
    ) + only_if(
        exclusive && !(beats == 1 || beats == 2 || beats == 4 || beats == 8 || beats == 16),
        Axi3Fault::ExclusiveLength(c, beats),
    ) + only_if(exclusive && total > 128, Axi3Fault::ExclusiveTotal(c, total as u64)) + only_if(
        exclusive && is_pow2(total) && a.addr as int % total != 0,
        Axi3Fault::ExclusiveUnaligned(c, a.addr, total as u64),
    ) + only_if(a.kind > 2, Axi3Fault::ReservedBurst(c, a.kind)) + only_if(
        beats > 16,
        Axi3Fault::TooManyBeats(c, beats),
    );
    assert(a.faults(c, lanes)[before.len() as int] == Axi3Fault::CrossesPage(c));
}

} // verus!
