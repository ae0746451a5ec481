//! In which order the faults of a cycle are reported.

use crate::axi3::checker::{Axi3CheckerView, Axi3MonitorPorts};
use crate::axi3::fault::Axi3Fault;
use crate::axi3::rules::Announced;
use crate::axi4_lite::checker::{Axi4LiteCheckerView, Axi4LiteMonitorPorts};
use crate::axi4_lite::fault::Axi4LiteFault;
use crate::axi4_stream::checker::{Axi4StreamCheckerView, Axi4StreamFault, AxiStreamMonitorPorts};
use crate::common::channel::Unstable;
use crate::common::counting::past;
use crate::common::lanes::{aligned, lane_count};
use crate::common::monitor::{
    high_in_reset, unknown_lines, unknown_payloads, unsteady, Chan, LanesView, LineFault,
    MonitorView, Wire,
};
use crate::common::report::only_if;
use crate::common::resp::EXOKAY;
use vstd::arithmetic::power2::is_pow2;
use vstd::prelude::*;

verus! {

/// A fault with a place among the faults of a cycle.
pub trait Placed: Sized {
    /// Its place.
    spec fn place(self) -> int;
}

/// Whether faults come in the order of their places, no two of them in the same, and
/// all of them from `from` up to, but not at, `to`.
#[verifier::opaque]
pub open spec fn in_order<F: Placed>(faults: Seq<F>, from: int, to: int) -> bool {
    &&& forall|i: int| 0 <= i < faults.len() ==> from <= (#[trigger] faults[i]).place() < to
    &&& forall|i: int, j: int|
        0 <= i < j < faults.len() ==> (#[trigger] faults[i]).place() < (
        #[trigger] faults[j]).place()
}

/// Faults in order followed by later ones in order are in order.
pub proof fn lemma_in_order_together<F: Placed>(a: Seq<F>, b: Seq<F>, from: int, mid: int, to: int)
    requires
        in_order(a, from, mid),
        in_order(b, mid, to),
        from <= mid <= to,
    ensures
        in_order(a + b, from, to),
{
    reveal(in_order);
    let all = a + b;
    assert forall|i: int| 0 <= i < all.len() implies from <= (#[trigger] all[i]).place() < to by {
        if i < a.len() {
            assert(all[i] == a[i]);
        } else {
            assert(all[i] == b[i - a.len()]);
        }
    }
    assert forall|i: int, j: int| 0 <= i < j < all.len() implies (#[trigger] all[i]).place() < (
    #[trigger] all[j]).place() by {
        if j < a.len() {
            assert(all[i] == a[i] && all[j] == a[j]);
        } else if i >= a.len() {
            assert(all[i] == b[i - a.len()] && all[j] == b[j - a.len()]);
        } else {
            assert(all[i] == a[i] && all[j] == b[j - a.len()]);
        }
    }
}

/// One fault, or none, is in order.
pub proof fn lemma_in_order_one<F: Placed>(c: bool, f: F, from: int, to: int)
    requires
        c ==> from <= f.place() < to,
    ensures
        in_order(only_if(c, f), from, to),
{
    reveal(in_order);
}

/// No fault is in order.
pub proof fn lemma_in_order_none<F: Placed>(from: int, to: int)
    ensures
        in_order(Seq::<F>::empty(), from, to),
{
    reveal(in_order);
}

/// The place of a channel.
pub open spec fn channel_place(c: Chan) -> int {
    match c {
        Chan::Aw => 0,
        Chan::W => 2,
        Chan::B => 4,
        Chan::Ar => 6,
        Chan::R => 8,
    }
}

impl Placed for LineFault {
    open spec fn place(self) -> int {
        match self {
            LineFault::HighInReset(Wire::Valid(c)) => channel_place(c),
            LineFault::HighInReset(Wire::Ready(c)) => channel_place(c) + 1,
            LineFault::UnknownPayload(c) => 10 + channel_place(c),
            LineFault::Unsteady(c, _) => 20 + channel_place(c),
            LineFault::Unknown(Wire::Valid(c)) => 30 + channel_place(c),
            LineFault::Unknown(Wire::Ready(c)) => 30 + channel_place(c) + 1,
            LineFault::Timeout(c, _) => 40 + channel_place(c),
        }
    }
}

proof fn lemma_five_in_order(
    a: Seq<LineFault>,
    b: Seq<LineFault>,
    c: Seq<LineFault>,
    d: Seq<LineFault>,
    e: Seq<LineFault>,
    k: int,
)
    requires
        in_order(a, k, k + 2),
        in_order(b, k + 2, k + 4),
        in_order(c, k + 4, k + 6),
        in_order(d, k + 6, k + 8),
        in_order(e, k + 8, k + 10),
    ensures
        in_order(a + b + c + d + e, k, k + 10),
{
    lemma_in_order_together(a, b, k, k + 2, k + 4);
    lemma_in_order_together(a + b, c, k, k + 4, k + 6);
    lemma_in_order_together(a + b + c, d, k, k + 6, k + 8);
    lemma_in_order_together(a + b + c + d, e, k, k + 8, k + 10);
}

/// VALID lines that are high in reset come in the order of the channels.
pub proof fn lemma_reset_faults_in_order(l: LanesView)
    ensures
        in_order(high_in_reset(l), 0, 10),
{
    let c0 = l.aw.valid.truth();
    let f0 = LineFault::HighInReset(Wire::Valid(Chan::Aw));
    lemma_in_order_one(c0, f0, 0, 2);
    let c1 = l.w.valid.truth();
    let f1 = LineFault::HighInReset(Wire::Valid(Chan::W));
    lemma_in_order_one(c1, f1, 2, 4);
    let c2 = l.b.valid.truth();
    let f2 = LineFault::HighInReset(Wire::Valid(Chan::B));
    lemma_in_order_one(c2, f2, 4, 6);
    let c3 = l.ar.valid.truth();
    let f3 = LineFault::HighInReset(Wire::Valid(Chan::Ar));
    lemma_in_order_one(c3, f3, 6, 8);
    let c4 = l.r.valid.truth();
    let f4 = LineFault::HighInReset(Wire::Valid(Chan::R));
    lemma_in_order_one(c4, f4, 8, 10);
    lemma_five_in_order(
        only_if(c0, f0),
        only_if(c1, f1),
        only_if(c2, f2),
        only_if(c3, f3),
        only_if(c4, f4),
        0,
    );
}

/// X or Z payloads come in the order of the channels.
pub proof fn lemma_unknown_payloads_in_order(l: LanesView)
    ensures
        in_order(unknown_payloads(l), 10, 20),
{
    let c0 = l.aw.valid.high() && l.aw.unknown_payload();
    let f0 = LineFault::UnknownPayload(Chan::Aw);
    lemma_in_order_one(c0, f0, 10, 12);
    let c1 = l.w.valid.high() && l.w.unknown_payload();
    let f1 = LineFault::UnknownPayload(Chan::W);
    lemma_in_order_one(c1, f1, 12, 14);
    let c2 = l.b.valid.high() && l.b.unknown_payload();
    let f2 = LineFault::UnknownPayload(Chan::B);
    lemma_in_order_one(c2, f2, 14, 16);
    let c3 = l.ar.valid.high() && l.ar.unknown_payload();
    let f3 = LineFault::UnknownPayload(Chan::Ar);
    lemma_in_order_one(c3, f3, 16, 18);
    let c4 = l.r.valid.high() && l.r.unknown_payload();
    let f4 = LineFault::UnknownPayload(Chan::R);
    lemma_in_order_one(c4, f4, 18, 20);
    lemma_five_in_order(
        only_if(c0, f0),
        only_if(c1, f1),
        only_if(c2, f2),
        only_if(c3, f3),
        only_if(c4, f4),
        10,
    );
}

proof fn lemma_unsteady_in_order(c: Chan, violation: Option<Unstable>, k: int)
    requires
        k == 20 + channel_place(c),
    ensures
        in_order(unsteady(c, violation), k, k + 2),
{
    reveal(in_order);
}

/// Unsteady channels come in their order.
pub proof fn lemma_violations_in_order(m: MonitorView, l: LanesView)
    ensures
        in_order(m.violations(l), 20, 30),
{
    let v0 = m.aw.violation(l.aw.valid.high(), l.aw.payload);
    lemma_unsteady_in_order(Chan::Aw, v0, 20);
    let v1 = m.w.violation(l.w.valid.high(), l.w.payload);
    lemma_unsteady_in_order(Chan::W, v1, 22);
    let v2 = m.b.violation(l.b.valid.high(), l.b.payload);
    lemma_unsteady_in_order(Chan::B, v2, 24);
    let v3 = m.ar.violation(l.ar.valid.high(), l.ar.payload);
    lemma_unsteady_in_order(Chan::Ar, v3, 26);
    let v4 = m.r.violation(l.r.valid.high(), l.r.payload);
    lemma_unsteady_in_order(Chan::R, v4, 28);
    lemma_five_in_order(
        unsteady(Chan::Aw, v0),
        unsteady(Chan::W, v1),
        unsteady(Chan::B, v2),
        unsteady(Chan::Ar, v3),
        unsteady(Chan::R, v4),
        20,
    );
}

/// X or Z lines come in the order of the channels, VALID before READY.
pub proof fn lemma_unknown_lines_in_order(l: LanesView)
    ensures
        in_order(unknown_lines(l), 30, 40),
{
    let c0 = l.aw.valid.unknown();
    let f0 = LineFault::Unknown(Wire::Valid(Chan::Aw));
    lemma_in_order_one(c0, f0, 30, 31);
    let c1 = l.aw.ready.unknown();
    let f1 = LineFault::Unknown(Wire::Ready(Chan::Aw));
    lemma_in_order_one(c1, f1, 31, 32);
    let c2 = l.w.valid.unknown();
    let f2 = LineFault::Unknown(Wire::Valid(Chan::W));
    lemma_in_order_one(c2, f2, 32, 33);
    let c3 = l.w.ready.unknown();
    let f3 = LineFault::Unknown(Wire::Ready(Chan::W));
    lemma_in_order_one(c3, f3, 33, 34);
    let c4 = l.b.valid.unknown();
    let f4 = LineFault::Unknown(Wire::Valid(Chan::B));
    lemma_in_order_one(c4, f4, 34, 35);
    let c5 = l.b.ready.unknown();
    let f5 = LineFault::Unknown(Wire::Ready(Chan::B));
    lemma_in_order_one(c5, f5, 35, 36);
    let c6 = l.ar.valid.unknown();
    let f6 = LineFault::Unknown(Wire::Valid(Chan::Ar));
    lemma_in_order_one(c6, f6, 36, 37);
    let c7 = l.ar.ready.unknown();
    let f7 = LineFault::Unknown(Wire::Ready(Chan::Ar));
    lemma_in_order_one(c7, f7, 37, 38);
    let c8 = l.r.valid.unknown();
    let f8 = LineFault::Unknown(Wire::Valid(Chan::R));
    lemma_in_order_one(c8, f8, 38, 39);
    let c9 = l.r.ready.unknown();
    let f9 = LineFault::Unknown(Wire::Ready(Chan::R));
    lemma_in_order_one(c9, f9, 39, 40);
    let s0 = only_if(c0, f0);
    lemma_in_order_together(s0, only_if(c1, f1), 30, 31, 32);
    let s1 = s0 + only_if(c1, f1);
    lemma_in_order_together(s1, only_if(c2, f2), 30, 32, 33);
    let s2 = s1 + only_if(c2, f2);
    lemma_in_order_together(s2, only_if(c3, f3), 30, 33, 34);
    let s3 = s2 + only_if(c3, f3);
    lemma_in_order_together(s3, only_if(c4, f4), 30, 34, 35);
    let s4 = s3 + only_if(c4, f4);
    lemma_in_order_together(s4, only_if(c5, f5), 30, 35, 36);
    let s5 = s4 + only_if(c5, f5);
    lemma_in_order_together(s5, only_if(c6, f6), 30, 36, 37);
    let s6 = s5 + only_if(c6, f6);
    lemma_in_order_together(s6, only_if(c7, f7), 30, 37, 38);
    let s7 = s6 + only_if(c7, f7);
    lemma_in_order_together(s7, only_if(c8, f8), 30, 38, 39);
    let s8 = s7 + only_if(c8, f8);
    lemma_in_order_together(s8, only_if(c9, f9), 30, 39, 40);
}

/// Timeouts come in the order of the channels.
pub proof fn lemma_timeouts_in_order(m: MonitorView, timeout: Option<u64>)
    ensures
        in_order(m.timeouts(timeout), 40, 50),
{
    match timeout {
        Some(limit) => {
            let last = past(limit);
            let c0 = m.aw.stall_cycles == last;
            let f0 = LineFault::Timeout(Chan::Aw, limit);
            lemma_in_order_one(c0, f0, 40, 42);
            let c1 = m.w.stall_cycles == last;
            let f1 = LineFault::Timeout(Chan::W, limit);
            lemma_in_order_one(c1, f1, 42, 44);
            let c2 = m.b.stall_cycles == last;
            let f2 = LineFault::Timeout(Chan::B, limit);
            lemma_in_order_one(c2, f2, 44, 46);
            let c3 = m.ar.stall_cycles == last;
            let f3 = LineFault::Timeout(Chan::Ar, limit);
            lemma_in_order_one(c3, f3, 46, 48);
            let c4 = m.r.stall_cycles == last;
            let f4 = LineFault::Timeout(Chan::R, limit);
            lemma_in_order_one(c4, f4, 48, 50);
            lemma_five_in_order(
                only_if(c0, f0),
                only_if(c1, f1),
                only_if(c2, f2),
                only_if(c3, f3),
                only_if(c4, f4),
                40,
            );
        },
        None => lemma_in_order_none::<LineFault>(40, 50),
    }
}

impl Placed for Axi4LiteFault {
    open spec fn place(self) -> int {
        match self {
            Axi4LiteFault::Line(f) => if f.place() < 20 {
                f.place() % 10
            } else if f.place() < 30 {
                f.place() - 10
            } else if f.place() < 40 {
                f.place()
            } else {
                f.place() + 10
            },
            Axi4LiteFault::Exokay(c) => 20 + channel_place(c),
            Axi4LiteFault::Unaligned(c, _) => 40 + (if c == Chan::Aw {
                0int
            } else {
                1
            }),
            Axi4LiteFault::EarlyWriteResponse => 42,
            Axi4LiteFault::EarlyReadResponse => 43,
            Axi4LiteFault::Deadlock(_) => 60,
        }
    }
}

proof fn lemma_lite_lines_in_order(faults: Seq<LineFault>, from: int, to: int)
    requires
        in_order(faults, from, from + 10),
        from == 0 && to == 0 || from == 10 && to == 0 || from == 20 && to == 10 || from == 30 && to
            == 30 || from == 40 && to == 50,
    ensures
        in_order(crate::axi4_lite::fault::lines(faults), to, to + 10),
{
    reveal(in_order);
    let all = crate::axi4_lite::fault::lines(faults);
    assert forall|i: int| 0 <= i < all.len() implies to <= (#[trigger] all[i]).place() < to + 10 by {
        assert(from <= faults[i].place() < from + 10);
    }
    assert forall|i: int, j: int| 0 <= i < j < all.len() implies (#[trigger] all[i]).place() < (
    #[trigger] all[j]).place() by {
        assert(faults[i].place() < faults[j].place());
        assert(from <= faults[i].place() && faults[j].place() < from + 10);
    }
}

proof fn lemma_lite_order_in_order(s: Axi4LiteCheckerView, p: Axi4LiteMonitorPorts)
    ensures
        in_order(s.exokay_faults(p), 20, 30),
        in_order(s.order_faults(p), 40, 50),
        in_order(s.deadlock(p.channels()), 60, 70),
{
    let l = p.channels();
    let lanes = lane_count(s.width);
    let (aw, ar) = (p.awaddr@.number_or_zero(), p.araddr@.number_or_zero());
    let done = s.done.after(l);
    let b = p.bvalid@.high() && p.bresp@.number_or_zero() == EXOKAY;
    let r = p.rvalid@.high() && p.rresp@.number_or_zero() == EXOKAY;
    lemma_in_order_one(b, Axi4LiteFault::Exokay(Chan::B), 20, 25);
    lemma_in_order_one(r, Axi4LiteFault::Exokay(Chan::R), 25, 30);
    lemma_in_order_together(
        only_if(b, Axi4LiteFault::Exokay(Chan::B)),
        only_if(r, Axi4LiteFault::Exokay(Chan::R)),
        20,
        25,
        30,
    );
    let c0 = l.aw.fires() && aligned(aw, lanes) != aw;
    let c1 = l.ar.fires() && aligned(ar, lanes) != ar;
    let c2 = done.b > done.requested_writes();
    let c3 = done.r > done.ar;
    let f0 = Axi4LiteFault::Unaligned(Chan::Aw, aw);
    let f1 = Axi4LiteFault::Unaligned(Chan::Ar, ar);
    let f2 = Axi4LiteFault::EarlyWriteResponse;
    let f3 = Axi4LiteFault::EarlyReadResponse;
    lemma_in_order_one(c0, f0, 40, 41);
    lemma_in_order_one(c1, f1, 41, 42);
    lemma_in_order_one(c2, f2, 42, 43);
    lemma_in_order_one(c3, f3, 43, 50);
    let s0 = only_if(c0, f0);
    let s1 = s0 + only_if(c1, f1);
    let s2 = s1 + only_if(c2, f2);
    lemma_in_order_together(s0, only_if(c1, f1), 40, 41, 42);
    lemma_in_order_together(s1, only_if(c2, f2), 40, 42, 43);
    lemma_in_order_together(s2, only_if(c3, f3), 40, 43, 50);
    match s.liveness {
        Some(limit) => lemma_in_order_one(
            s.idle_after(l) == past(limit),
            Axi4LiteFault::Deadlock(limit),
            60,
            70,
        ),
        None => lemma_in_order_none::<Axi4LiteFault>(60, 70),
    }
}

/// The faults of a cycle on an AXI4-Lite bus come in the order of their kinds: X or Z
/// payloads, unsteady channels, EXOKAY, X or Z lines, unaligned addresses, responses
/// without a request, timeouts and a deadlock; and within a kind in the order of the
/// channels.
pub proof fn lemma_lite_faults_in_order(
    s: Axi4LiteCheckerView,
    rst: bool,
    p: Axi4LiteMonitorPorts,
    four_state: bool,
)
    ensures
        in_order(s.faults(rst, p, four_state), 0, 70),
{
    let l = p.channels();
    if rst {
        lemma_reset_faults_in_order(l);
        lemma_lite_lines_in_order(high_in_reset(l), 0, 0);
        lemma_in_order_none::<Axi4LiteFault>(10, 70);
        lemma_in_order_together(s.faults(rst, p, four_state), seq![], 0, 10, 70);
        assert(s.faults(rst, p, four_state) + Seq::<Axi4LiteFault>::empty() =~= s.faults(
            rst,
            p,
            four_state,
        ));
    } else {
        let x = if four_state {
            unknown_payloads(l)
        } else {
            seq![]
        };
        let y = if four_state {
            unknown_lines(l)
        } else {
            seq![]
        };
        lemma_unknown_payloads_in_order(l);
        lemma_unknown_lines_in_order(l);
        lemma_in_order_none::<LineFault>(10, 20);
        lemma_in_order_none::<LineFault>(30, 40);
        lemma_violations_in_order(s.lines, l);
        lemma_timeouts_in_order(s.lines.after(l), s.timeout);
        lemma_lite_order_in_order(s, p);
        lemma_lite_lines_in_order(x, 10, 0);
        lemma_lite_lines_in_order(s.lines.violations(l), 20, 10);
        lemma_lite_lines_in_order(y, 30, 30);
        lemma_lite_lines_in_order(s.lines.after(l).timeouts(s.timeout), 40, 50);
        let s0 = crate::axi4_lite::fault::lines(x);
        let s1 = s0 + crate::axi4_lite::fault::lines(s.lines.violations(l));
        let s2 = s1 + s.exokay_faults(p);
        let s3 = s2 + crate::axi4_lite::fault::lines(y);
        let s4 = s3 + s.order_faults(p);
        let s5 = s4 + crate::axi4_lite::fault::lines(s.lines.after(l).timeouts(s.timeout));
        lemma_in_order_together(
            s0,
            crate::axi4_lite::fault::lines(s.lines.violations(l)),
            0,
            10,
            20,
        );
        lemma_in_order_together(s1, s.exokay_faults(p), 0, 20, 30);
        lemma_in_order_together(s2, crate::axi4_lite::fault::lines(y), 0, 30, 40);
        lemma_in_order_together(s3, s.order_faults(p), 0, 40, 50);
        lemma_in_order_together(
            s4,
            crate::axi4_lite::fault::lines(s.lines.after(l).timeouts(s.timeout)),
            0,
            50,
            60,
        );
        lemma_in_order_together(s5, s.deadlock(l), 0, 60, 70);
    }
}

impl Placed for Axi4StreamFault {
    open spec fn place(self) -> int {
        match self {
            Axi4StreamFault::HighInReset => 0,
            Axi4StreamFault::UnknownPayload => 1,
            Axi4StreamFault::UnknownLine => 2,
            Axi4StreamFault::Stability(_) => 3,
            Axi4StreamFault::Timeout(_) => 4,
        }
    }
}

/// The faults of a cycle on a stream come in the order of their kinds: an X or Z
/// payload, X or Z lines, an unsteady beat, a timeout.
pub proof fn lemma_stream_faults_in_order(
    s: Axi4StreamCheckerView,
    rst: bool,
    p: AxiStreamMonitorPorts,
    four_state: bool,
)
    ensures
        in_order(s.faults(rst, p, four_state), 0, 5),
{
    reveal(in_order);
}

/// The place of a rule on a burst.
pub open spec fn rule_place(f: Axi3Fault) -> int {
    match f {
        Axi3Fault::SizeExceedsBus(_, _) => 0,
        Axi3Fault::ReservedLock(_) => 1,
        Axi3Fault::ExclusiveLength(_, _) => 2,
        Axi3Fault::ExclusiveTotal(_, _) => 3,
        Axi3Fault::ExclusiveUnaligned(_, _, _) => 4,
        Axi3Fault::ReservedBurst(_, _) => 5,
        Axi3Fault::TooManyBeats(_, _) => 6,
        Axi3Fault::CrossesPage(_) => 7,
        Axi3Fault::WrapLength(_, _) => 8,
        Axi3Fault::WrapUnaligned(_, _) => 9,
        _ => 0,
    }
}

/// The channel that a rule on a burst is about.
pub open spec fn rule_channel(f: Axi3Fault) -> Chan {
    match f {
        Axi3Fault::SizeExceedsBus(c, _) => c,
        Axi3Fault::ReservedLock(c) => c,
        Axi3Fault::ExclusiveLength(c, _) => c,
        Axi3Fault::ExclusiveTotal(c, _) => c,
        Axi3Fault::ExclusiveUnaligned(c, _, _) => c,
        Axi3Fault::ReservedBurst(c, _) => c,
        Axi3Fault::TooManyBeats(c, _) => c,
        Axi3Fault::CrossesPage(c) => c,
        Axi3Fault::WrapLength(c, _) => c,
        Axi3Fault::WrapUnaligned(c, _) => c,
        _ => Chan::Aw,
    }
}

impl Placed for Axi3Fault {
    open spec fn place(self) -> int {
        match self {
            Axi3Fault::Line(f) => if f.place() < 30 {
                f.place()
            } else if f.place() < 40 {
                f.place() - 30
            } else {
                f.place() - 10
            },
            Axi3Fault::DataWithoutWrite(_) => 60,
            Axi3Fault::WriteLength { .. } => 61,
            Axi3Fault::DataWithoutRead(_) => 62,
            Axi3Fault::ReadLength { .. } => 63,
            Axi3Fault::ExokayRead(_) => 64,
            Axi3Fault::ResponseWithoutWrite(_) => 65,
            Axi3Fault::ExokayWrite(_) => 66,
            _ => rule_place(self) + (if rule_channel(self) == Chan::Aw {
                40int
            } else {
                50
            }),
        }
    }
}

/// The rules that a burst breaks come in the order: its size, its lock, its length,
/// bytes and address as an exclusive access, its type, its beats, its page, and its
/// length and address as a wrapping burst.
pub proof fn lemma_burst_faults_in_order(a: Announced, c: Chan, lanes: u64)
    requires
        c == Chan::Aw || c == Chan::Ar,
    ensures
        c == Chan::Aw ==> in_order(a.faults(c, lanes), 40, 50),
        c == Chan::Ar ==> in_order(a.faults(c, lanes), 50, 60),
{
    let k: int = if c == Chan::Aw {
        40
    } else {
        50
    };
    let beats = (a.len + 1) as u64;
    let excl = a.lock == 1;
    let total = a.total();
    let c0 = a.bytes() > lanes;
    let f0 = Axi3Fault::SizeExceedsBus(c, a.bytes());
    lemma_in_order_one(c0, f0, k, k + 1);
    let c1 = a.lock == 3;
    let f1 = Axi3Fault::ReservedLock(c);
    lemma_in_order_one(c1, f1, k + 1, k + 2);
    let c2 = excl && !(beats == 1 || beats == 2 || beats == 4 || beats == 8 || beats == 16);
    let f2 = Axi3Fault::ExclusiveLength(c, beats);
    lemma_in_order_one(c2, f2, k + 2, k + 3);
    let c3 = excl && total > 128;
    let f3 = Axi3Fault::ExclusiveTotal(c, total as u64);
    lemma_in_order_one(c3, f3, k + 3, k + 4);
    let c4 = excl && is_pow2(total) && a.addr as int % total != 0;
    let f4 = Axi3Fault::ExclusiveUnaligned(c, a.addr, total as u64);
    lemma_in_order_one(c4, f4, k + 4, k + 5);
    let c5 = a.kind > 2;
    let f5 = Axi3Fault::ReservedBurst(c, a.kind);
    lemma_in_order_one(c5, f5, k + 5, k + 6);
    let c6 = beats > 16;
    let f6 = Axi3Fault::TooManyBeats(c, beats);
    lemma_in_order_one(c6, f6, k + 6, k + 7);
    let c7 = a.kind == 1 && a.addr as int / 4096 != a.last_byte() / 4096;
    let f7 = Axi3Fault::CrossesPage(c);
    lemma_in_order_one(c7, f7, k + 7, k + 8);
    let c8 = a.kind == 2 && !(beats == 2 || beats == 4 || beats == 8 || beats == 16);
    let f8 = Axi3Fault::WrapLength(c, beats);
    lemma_in_order_one(c8, f8, k + 8, k + 9);
    let c9 = a.kind == 2 && a.addr % a.bytes() != 0;
    let f9 = Axi3Fault::WrapUnaligned(c, a.addr);
    lemma_in_order_one(c9, f9, k + 9, k + 10);
    let s0 = only_if(c0, f0);
    lemma_in_order_together(s0, only_if(c1, f1), k, k + 1, k + 2);
    let s1 = s0 + only_if(c1, f1);
    lemma_in_order_together(s1, only_if(c2, f2), k, k + 2, k + 3);
    let s2 = s1 + only_if(c2, f2);
    lemma_in_order_together(s2, only_if(c3, f3), k, k + 3, k + 4);
    let s3 = s2 + only_if(c3, f3);
    lemma_in_order_together(s3, only_if(c4, f4), k, k + 4, k + 5);
    let s4 = s3 + only_if(c4, f4);
    lemma_in_order_together(s4, only_if(c5, f5), k, k + 5, k + 6);
    let s5 = s4 + only_if(c5, f5);
    lemma_in_order_together(s5, only_if(c6, f6), k, k + 6, k + 7);
    let s6 = s5 + only_if(c6, f6);
    lemma_in_order_together(s6, only_if(c7, f7), k, k + 7, k + 8);
    let s7 = s6 + only_if(c7, f7);
    lemma_in_order_together(s7, only_if(c8, f8), k, k + 8, k + 9);
    let s8 = s7 + only_if(c8, f8);
    lemma_in_order_together(s8, only_if(c9, f9), k, k + 9, k + 10);
}

proof fn lemma_axi3_lines_in_order(faults: Seq<LineFault>, from: int, to: int)
    requires
        in_order(faults, from, from + 10),
        from == 0 && to == 0 || from == 10 && to == 10 || from == 20 && to == 20 || from == 30 && to
            == 0 || from == 40 && to == 30,
    ensures
        in_order(crate::axi3::fault::lines(faults), to, to + 10),
{
    reveal(in_order);
    let all = crate::axi3::fault::lines(faults);
    assert forall|i: int| 0 <= i < all.len() implies to <= (#[trigger] all[i]).place() < to + 10 by {
        assert(from <= faults[i].place() < from + 10);
    }
    assert forall|i: int, j: int| 0 <= i < j < all.len() implies (#[trigger] all[i]).place() < (
    #[trigger] all[j]).place() by {
        assert(faults[i].place() < faults[j].place());
        assert(from <= faults[i].place() && faults[j].place() < from + 10);
    }
}

proof fn lemma_axi3_phases_in_order(s: Axi3CheckerView, p: Axi3MonitorPorts)
    ensures
        in_order(s.w_faults(p), 60, 62),
        in_order(s.r_faults(p), 62, 65),
        in_order(s.b_faults(p), 65, 70),
{
    reveal(in_order);
}

/// The faults of a cycle on an AXI3 bus come in the order of their kinds: X or Z lines,
/// X or Z payloads, unsteady channels, timeouts, the rules that an announced write and
/// then an announced read breaks, write data, read data and write responses; and within
/// a kind in the order of the channels.
pub proof fn lemma_axi3_faults_in_order(
    s: Axi3CheckerView,
    rst: bool,
    p: Axi3MonitorPorts,
    four_state: bool,
    now: u64,
)
    ensures
        in_order(s.faults(rst, p, four_state, now), 0, 70),
{
    let l = p.channels();
    if rst {
        let all = s.faults(rst, p, four_state, now);
        lemma_reset_faults_in_order(l);
        lemma_axi3_lines_in_order(high_in_reset(l), 0, 0);
        lemma_in_order_none::<Axi3Fault>(10, 70);
        lemma_in_order_together(all, seq![], 0, 10, 70);
        assert(all + Seq::<Axi3Fault>::empty() =~= all);
    } else {
        let x = if four_state {
            unknown_lines(l)
        } else {
            seq![]
        };
        let y = if four_state {
            unknown_payloads(l)
        } else {
            seq![]
        };
        let t1 = s.after_lines(p);
        let t3 = t1.after_aw(p, now).after_ar(p, now);
        let t4 = t3.after_w(p);
        let lanes = lane_count(s.width);
        lemma_unknown_lines_in_order(l);
        lemma_unknown_payloads_in_order(l);
        lemma_in_order_none::<LineFault>(10, 20);
        lemma_in_order_none::<LineFault>(30, 40);
        lemma_in_order_none::<Axi3Fault>(40, 50);
        lemma_in_order_none::<Axi3Fault>(50, 60);
        lemma_violations_in_order(s.lines, l);
        lemma_timeouts_in_order(t1.lines, s.timeout);
        lemma_burst_faults_in_order(p.aw_burst(), Chan::Aw, lanes);
        lemma_burst_faults_in_order(p.ar_burst(), Chan::Ar, lanes);
        lemma_axi3_phases_in_order(t3, p);
        lemma_axi3_phases_in_order(t4, p);
        lemma_axi3_phases_in_order(t4.after_r(p, now), p);
        lemma_axi3_lines_in_order(x, 30, 0);
        lemma_axi3_lines_in_order(y, 10, 10);
        lemma_axi3_lines_in_order(s.lines.violations(l), 20, 20);
        lemma_axi3_lines_in_order(t1.lines.timeouts(s.timeout), 40, 30);
        let aw = if l.aw.fires() {
            p.aw_burst().faults(Chan::Aw, lanes)
        } else {
            seq![]
        };
        let ar = if l.ar.fires() {
            p.ar_burst().faults(Chan::Ar, lanes)
        } else {
            seq![]
        };
        let s0 = crate::axi3::fault::lines(x);
        let s1 = s0 + crate::axi3::fault::lines(y);
        let s2 = s1 + crate::axi3::fault::lines(s.lines.violations(l));
        let s3 = s2 + crate::axi3::fault::lines(t1.lines.timeouts(s.timeout));
        let s4 = s3 + aw;
        let s5 = s4 + ar;
        let s6 = s5 + t3.w_faults(p);
        lemma_in_order_together(s0, crate::axi3::fault::lines(y), 0, 10, 20);
        lemma_in_order_together(
            s1,
            crate::axi3::fault::lines(s.lines.violations(l)),
            0,
            20,
            30,
        );
        lemma_in_order_together(
            s2,
            crate::axi3::fault::lines(t1.lines.timeouts(s.timeout)),
            0,
            30,
            40,
        );
        lemma_in_order_together(s3, aw, 0, 40, 50);
        lemma_in_order_together(s4, ar, 0, 50, 60);
        lemma_in_order_together(s5, t3.w_faults(p), 0, 60, 62);
        assert(s.early_faults(p, four_state, now) == s6);
        lemma_in_order_together(s6, t4.r_faults(p), 0, 62, 65);
        lemma_in_order_together(s6 + t4.r_faults(p), t4.after_r(p, now).b_faults(p), 0, 65, 70);
    }
}

} // verus!
