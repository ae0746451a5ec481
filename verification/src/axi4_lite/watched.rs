//! What a checker sees of a master and a memory: nothing to report.

use crate::axi4_lite::bus::{
    guarded, in_step, lemma_cycle_keeps_in_step, lemma_fresh_pair_is_in_step, linked, wired,
};
use crate::axi4_lite::checker::{Axi4LiteCheckerView, Axi4LiteMonitorPorts};
use crate::axi4_lite::fault::{lines, Axi4LiteFault};
use crate::axi4_lite::laws::lemma_offers_are_stable;
use crate::axi4_lite::master::{Axi4LiteMasterPorts, Axi4LiteMasterView, LiteMasterConfig};
use crate::axi4_lite::ram::{
    lemma_responses_are_stable, Axi4LiteRamView, Axi4LiteSlavePorts, LiteRamConfig,
};
use crate::common::monitor::{unknown_lines, unknown_payloads, LineFault};
use crate::common::random::stalls;
use crate::common::shown::{bit_of, goes_on, lemma_shown_channel, shown, shows};
use crate::value::ValueView;
use vstd::prelude::*;

verus! {

/// The widths of the signals on a bus.
pub ghost struct Widths {
    pub addr: u32,
    pub data: u32,
    pub strb: u32,
    pub resp: u32,
}

/// What the write address channel shows.
pub open spec fn aw_payload(m: Axi4LiteMasterView, w: Widths) -> Seq<ValueView> {
    seq![shown(seq![m.aw_addr], w.addr)]
}

/// What the write data channel shows.
pub open spec fn w_payload(m: Axi4LiteMasterView, w: Widths) -> Seq<ValueView> {
    seq![shown(m.w_data, w.data), shown(m.w_strb, w.strb)]
}

/// What the write response channel shows.
pub open spec fn b_payload(r: Axi4LiteRamView, w: Widths) -> Seq<ValueView> {
    seq![shown(seq![r.b_resp], w.resp)]
}

/// What the read address channel shows.
pub open spec fn ar_payload(m: Axi4LiteMasterView, w: Widths) -> Seq<ValueView> {
    seq![shown(seq![m.ar_addr], w.addr)]
}

/// What the read data channel shows.
pub open spec fn r_payload(r: Axi4LiteRamView, w: Widths) -> Seq<ValueView> {
    seq![shown(r.r_data, w.data), shown(seq![r.r_resp], w.resp)]
}

/// Whether a monitor sees what a master and a memory drive.
pub open spec fn watched(
    m: Axi4LiteMasterView,
    r: Axi4LiteRamView,
    w: Widths,
    o: Axi4LiteMonitorPorts,
) -> bool {
    let l = o.channels();
    &&& shows(l.aw, m.aw_valid, r.aw_ready, aw_payload(m, w))
    &&& shows(l.w, m.w_valid, r.w_ready, w_payload(m, w))
    &&& shows(l.b, r.b_valid, m.b_ready, b_payload(r, w))
    &&& shows(l.ar, m.ar_valid, r.ar_ready, ar_payload(m, w))
    &&& shows(l.r, r.r_valid, m.r_ready, r_payload(r, w))
}

/// Whether what a checker remembers is what the master and the memory have
/// done.
pub open spec fn followed(
    c: Axi4LiteCheckerView,
    m: Axi4LiteMasterView,
    r: Axi4LiteRamView,
    w: Widths,
) -> bool {
    &&& goes_on(c.lines.aw, m.aw_valid, aw_payload(m, w))
    &&& goes_on(c.lines.w, m.w_valid, w_payload(m, w))
    &&& goes_on(c.lines.b, r.b_valid, b_payload(r, w))
    &&& goes_on(c.lines.ar, m.ar_valid, ar_payload(m, w))
    &&& goes_on(c.lines.r, r.r_valid, r_payload(r, w))
    &&& c.done.aw == c.done.b + m.b_expect.len() + bit_of(m.aw_acked)
    &&& c.done.w == c.done.b + m.b_expect.len() + bit_of(m.w_acked)
    &&& c.done.ar == c.done.r + m.r_expect.len()
}

/// What each channel of a watched bus shows.
proof fn lemma_watched_channels(
    m: Axi4LiteMasterView,
    r: Axi4LiteRamView,
    w: Widths,
    o: Axi4LiteMonitorPorts,
)
    requires
        watched(m, r, w, o),
    ensures
        ({
            let l = o.channels();
            &&& l.aw.valid.high() == m.aw_valid && l.aw.fires() == (m.aw_valid && r.aw_ready)
            &&& l.w.valid.high() == m.w_valid && l.w.fires() == (m.w_valid && r.w_ready)
            &&& l.b.valid.high() == r.b_valid && l.b.fires() == (r.b_valid && m.b_ready)
            &&& l.ar.valid.high() == m.ar_valid && l.ar.fires() == (m.ar_valid && r.ar_ready)
            &&& l.r.valid.high() == r.r_valid && l.r.fires() == (r.r_valid && m.r_ready)
            &&& l.aw.ready.high() == r.aw_ready && l.w.ready.high() == r.w_ready
            &&& l.b.ready.high() == m.b_ready && l.ar.ready.high() == r.ar_ready
            &&& l.r.ready.high() == m.r_ready
            &&& unknown_lines(l) == Seq::<LineFault>::empty()
            &&& unknown_payloads(l) == Seq::<LineFault>::empty()
        }),
{
    let l = o.channels();
    lemma_shown_channel(l.aw, m.aw_valid, r.aw_ready, aw_payload(m, w));
    lemma_shown_channel(l.w, m.w_valid, r.w_ready, w_payload(m, w));
    lemma_shown_channel(l.b, r.b_valid, m.b_ready, b_payload(r, w));
    lemma_shown_channel(l.ar, m.ar_valid, r.ar_ready, ar_payload(m, w));
    lemma_shown_channel(l.r, r.r_valid, m.r_ready, r_payload(r, w));
    assert(unknown_lines(l) =~= Seq::<LineFault>::empty());
    assert(unknown_payloads(l) =~= Seq::<LineFault>::empty());
}

/// In a cycle of a watched bus no rule is broken.
proof fn lemma_no_rule_is_broken(
    c: Axi4LiteCheckerView,
    m: Axi4LiteMasterView,
    r: Axi4LiteRamView,
    w: Widths,
    o: Axi4LiteMonitorPorts,
    four_state: bool,
    now: u64,
)
    requires
        in_step(m, r),
        watched(m, r, w, o),
        followed(c, m, r, w),
        w.addr <= 64,
        w.resp <= 64,
        c.width == r.mem.width,
        c.timeout is None,
        c.liveness is None,
        c.can_clock(false, o, now),
    ensures
        c.faults(false, o, four_state) == Seq::<Axi4LiteFault>::empty(),
{
    let l = o.channels();
    lemma_watched_channels(m, r, w, o);
    assert(c.lines.violations(l) =~= Seq::<LineFault>::empty());
    assert(l.aw.payload[0] == o.awaddr@);
    assert(l.ar.payload[0] == o.araddr@);
    assert(l.b.payload[0] == o.bresp@);
    assert(l.r.payload[1] == o.rresp@);
    assert(c.exokay_faults(o) =~= Seq::<Axi4LiteFault>::empty());
    assert(c.order_faults(o) =~= Seq::<Axi4LiteFault>::empty());
    assert(lines(Seq::<LineFault>::empty()) =~= Seq::<Axi4LiteFault>::empty());
    assert(c.faults(false, o, four_state) =~= Seq::<Axi4LiteFault>::empty());
}

/// Issuing an access changes nothing about those in flight.
proof fn lemma_issuing_counts_nothing(m: Axi4LiteMasterView, p: Axi4LiteMasterPorts)
    ensures
        ({
            let n = m.clocked(false, p);
            let x = m.drawn().write_moved(p).b_received(m.b_fires(p), p.bresp);
            let y = m.ar_taken(m.ar_valid && p.arready@.truth()).r_received(
                m.r_fires(p),
                m.r_data(p),
            );
            &&& n.b_expect == x.b_expect
            &&& n.aw_acked == x.aw_acked
            &&& n.w_acked == x.w_acked
            &&& n.r_expect == y.r_expect
        }),
{
    let stall = stalls(m.lfsr, m.config.stall);
    let x = m.drawn().write_moved(p).b_received(m.b_fires(p), p.bresp);
    let m2 = m.drawn().write_cycle(p, stall);
    assert(m2.b_expect == x.b_expect && m2.aw_acked == x.aw_acked && m2.w_acked == x.w_acked);
    assert(m2.r_expect == m.r_expect && m2.ar_valid == m.ar_valid && m2.r_ready == m.r_ready);
    assert(m2.cur_ar == m.cur_ar && m2.config == m.config);
    let n = m2.read_cycle(p, stall);
    assert(n.b_expect == m2.b_expect && n.aw_acked == m2.aw_acked && n.w_acked == m2.w_acked);
}

/// A write's halves and responses, and reads, are counted alike by the master
/// and on the bus.
proof fn lemma_accesses_are_counted(
    m: Axi4LiteMasterView,
    r: Axi4LiteRamView,
    p: Axi4LiteMasterPorts,
    q: Axi4LiteSlavePorts,
)
    requires
        linked(m, r),
        guarded(r),
        wired(m, r, p, q),
    ensures
        ({
            let n = m.clocked(false, p);
            let b = bit_of(r.b_valid && m.b_ready);
            &&& n.b_expect.len() + bit_of(n.aw_acked) == m.b_expect.len() + bit_of(m.aw_acked)
                + bit_of(m.aw_valid && r.aw_ready) - b
            &&& n.b_expect.len() + bit_of(n.w_acked) == m.b_expect.len() + bit_of(m.w_acked)
                + bit_of(m.w_valid && r.w_ready) - b
            &&& n.r_expect.len() == m.r_expect.len() + bit_of(m.ar_valid && r.ar_ready) - bit_of(
                r.r_valid && m.r_ready,
            )
        }),
{
    lemma_issuing_counts_nothing(m, p);
}

/// The checker goes on following.
proof fn lemma_checker_follows(
    c: Axi4LiteCheckerView,
    m: Axi4LiteMasterView,
    r: Axi4LiteRamView,
    p: Axi4LiteMasterPorts,
    q: Axi4LiteSlavePorts,
    w: Widths,
    o: Axi4LiteMonitorPorts,
    now: u64,
)
    requires
        in_step(m, r),
        guarded(r),
        wired(m, r, p, q),
        watched(m, r, w, o),
        followed(c, m, r, w),
        c.can_clock(false, o, now),
    ensures
        followed(c.clocked(false, o, now), m.clocked(false, p), r.clocked(false, q), w),
{
    let n = m.clocked(false, p);
    let t = r.clocked(false, q);
    lemma_watched_channels(m, r, w, o);
    lemma_offers_are_stable(m, p);
    lemma_responses_are_stable(r, q);
    lemma_accesses_are_counted(m, r, p, q);
    let d = c.clocked(false, o, now);
    assert(goes_on(d.lines.aw, n.aw_valid, aw_payload(n, w)));
    assert(goes_on(d.lines.w, n.w_valid, w_payload(n, w)));
    assert(goes_on(d.lines.b, t.b_valid, b_payload(t, w)));
    assert(goes_on(d.lines.ar, n.ar_valid, ar_payload(n, w)));
    assert(goes_on(d.lines.r, t.r_valid, r_payload(t, w)));
}

/// A cycle of a watched bus: what each side sees, and when.
pub ghost struct BusCycle {
    pub master: Axi4LiteMasterPorts,
    pub slave: Axi4LiteSlavePorts,
    pub monitor: Axi4LiteMonitorPorts,
    pub now: u64,
}

/// The master, the memory and the checker of a bus.
pub ghost struct Bus {
    pub master: Axi4LiteMasterView,
    pub ram: Axi4LiteRamView,
    pub checker: Axi4LiteCheckerView,
}

impl Bus {
    /// After a cycle without reset.
    pub open spec fn clocked(self, k: BusCycle) -> Bus {
        Bus {
            master: self.master.clocked(false, k.master),
            ram: self.ram.clocked(false, k.slave),
            checker: self.checker.clocked(false, k.monitor, k.now),
        }
    }

    /// After a run of cycles without reset.
    pub open spec fn run(self, cycles: Seq<BusCycle>) -> Bus
        decreases cycles.len(),
    {
        if cycles.len() == 0 {
            self
        } else {
            self.run(cycles.drop_last()).clocked(cycles.last())
        }
    }

    /// Whether in a cycle each sees what the others drive, and the checker's
    /// counters have room.
    pub open spec fn connected(self, w: Widths, k: BusCycle) -> bool {
        &&& wired(self.master, self.ram, k.master, k.slave)
        &&& watched(self.master, self.ram, w, k.monitor)
        &&& self.checker.can_clock(false, k.monitor, k.now)
    }

    /// Whether the bus is in step, and the checker, which has no time limits,
    /// has followed it.
    pub open spec fn is_followed(self, w: Widths) -> bool {
        &&& in_step(self.master, self.ram)
        &&& guarded(self.ram)
        &&& followed(self.checker, self.master, self.ram, w)
        &&& self.checker.width == self.ram.mem.width
        &&& self.checker.timeout is None
        &&& self.checker.liveness is None
        &&& w.addr <= 64
        &&& w.resp <= 64
    }
}

/// A checker between a master and a memory has nothing to report: in every
/// cycle of a run in which each sees what the others drive, no rule of the
/// protocol is broken. Time limits are left out, since a side that always
/// stalls would pass any of them.
pub proof fn lemma_traffic_is_legal(
    bus: Bus,
    w: Widths,
    cycles: Seq<BusCycle>,
    i: int,
    four_state: bool,
)
    requires
        bus.is_followed(w),
        forall|j: int|
            0 <= j < cycles.len() ==> bus.run(cycles.take(j)).connected(w, #[trigger] cycles[j]),
        0 <= i < cycles.len(),
    ensures
        bus.run(cycles.take(i)).checker.faults(false, cycles[i].monitor, four_state) == Seq::<
            Axi4LiteFault,
        >::empty(),
{
    lemma_run_is_followed(bus, w, cycles, i);
    let b = bus.run(cycles.take(i));
    let k = cycles[i];
    lemma_no_rule_is_broken(b.checker, b.master, b.ram, w, k.monitor, four_state, k.now);
}

proof fn lemma_run_is_followed(bus: Bus, w: Widths, cycles: Seq<BusCycle>, i: int)
    requires
        bus.is_followed(w),
        forall|j: int|
            0 <= j < cycles.len() ==> bus.run(cycles.take(j)).connected(w, #[trigger] cycles[j]),
        0 <= i <= cycles.len(),
    ensures
        bus.run(cycles.take(i)).is_followed(w),
    decreases i,
{
    if i == 0 {
        assert(bus.run(cycles.take(0)) == bus);
    } else {
        lemma_run_is_followed(bus, w, cycles, i - 1);
        let b = bus.run(cycles.take(i - 1));
        let k = cycles[i - 1];
        assert(b.connected(w, k));
        assert(cycles.take(i).drop_last() =~= cycles.take(i - 1));
        assert(bus.run(cycles.take(i)) == b.clocked(k));
        lemma_cycle_keeps_in_step(b.master, b.ram, k.master, k.slave);
        lemma_checker_follows(b.checker, b.master, b.ram, k.master, k.slave, w, k.monitor, k.now);
    }
}

/// A fresh checker follows a fresh master and a fresh memory.
pub proof fn lemma_fresh_bus_is_followed(
    config: LiteMasterConfig,
    seed: u64,
    ram: LiteRamConfig,
    ram_seed: u64,
    w: Widths,
)
    requires
        config.width == ram.width,
        ram.size is None,
        w.addr <= 64,
        w.resp <= 64,
    ensures
        (Bus {
            master: Axi4LiteMasterView::fresh(config, seed),
            ram: Axi4LiteRamView::fresh(ram, ram_seed),
            checker: Axi4LiteCheckerView::fresh(ram.width, None, None),
        }).is_followed(w),
{
    lemma_fresh_pair_is_in_step(config, seed, ram, ram_seed);
}

} // verus!
