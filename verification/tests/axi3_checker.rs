use vip::axi3::{Axi3Checker, Axi3MonitorPorts};
use vip::common::report::fail_at;
use vip::common::resp::{EXOKAY, SLVERR};
use vip::value::Value;

/// A `width`-bit value without X or Z bits.
fn bits(v: u64, width: u32) -> Value {
    Value::Bits {
        words: vec![v],
        mask_xz: vec![0],
        width,
    }
}

/// A `width`-bit value whose bit 0 is X.
fn x_bit(width: u32) -> Value {
    Value::Bits {
        words: vec![0],
        mask_xz: vec![1],
        width,
    }
}

/// The bus as the component under test sees it.
struct Sim {
    rst: Value,
    axi: Axi3MonitorPorts,
    cycle: u64,
    failures: Vec<String>,
    four_state: bool,
}

impl Sim {
    fn new() -> Sim {
        Sim {
            rst: bits(0, 1),
            axi: Axi3MonitorPorts {
                awvalid: bits(0, 1),
                awready: bits(0, 1),
                awaddr: bits(0, 32),
                awlen: bits(0, 4),
                awsize: bits(0, 3),
                awburst: bits(0, 2),
                awid: bits(0, 4),
                awlock: bits(0, 2),
                wvalid: bits(0, 1),
                wready: bits(0, 1),
                wdata: bits(0, 32),
                wstrb: bits(0, 4),
                wlast: bits(0, 1),
                wid: bits(0, 4),
                bvalid: bits(0, 1),
                bready: bits(0, 1),
                bresp: bits(0, 2),
                bid: bits(0, 4),
                arvalid: bits(0, 1),
                arready: bits(0, 1),
                araddr: bits(0, 32),
                arlen: bits(0, 4),
                arsize: bits(0, 3),
                arburst: bits(0, 2),
                arid: bits(0, 4),
                arlock: bits(0, 2),
                rvalid: bits(0, 1),
                rready: bits(0, 1),
                rdata: bits(0, 32),
                rresp: bits(0, 2),
                rid: bits(0, 4),
                rlast: bits(0, 1),
            },
            cycle: 0,
            failures: Vec::new(),
            four_state: false,
        }
    }

    fn four_state() -> Sim {
        Sim {
            four_state: true,
            ..Sim::new()
        }
    }

    fn clock(&mut self, c: &mut Axi3Checker) {
        self.cycle += 1;
        assert!(c.in_range(&self.rst, &self.axi, self.cycle));
        for f in c.on_clock(&self.rst, &self.axi, self.four_state, self.cycle) {
            self.failures.push(fail_at(self.cycle, &f.message()));
        }
    }

    fn failed(&self) -> bool {
        !self.failures.is_empty()
    }

    fn failures(&self) -> &[String] {
        &self.failures
    }
}

/// Accepts an AW address phase in one cycle (INCR, 4-byte beats).
fn aw(sim: &mut Sim, c: &mut Axi3Checker, id: u64, len: u64) {
    sim.axi.awvalid = bits(1, 1);
    sim.axi.awready = bits(1, 1);
    sim.axi.awid = bits(id, 4);
    sim.axi.awaddr = bits(0x40, 32);
    sim.axi.awlen = bits(len, 4);
    sim.axi.awsize = bits(2, 3);
    sim.axi.awburst = bits(1, 2);
    sim.clock(c);
    sim.axi.awvalid = bits(0, 1);
    sim.axi.awready = bits(0, 1);
}

/// Drives one W beat carrying `wid`.
fn w_beat(sim: &mut Sim, c: &mut Axi3Checker, wid: u64, last: bool) {
    sim.axi.wvalid = bits(1, 1);
    sim.axi.wready = bits(1, 1);
    sim.axi.wid = bits(wid, 4);
    sim.axi.wlast = bits(u64::from(last), 1);
    sim.clock(c);
    sim.axi.wvalid = bits(0, 1);
    sim.axi.wready = bits(0, 1);
}

#[test]
fn interleaved_write_beats_pass() {
    let mut sim = Sim::new();
    let mut c = Axi3Checker::on_build(32, 32, 32, None).unwrap();
    sim.rst = bits(0, 1);
    aw(&mut sim, &mut c, 1, 1); // 2-beat write, ID 1
    aw(&mut sim, &mut c, 2, 1); // 2-beat write, ID 2
    // Interleave: 1.0, 2.0, 1.1(last), 2.1(last).
    w_beat(&mut sim, &mut c, 1, false);
    w_beat(&mut sim, &mut c, 2, false);
    w_beat(&mut sim, &mut c, 1, true);
    w_beat(&mut sim, &mut c, 2, true);
    assert!(!sim.failed(), "unexpected: {:?}", sim.failures());
}

#[test]
fn wlast_on_wrong_wid_beat_fails() {
    let mut sim = Sim::new();
    let mut c = Axi3Checker::on_build(32, 32, 32, None).unwrap();
    sim.rst = bits(0, 1);
    aw(&mut sim, &mut c, 1, 1); // WID 1 expects 2 beats
    w_beat(&mut sim, &mut c, 1, true); // WLAST on the first beat
    assert!(sim.failures().iter().any(|f| f.contains("WLAST")));
}

#[test]
fn w_beat_without_outstanding_write_fails() {
    let mut sim = Sim::new();
    let mut c = Axi3Checker::on_build(32, 32, 32, None).unwrap();
    sim.rst = bits(0, 1);
    w_beat(&mut sim, &mut c, 3, true); // no AW for WID 3
    assert!(
        sim.failures()
            .iter()
            .any(|f| f.contains("no outstanding write"))
    );
}

#[test]
fn reserved_lock_fails() {
    let mut sim = Sim::new();
    let mut c = Axi3Checker::on_build(32, 32, 32, None).unwrap();
    sim.rst = bits(0, 1);
    sim.axi.awlock = bits(3, 2); // reserved
    aw(&mut sim, &mut c, 1, 0);
    assert!(sim.failures().iter().any(|f| f.contains("reserved LOCK")));
}

// --- AMBA compliance: directed rule tests ---

#[test]
fn directed_size_exceeds_bus_fails() {
    let mut sim = Sim::new();
    let mut c = Axi3Checker::on_build(32, 32, 32, None).unwrap();
    sim.rst = bits(0, 1);
    sim.axi.awvalid = bits(1, 1);
    sim.axi.awready = bits(1, 1);
    sim.axi.awaddr = bits(0x40, 32);
    sim.axi.awlen = bits(0, 4);
    sim.axi.awsize = bits(3, 3); // 8 bytes on a 4-byte bus
    sim.axi.awburst = bits(1, 2);
    sim.clock(&mut c);
    assert!(
        sim.failures()
            .iter()
            .any(|f| f.contains("exceeds bus width"))
    );
}

#[test]
fn directed_burst_crossing_4kb_fails() {
    let mut sim = Sim::new();
    let mut c = Axi3Checker::on_build(32, 32, 32, None).unwrap();
    sim.rst = bits(0, 1);
    sim.axi.awvalid = bits(1, 1);
    sim.axi.awready = bits(1, 1);
    sim.axi.awaddr = bits(0xff0, 32);
    sim.axi.awlen = bits(15, 4); // 16 beats near the page top
    sim.axi.awsize = bits(2, 3);
    sim.axi.awburst = bits(1, 2);
    sim.clock(&mut c);
    assert!(sim.failures().iter().any(|f| f.contains("4 KiB")));
}

#[test]
fn directed_wrap_non_power_of_two_fails() {
    let mut sim = Sim::new();
    let mut c = Axi3Checker::on_build(32, 32, 32, None).unwrap();
    sim.rst = bits(0, 1);
    sim.axi.awvalid = bits(1, 1);
    sim.axi.awready = bits(1, 1);
    sim.axi.awaddr = bits(0x40, 32);
    sim.axi.awlen = bits(2, 4); // WRAP, 3 beats
    sim.axi.awsize = bits(2, 3);
    sim.axi.awburst = bits(2, 2);
    sim.clock(&mut c);
    assert!(sim.failures().iter().any(|f| f.contains("WRAP length")));
}

#[test]
fn directed_valid_high_during_reset_fails() {
    let mut sim = Sim::new();
    let mut c = Axi3Checker::on_build(32, 32, 32, None).unwrap();
    sim.rst = bits(1, 1);
    sim.axi.awvalid = bits(1, 1);
    sim.clock(&mut c);
    assert!(
        sim.failures()
            .iter()
            .any(|f| f.contains("must be low during reset"))
    );
}

#[test]
fn directed_bid_without_outstanding_fails() {
    let mut sim = Sim::new();
    let mut c = Axi3Checker::on_build(32, 32, 32, None).unwrap();
    sim.rst = bits(0, 1);
    sim.axi.bvalid = bits(1, 1);
    sim.axi.bready = bits(1, 1);
    sim.axi.bid = bits(7, 4);
    sim.clock(&mut c);
    assert!(
        sim.failures()
            .iter()
            .any(|f| f.contains("BID 7 has no outstanding write"))
    );
}

#[test]
fn directed_rid_without_outstanding_fails() {
    let mut sim = Sim::new();
    let mut c = Axi3Checker::on_build(32, 32, 32, None).unwrap();
    sim.rst = bits(0, 1);
    sim.axi.rvalid = bits(1, 1);
    sim.axi.rready = bits(1, 1);
    sim.axi.rid = bits(5, 4);
    sim.axi.rlast = bits(1, 1);
    sim.clock(&mut c);
    assert!(
        sim.failures()
            .iter()
            .any(|f| f.contains("RID 5 has no outstanding read"))
    );
}

#[test]
fn directed_exokay_on_non_exclusive_write_fails() {
    let mut sim = Sim::new();
    let mut c = Axi3Checker::on_build(32, 32, 32, None).unwrap();
    sim.rst = bits(0, 1);
    aw(&mut sim, &mut c, 1, 0); // normal 1-beat write, ID 1
    w_beat(&mut sim, &mut c, 1, true);
    sim.axi.bvalid = bits(1, 1);
    sim.axi.bready = bits(1, 1);
    sim.axi.bid = bits(1, 4);
    sim.axi.bresp = bits(EXOKAY, 2); // illegal
    sim.clock(&mut c);
    assert!(sim.failures().iter().any(|f| f.contains("non-exclusive")));
}

#[test]
fn directed_exclusive_write_with_exokay_passes() {
    let mut sim = Sim::new();
    let mut c = Axi3Checker::on_build(32, 32, 32, None).unwrap();
    sim.rst = bits(0, 1);
    sim.axi.awlock = bits(1, 2); // 0b01 exclusive
    aw(&mut sim, &mut c, 1, 0); // 1-beat, aligned @0x40
    sim.axi.awlock = bits(0, 2);
    w_beat(&mut sim, &mut c, 1, true);
    sim.axi.bvalid = bits(1, 1);
    sim.axi.bready = bits(1, 1);
    sim.axi.bid = bits(1, 4);
    sim.axi.bresp = bits(EXOKAY, 2);
    sim.clock(&mut c);
    assert!(!sim.failed(), "unexpected: {:?}", sim.failures());
}

#[test]
fn directed_stall_beyond_timeout_fails() {
    let mut sim = Sim::new();
    let mut c = Axi3Checker::on_build(32, 32, 32, Some(4)).unwrap();
    sim.rst = bits(0, 1);
    sim.axi.awvalid = bits(1, 1);
    sim.axi.awaddr = bits(0x40, 32);
    sim.axi.awburst = bits(1, 2);
    for _ in 0..8 {
        sim.clock(&mut c);
    }
    assert!(sim.failures().iter().any(|f| f.contains("timeout")));
}

#[test]
fn directed_payload_x_while_valid_fails() {
    let mut sim = Sim::four_state();
    let mut c = Axi3Checker::on_build(32, 32, 32, None).unwrap();
    sim.rst = bits(0, 1);
    sim.axi.awvalid = bits(1, 1);
    sim.axi.awaddr = x_bit(32);
    sim.clock(&mut c);
    assert!(sim.failures().iter().any(|f| f.contains("X/Z while VALID")));
}

#[test]
fn directed_control_line_x_fails() {
    let mut sim = Sim::four_state();
    let mut c = Axi3Checker::on_build(32, 32, 32, None).unwrap();
    sim.rst = bits(0, 1);
    sim.axi.awvalid = x_bit(1);
    sim.clock(&mut c);
    assert!(sim.failures().iter().any(|f| f.contains("AWVALID is X/Z")));
}

#[test]
fn directed_slverr_is_accepted_and_tallied() {
    let mut sim = Sim::new();
    let mut c = Axi3Checker::on_build(32, 32, 32, None).unwrap();
    sim.rst = bits(0, 1);
    aw(&mut sim, &mut c, 1, 0); // 1-beat write, ID 1
    w_beat(&mut sim, &mut c, 1, true);
    sim.axi.bvalid = bits(1, 1);
    sim.axi.bready = bits(1, 1);
    sim.axi.bid = bits(1, 4);
    sim.axi.bresp = bits(SLVERR, 2); // a legal error response
    sim.clock(&mut c);
    assert!(!sim.failed(), "SLVERR is legal: {:?}", sim.failures());
    assert!(c.summary().contains("slverr=1"));
}

#[test]
fn directed_lock_x_while_valid_fails() {
    let mut sim = Sim::four_state();
    let mut c = Axi3Checker::on_build(32, 32, 32, None).unwrap();
    sim.rst = bits(0, 1);
    sim.axi.awvalid = bits(1, 1);
    sim.axi.awaddr = bits(0x40, 32);
    sim.axi.awlock = x_bit(2);
    sim.clock(&mut c);
    assert!(sim.failures().iter().any(|f| f.contains("X/Z while VALID")));
}

#[test]
fn directed_lock_unstable_while_stalled_fails() {
    let mut sim = Sim::new();
    let mut c = Axi3Checker::on_build(32, 32, 32, None).unwrap();
    sim.rst = bits(0, 1);
    // AW stalls (VALID high, READY low) with LOCK asserted...
    sim.axi.awvalid = bits(1, 1);
    sim.axi.awaddr = bits(0x40, 32);
    sim.axi.awlock = bits(1, 2);
    sim.clock(&mut c);
    // ...then LOCK changes while still stalled — a stability violation.
    sim.axi.awlock = bits(0, 2);
    sim.clock(&mut c);
    assert!(sim.failures().iter().any(|f| f.contains("payload changed")));
}

#[test]
fn directed_exclusive_read_exokay_tallied() {
    let mut sim = Sim::new();
    let mut c = Axi3Checker::on_build(32, 32, 32, None).unwrap();
    sim.rst = bits(0, 1);
    // Exclusive read (ARLOCK = 0b01) answered with EXOKAY is legal.
    sim.axi.arvalid = bits(1, 1);
    sim.axi.arready = bits(1, 1);
    sim.axi.araddr = bits(0x40, 32);
    sim.axi.arlen = bits(0, 4);
    sim.axi.arsize = bits(2, 3);
    sim.axi.arburst = bits(1, 2);
    sim.axi.arlock = bits(1, 2);
    sim.axi.arid = bits(1, 4);
    sim.clock(&mut c);
    sim.axi.arvalid = bits(0, 1);
    sim.axi.arlock = bits(0, 2);
    sim.axi.rvalid = bits(1, 1);
    sim.axi.rready = bits(1, 1);
    sim.axi.rid = bits(1, 4);
    sim.axi.rresp = bits(EXOKAY, 2);
    sim.axi.rlast = bits(1, 1);
    sim.clock(&mut c);
    assert!(!sim.failed(), "unexpected: {:?}", sim.failures());
    assert!(
        c.summary().contains("exclusive=1 (EXOKAY=1)"),
        "{}",
        c.summary()
    );
}

#[test]
fn address_wider_than_64_bits_is_rejected() {
    let err = Axi3Checker::on_build(96, 96, 32, None).err().unwrap();
    assert!(err.message().contains("64-bit address limit"));
}

#[test]
fn axi3_timeout_is_reported_once() {
    let mut sim = Sim::new();
    let mut c = Axi3Checker::on_build(32, 32, 32, Some(2)).unwrap();
    sim.axi.arvalid = bits(1, 1);
    for _ in 0..9 {
        sim.clock(&mut c);
    }
    assert_eq!(
        sim.failures(),
        ["cycle 3: AXI3 AR: no READY within 2 cycles (timeout)"]
    );
}

#[test]
fn axi3_responses_are_tracked_per_id() {
    let mut sim = Sim::new();
    let mut c = Axi3Checker::on_build(32, 32, 32, None).unwrap();
    aw(&mut sim, &mut c, 1, 0);
    aw(&mut sim, &mut c, 2, 0);
    w_beat(&mut sim, &mut c, 2, true);
    w_beat(&mut sim, &mut c, 1, true);
    for id in [2, 1] {
        sim.axi.bvalid = bits(1, 1);
        sim.axi.bready = bits(1, 1);
        sim.axi.bid = bits(id, 4);
        sim.clock(&mut c);
    }
    assert!(!sim.failed());
    assert_eq!(c.beats(), 2);
    sim.axi.bid = bits(1, 4);
    sim.clock(&mut c);
    assert_eq!(
        sim.failures(),
        ["cycle 7: AXI3 B: BID 1 has no outstanding write"]
    );
}

#[test]
fn axi3_exclusive_rules_are_checked() {
    for (len, size, addr, what) in [
        (2, 2, 0x40, "AXI3 AR: exclusive length 3 is not a power of two"),
        (15, 4, 0x100, "AXI3 AR: exclusive burst of 256 bytes exceeds 128"),
        (3, 2, 0x44, "AXI3 AR: exclusive address 0x44 not aligned to 16"),
    ] {
        let mut sim = Sim::new();
        let mut c = Axi3Checker::on_build(32, 32, 128, None).unwrap();
        sim.axi.arvalid = bits(1, 1);
        sim.axi.arready = bits(1, 1);
        sim.axi.araddr = bits(addr, 32);
        sim.axi.arlen = bits(len, 4);
        sim.axi.arsize = bits(size, 3);
        sim.axi.arburst = bits(1, 2);
        sim.axi.arlock = bits(1, 2);
        sim.clock(&mut c);
        assert_eq!(sim.failures(), [format!("cycle 1: {what}")]);
    }
}

#[test]
fn axi3_burst_rules_are_checked() {
    for (kind, len, addr, what) in [
        (3, 0, 0x40, "AXI3 AW: reserved BURST type 3"),
        (2, 3, 0x42, "AXI3 AW: WRAP address 0x42 not size-aligned"),
        (2, 2, 0x40, "AXI3 AW: WRAP length 3 is not 2/4/8/16"),
        (1, 1, 0xffc, "AXI3 AW: INCR burst crosses a 4 KiB boundary"),
        (0, 16, 0x40, "AXI3 AW: 17 beats exceeds the 16-beat limit"),
    ] {
        let mut sim = Sim::new();
        let mut c = Axi3Checker::on_build(32, 32, 32, None).unwrap();
        sim.axi.awvalid = bits(1, 1);
        sim.axi.awready = bits(1, 1);
        sim.axi.awaddr = bits(addr, 32);
        sim.axi.awlen = bits(len, 8);
        sim.axi.awsize = bits(2, 3);
        sim.axi.awburst = bits(kind, 2);
        sim.clock(&mut c);
        assert_eq!(sim.failures(), [format!("cycle 1: {what}")]);
    }
}

#[test]
fn axi3_read_length_and_exokay_are_checked() {
    let mut sim = Sim::new();
    let mut c = Axi3Checker::on_build(32, 32, 32, None).unwrap();
    sim.axi.arvalid = bits(1, 1);
    sim.axi.arready = bits(1, 1);
    sim.axi.arlen = bits(3, 4);
    sim.axi.arsize = bits(2, 3);
    sim.axi.arburst = bits(1, 2);
    sim.axi.arid = bits(5, 4);
    sim.clock(&mut c);
    sim.axi.arvalid = bits(0, 1);
    sim.axi.rvalid = bits(1, 1);
    sim.axi.rready = bits(1, 1);
    sim.axi.rid = bits(5, 4);
    sim.axi.rresp = bits(EXOKAY, 2);
    sim.clock(&mut c);
    sim.axi.rlast = bits(1, 1);
    sim.clock(&mut c);
    assert_eq!(
        sim.failures(),
        [
            "cycle 2: AXI3 R id 5: EXOKAY on a non-exclusive read",
            "cycle 3: AXI3 R id 5: RLAST after 2 beats, expected 4",
            "cycle 3: AXI3 R id 5: EXOKAY on a non-exclusive read"
        ]
    );
}

#[test]
fn axi3_summary_counts_what_was_seen() {
    let mut sim = Sim::new();
    let mut c = Axi3Checker::on_build(32, 32, 32, None).unwrap();
    aw(&mut sim, &mut c, 3, 1);
    w_beat(&mut sim, &mut c, 3, false);
    w_beat(&mut sim, &mut c, 3, true);
    sim.axi.bvalid = bits(1, 1);
    sim.axi.bid = bits(3, 4);
    sim.clock(&mut c);
    sim.axi.bready = bits(1, 1);
    sim.clock(&mut c);
    assert!(!sim.failed());
    assert_eq!(
        c.summary(),
        "AXI3 checker: 1 write(s), 0 read(s), 2 beat(s); burst fixed=0 incr=1 wrap=0; \
         exclusive=0 (EXOKAY=0); resp okay=1 slverr=0 decerr=0; max len=1; sizes=0x4; \
         write latency min/avg/max=4/4/4; read latency min/avg/max=0/0/0; max stall=1 cyc"
    );
}

#[test]
fn axi3_exokay_on_every_beat_of_a_plain_read_fails() {
    let mut sim = Sim::new();
    let mut c = Axi3Checker::on_build(32, 32, 32, None).unwrap();
    sim.axi.arvalid = bits(1, 1);
    sim.axi.arready = bits(1, 1);
    sim.axi.araddr = bits(0x40, 32);
    sim.axi.arlen = bits(1, 4);
    sim.axi.arsize = bits(2, 3);
    sim.axi.arburst = bits(1, 2);
    sim.axi.arid = bits(1, 4);
    sim.clock(&mut c);
    sim.axi.arvalid = bits(0, 1);
    sim.axi.rvalid = bits(1, 1);
    sim.axi.rready = bits(1, 1);
    sim.axi.rid = bits(1, 4);
    sim.axi.rresp = bits(EXOKAY, 2);
    sim.clock(&mut c);
    assert_eq!(sim.failures().len(), 1);
    assert!(sim.failures()[0].contains("non-exclusive"));
    sim.axi.rresp = bits(0, 2);
    sim.axi.rlast = bits(1, 1);
    sim.clock(&mut c);
    assert_eq!(sim.failures().len(), 1);
}

#[test]
fn axi3_wlast_is_counted_over_earlier_bursts_of_the_id() {
    let mut sim = Sim::new();
    let mut c = Axi3Checker::on_build(32, 32, 32, None).unwrap();
    aw(&mut sim, &mut c, 1, 1);
    aw(&mut sim, &mut c, 2, 0);
    aw(&mut sim, &mut c, 1, 2);
    w_beat(&mut sim, &mut c, 1, false);
    w_beat(&mut sim, &mut c, 2, true);
    w_beat(&mut sim, &mut c, 1, true);
    w_beat(&mut sim, &mut c, 1, false);
    w_beat(&mut sim, &mut c, 1, false);
    w_beat(&mut sim, &mut c, 1, false);
    assert!(!sim.failed());
    // The second burst of ID 1 has three beats, and this is its fourth.
    w_beat(&mut sim, &mut c, 1, true);
    assert_eq!(
        sim.failures(),
        ["cycle 10: AXI3 W id 1: WLAST after 4 beats, expected 3"]
    );
}

#[test]
fn axi3_responses_to_requests_before_a_reset_are_reported() {
    let mut sim = Sim::new();
    let mut c = Axi3Checker::on_build(32, 32, 32, None).unwrap();
    aw(&mut sim, &mut c, 7, 0);
    w_beat(&mut sim, &mut c, 7, true);
    sim.axi.arvalid = bits(1, 1);
    sim.axi.arready = bits(1, 1);
    sim.axi.arid = bits(5, 4);
    sim.axi.arsize = bits(2, 3);
    sim.axi.arburst = bits(1, 2);
    sim.clock(&mut c);
    sim.axi.arvalid = bits(0, 1);
    sim.rst = bits(1, 1);
    sim.clock(&mut c);
    sim.rst = bits(0, 1);
    assert!(!sim.failed());
    sim.axi.bvalid = bits(1, 1);
    sim.axi.bready = bits(1, 1);
    sim.axi.bid = bits(7, 4);
    sim.axi.rvalid = bits(1, 1);
    sim.axi.rready = bits(1, 1);
    sim.axi.rid = bits(5, 4);
    sim.axi.rlast = bits(1, 1);
    sim.clock(&mut c);
    assert_eq!(
        sim.failures(),
        [
            "cycle 5: AXI3 R: RID 5 has no outstanding read",
            "cycle 5: AXI3 B: BID 7 has no outstanding write",
        ]
    );
}
