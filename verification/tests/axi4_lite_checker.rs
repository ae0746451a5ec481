use vip::axi4_lite::{Axi4LiteChecker, Axi4LiteMonitorPorts};
use vip::common::report::fail_at;
use vip::common::resp::{EXOKAY, SLVERR};
use vip::value::Value;

/// A `width`-bit value without X or Z bits.
fn bits(v: u64, width: u32) -> Value {
    Value::Bits {
        words: vec![v],
        mask_xz: vec![0],
        width,
    }
}

/// A `width`-bit value whose bit 0 is X.
fn x_bit(width: u32) -> Value {
    Value::Bits {
        words: vec![0],
        mask_xz: vec![1],
        width,
    }
}

/// A checker of a 32-bit bus.
fn build(timeout: Option<u64>, liveness: Option<u64>) -> Axi4LiteChecker {
    Axi4LiteChecker::on_build(32, 32, 32, timeout, liveness).unwrap()
}

/// The bus as the component under test sees it.
struct Sim {
    rst: Value,
    axi: Axi4LiteMonitorPorts,
    cycle: u64,
    failures: Vec<String>,
    four_state: bool,
}

impl Sim {
    fn new() -> Sim {
        Sim {
            rst: bits(0, 1),
            axi: Axi4LiteMonitorPorts {
                awvalid: bits(0, 1),
                awready: bits(0, 1),
                awaddr: bits(0, 32),
                awprot: bits(0, 3),
                wvalid: bits(0, 1),
                wready: bits(0, 1),
                wdata: bits(0, 32),
                wstrb: bits(0, 4),
                bvalid: bits(0, 1),
                bready: bits(0, 1),
                bresp: bits(0, 2),
                arvalid: bits(0, 1),
                arready: bits(0, 1),
                araddr: bits(0, 32),
                arprot: bits(0, 3),
                rvalid: bits(0, 1),
                rready: bits(0, 1),
                rdata: bits(0, 32),
                rresp: bits(0, 2),
            },
            cycle: 0,
            failures: Vec::new(),
            four_state: false,
        }
    }

    fn four_state() -> Sim {
        Sim {
            four_state: true,
            ..Sim::new()
        }
    }

    fn clock(&mut self, c: &mut Axi4LiteChecker) {
        self.cycle += 1;
        assert!(c.in_range(&self.rst, &self.axi, self.cycle));
        for f in c.on_clock(&self.rst, &self.axi, self.four_state, self.cycle) {
            self.failures.push(fail_at(self.cycle, &f.message()));
        }
    }

    fn failed(&self) -> bool {
        !self.failures.is_empty()
    }

    fn failures(&self) -> &[String] {
        &self.failures
    }
}

#[test]
fn legal_write_handshake_passes() {
    let mut sim = Sim::new();
    let mut c = build(None, None);
    sim.rst = bits(0, 1);

    sim.axi.awvalid = bits(1, 1);
    sim.axi.awaddr = bits(0x10, 32);
    sim.axi.wvalid = bits(1, 1);
    sim.axi.wdata = bits(0xdead, 32);
    sim.axi.wstrb = bits(0xf, 4);
    sim.clock(&mut c);
    sim.clock(&mut c);
    sim.axi.awready = bits(1, 1);
    sim.axi.wready = bits(1, 1);
    sim.clock(&mut c);

    sim.axi.awvalid = bits(0, 1);
    sim.axi.wvalid = bits(0, 1);
    sim.axi.awready = bits(0, 1);
    sim.axi.wready = bits(0, 1);
    sim.axi.bvalid = bits(1, 1);
    sim.axi.bready = bits(1, 1);
    sim.clock(&mut c);
    sim.axi.bvalid = bits(0, 1);
    sim.clock(&mut c);

    assert!(!sim.failed(), "unexpected failures: {:?}", sim.failures());
}

#[test]
fn valid_dropped_before_ready_fails() {
    let mut sim = Sim::new();
    let mut c = build(None, None);
    sim.rst = bits(0, 1);
    sim.axi.awvalid = bits(1, 1);
    sim.axi.awaddr = bits(0x10, 32);
    sim.clock(&mut c);
    sim.axi.awvalid = bits(0, 1);
    sim.clock(&mut c);
    assert!(
        sim.failures()
            .iter()
            .any(|f| f.contains("AW") && f.contains("VALID deasserted"))
    );
}

#[test]
fn payload_change_while_stalled_fails() {
    let mut sim = Sim::new();
    let mut c = build(None, None);
    sim.rst = bits(0, 1);
    sim.axi.awvalid = bits(1, 1);
    sim.axi.awaddr = bits(0x10, 32);
    sim.clock(&mut c);
    sim.axi.awaddr = bits(0x20, 32);
    sim.clock(&mut c);
    assert!(sim.failures().iter().any(|f| f.contains("payload changed")));
}

#[test]
fn exokay_response_is_rejected() {
    let mut sim = Sim::new();
    let mut c = build(None, None);
    sim.rst = bits(0, 1);
    sim.axi.bvalid = bits(1, 1);
    sim.axi.bresp = bits(EXOKAY, 2);
    sim.clock(&mut c);
    assert!(sim.failures().iter().any(|f| f.contains("EXOKAY")));
}

#[test]
fn response_without_request_fails() {
    let mut sim = Sim::new();
    let mut c = build(None, None);
    sim.rst = bits(0, 1);
    sim.axi.bvalid = bits(1, 1);
    sim.axi.bready = bits(1, 1);
    sim.clock(&mut c);
    assert!(
        sim.failures()
            .iter()
            .any(|f| f.contains("no outstanding write"))
    );
}

#[test]
fn valid_high_during_reset_fails() {
    let mut sim = Sim::new();
    let mut c = build(None, None);
    sim.rst = bits(1, 1);
    sim.axi.awvalid = bits(1, 1);
    sim.clock(&mut c);
    assert!(
        sim.failures()
            .iter()
            .any(|f| f.contains("AWVALID") && f.contains("during reset"))
    );
}

#[test]
fn stall_beyond_timeout_fails() {
    let mut sim = Sim::new();
    let mut c = build(Some(3), None);
    sim.rst = bits(0, 1);
    sim.axi.awvalid = bits(1, 1);
    sim.axi.awaddr = bits(0x10, 32);
    for _ in 0..5 {
        sim.clock(&mut c);
    }
    assert!(sim.failures().iter().any(|f| f.contains("timeout")));
}

#[test]
fn unaligned_address_fails() {
    let mut sim = Sim::new();
    let mut c = build(None, None);
    sim.rst = bits(0, 1);
    // 32-bit data => 4-byte alignment; 0x12 is unaligned.
    sim.axi.arvalid = bits(1, 1);
    sim.axi.arready = bits(1, 1);
    sim.axi.araddr = bits(0x12, 32);
    sim.clock(&mut c);
    assert!(sim.failures().iter().any(|f| f.contains("unaligned")));
}

#[test]
fn deadlock_trips_liveness() {
    let mut sim = Sim::new();
    let mut c = build(None, Some(4));
    sim.rst = bits(0, 1);
    // One read request accepted, then the bus goes silent (no R).
    sim.axi.arvalid = bits(1, 1);
    sim.axi.arready = bits(1, 1);
    sim.clock(&mut c);
    sim.axi.arvalid = bits(0, 1);
    sim.axi.arready = bits(0, 1);
    for _ in 0..6 {
        sim.clock(&mut c);
    }
    assert!(sim.failures().iter().any(|f| f.contains("deadlock")));
}

#[test]
fn failure_messages_carry_the_cycle() {
    let mut sim = Sim::new();
    let mut c = build(None, None);
    sim.rst = bits(0, 1);
    sim.axi.bvalid = bits(1, 1);
    sim.axi.bready = bits(1, 1);
    sim.clock(&mut c);
    assert!(sim.failures().iter().all(|f| f.starts_with("cycle ")));
}

#[test]
fn coverage_is_reported_at_finish() {
    let mut sim = Sim::new();
    let mut c = build(None, None);
    sim.rst = bits(0, 1);
    sim.axi.awvalid = bits(1, 1);
    sim.axi.awaddr = bits(0x40, 32);
    sim.axi.awready = bits(1, 1);
    sim.axi.wvalid = bits(1, 1);
    sim.axi.wready = bits(1, 1);
    sim.axi.wstrb = bits(0xf, 4);
    sim.clock(&mut c);
    sim.axi.awvalid = bits(0, 1);
    sim.axi.wvalid = bits(0, 1);
    sim.axi.bvalid = bits(1, 1);
    sim.axi.bready = bits(1, 1);
    sim.axi.bresp = bits(SLVERR, 2);
    sim.clock(&mut c);

    let summary = c.summary();
    assert!(summary.contains("1 write(s)"), "{summary}");
    assert!(summary.contains("slverr=1"), "{summary}");
    assert!(summary.contains("strobe lanes=0xf"), "{summary}");
    assert!(summary.contains("latency"), "{summary}");
}

// --- AMBA compliance: directed rule tests ---

#[test]
fn directed_read_exokay_rejected() {
    let mut sim = Sim::new();
    let mut c = build(None, None);
    sim.rst = bits(0, 1);
    sim.axi.rvalid = bits(1, 1);
    sim.axi.rresp = bits(EXOKAY, 2);
    sim.clock(&mut c);
    assert!(
        sim.failures()
            .iter()
            .any(|f| f.contains("R") && f.contains("EXOKAY"))
    );
}

#[test]
fn directed_read_response_without_request_fails() {
    let mut sim = Sim::new();
    let mut c = build(None, None);
    sim.rst = bits(0, 1);
    sim.axi.rvalid = bits(1, 1);
    sim.axi.rready = bits(1, 1);
    sim.clock(&mut c);
    assert!(
        sim.failures()
            .iter()
            .any(|f| f.contains("no outstanding read"))
    );
}

#[test]
fn checker_directed_payload_x_while_valid_fails() {
    let mut sim = Sim::four_state();
    let mut c = build(None, None);
    sim.rst = bits(0, 1);
    sim.axi.awvalid = bits(1, 1);
    sim.axi.awaddr = x_bit(32);
    sim.clock(&mut c);
    assert!(sim.failures().iter().any(|f| f.contains("X/Z while VALID")));
}

#[test]
fn checker_directed_control_line_x_fails() {
    let mut sim = Sim::four_state();
    let mut c = build(None, None);
    sim.rst = bits(0, 1);
    sim.axi.awvalid = x_bit(1);
    sim.clock(&mut c);
    assert!(sim.failures().iter().any(|f| f.contains("AWVALID is X/Z")));
}

#[test]
fn reset_clears_outstanding_no_phantom_deadlock() {
    let mut sim = Sim::new();
    let mut c = build(None, Some(3));
    sim.rst = bits(0, 1);
    // A write's AW and W handshake, but its B never arrives.
    sim.axi.awvalid = bits(1, 1);
    sim.axi.awready = bits(1, 1);
    sim.axi.awaddr = bits(0x10, 32);
    sim.axi.wvalid = bits(1, 1);
    sim.axi.wready = bits(1, 1);
    sim.axi.wstrb = bits(0xf, 4);
    sim.clock(&mut c);
    // Reset drops the in-flight write (all VALIDs low during reset).
    sim.axi.awvalid = bits(0, 1);
    sim.axi.wvalid = bits(0, 1);
    sim.axi.awready = bits(0, 1);
    sim.axi.wready = bits(0, 1);
    sim.rst = bits(1, 1);
    sim.clock(&mut c);
    sim.rst = bits(0, 1);
    // The bus idles well past the liveness limit; without clearing the
    // outstanding counters this would trip a false deadlock.
    for _ in 0..6 {
        sim.clock(&mut c);
    }
    assert!(!sim.failed(), "unexpected failures: {:?}", sim.failures());
}

#[test]
fn checker_address_wider_than_64_bits_is_rejected() {
    let err = Axi4LiteChecker::on_build(96, 96, 32, None, None).err().unwrap();
    assert!(err.message().contains("64-bit address limit"));
}

/// A `width`-bit value whose bit 0 is Z.
fn z_bit(width: u32) -> Value {
    Value::Bits {
        words: vec![1],
        mask_xz: vec![1],
        width,
    }
}

#[test]
fn lite_deadlock_is_reported_once() {
    let mut sim = Sim::new();
    let mut c = build(None, Some(4));
    sim.axi.arvalid = bits(1, 1);
    sim.axi.arready = bits(1, 1);
    sim.clock(&mut c);
    sim.axi.arvalid = bits(0, 1);
    sim.axi.arready = bits(0, 1);
    for _ in 0..4 {
        sim.clock(&mut c);
    }
    assert!(!sim.failed());
    for _ in 0..20 {
        sim.clock(&mut c);
    }
    assert_eq!(
        sim.failures(),
        ["cycle 6: AXI4-Lite: bus idle for 4 cycles with work outstanding (deadlock)"]
    );
    assert_eq!(c.outstanding(), 1);
}

#[test]
fn lite_timeout_is_reported_once() {
    let mut sim = Sim::new();
    let mut c = build(Some(3), None);
    sim.axi.wvalid = bits(1, 1);
    for _ in 0..12 {
        sim.clock(&mut c);
    }
    assert_eq!(
        sim.failures(),
        ["cycle 4: AXI4-Lite W: no READY within 3 cycles (timeout)"]
    );
    assert!(c.summary().contains("max stall=12 cyc"));
}

#[test]
fn lite_floating_valid_is_not_high() {
    let mut sim = Sim::new();
    let mut c = build(None, None);
    sim.axi.bvalid = z_bit(1);
    sim.axi.bready = bits(1, 1);
    sim.clock(&mut c);
    assert!(!sim.failed());
    assert!(c.summary().starts_with("AXI4-Lite checker: 0 write(s), 0 read(s);"));
}

#[test]
fn lite_floating_valid_is_reported_in_a_four_state_run() {
    let mut sim = Sim::four_state();
    let mut c = build(None, None);
    sim.axi.bvalid = z_bit(1);
    sim.clock(&mut c);
    assert_eq!(sim.failures(), ["cycle 1: AXI4-Lite: BVALID is X/Z"]);
}

#[test]
fn lite_summary_counts_what_was_seen() {
    let mut sim = Sim::new();
    let mut c = build(None, None);
    sim.axi.awvalid = bits(1, 1);
    sim.axi.awready = bits(1, 1);
    sim.axi.awaddr = bits(0x40, 32);
    sim.axi.wvalid = bits(1, 1);
    sim.axi.wready = bits(1, 1);
    sim.axi.wstrb = bits(0, 4);
    sim.axi.arvalid = bits(1, 1);
    sim.axi.arready = bits(1, 1);
    sim.axi.araddr = bits(0x10, 32);
    sim.clock(&mut c);
    sim.axi.awvalid = bits(0, 1);
    sim.axi.wvalid = bits(0, 1);
    sim.axi.arvalid = bits(0, 1);
    sim.clock(&mut c);
    sim.axi.bvalid = bits(1, 1);
    sim.axi.bready = bits(1, 1);
    sim.axi.bresp = bits(3, 2);
    sim.clock(&mut c);
    sim.axi.bvalid = bits(0, 1);
    sim.axi.rvalid = bits(1, 1);
    sim.axi.rready = bits(1, 1);
    sim.clock(&mut c);
    assert!(!sim.failed());
    assert_eq!(
        c.summary(),
        "AXI4-Lite checker: 1 write(s), 1 read(s); resp okay=1 slverr=0 decerr=1; \
         addr [0x10..=0x40] (2 distinct); strobe lanes=0x0, 1 no-op write(s); \
         max outstanding=2; max stall=0 cyc; write latency min/avg/max=2/2/2; \
         read latency min/avg/max=3/3/3"
    );
}

#[test]
fn lite_every_channel_must_be_low_in_reset() {
    let mut sim = Sim::new();
    let mut c = build(None, None);
    sim.rst = bits(1, 1);
    sim.axi.awvalid = bits(1, 1);
    sim.axi.wvalid = bits(1, 1);
    sim.axi.bvalid = bits(1, 1);
    sim.axi.arvalid = bits(1, 1);
    sim.axi.rvalid = bits(1, 1);
    sim.clock(&mut c);
    assert_eq!(sim.failures().len(), 5);
    sim.rst = bits(0, 1);
    sim.axi = Sim::new().axi;
    sim.clock(&mut c);
    assert_eq!(sim.failures().len(), 5);
}

#[test]
fn lite_prot_is_ignored() {
    let mut sim = Sim::four_state();
    let mut c = build(None, None);
    sim.axi.awvalid = bits(1, 1);
    sim.axi.awaddr = bits(0x10, 32);
    sim.axi.arvalid = bits(1, 1);
    sim.clock(&mut c);
    sim.axi.awprot = bits(1, 3);
    sim.axi.arprot = Value::Bits {
        words: vec![0],
        mask_xz: vec![1],
        width: 3,
    };
    sim.clock(&mut c);
    assert!(!sim.failed(), "unexpected: {:?}", sim.failures());
}
