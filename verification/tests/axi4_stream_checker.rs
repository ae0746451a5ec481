use vip::axi4_stream::{Axi4StreamChecker, AxiStreamMonitorPorts};
use vip::common::report::fail_at;
use vip::value::Value;

/// A `width`-bit value without X or Z bits.
fn bits(v: u64, width: u32) -> Value {
    Value::Bits {
        words: vec![v],
        mask_xz: vec![0],
        width,
    }
}

/// A `width`-bit value whose bit 0 is X.
fn x_bit(width: u32) -> Value {
    Value::Bits {
        words: vec![0],
        mask_xz: vec![1],
        width,
    }
}

/// The bus as the component under test sees it.
struct Sim {
    rst: Value,
    axi: AxiStreamMonitorPorts,
    cycle: u64,
    failures: Vec<String>,
    four_state: bool,
}

impl Sim {
    fn new() -> Sim {
        Sim {
            rst: bits(0, 1),
            axi: AxiStreamMonitorPorts {
                tvalid: bits(0, 1),
                tready: bits(0, 1),
                tdata: bits(0, 32),
                tstrb: bits(0, 4),
                tkeep: bits(0, 4),
                tlast: bits(0, 1),
                tid: bits(0, 4),
                tdest: bits(0, 2),
                tuser: bits(0, 5),
            },
            cycle: 0,
            failures: Vec::new(),
            four_state: false,
        }
    }

    fn four_state() -> Sim {
        Sim {
            four_state: true,
            ..Sim::new()
        }
    }

    fn clock(&mut self, c: &mut Axi4StreamChecker) {
        self.cycle += 1;
        assert!(c.in_range(&self.rst, &self.axi));
        for f in c.on_clock(&self.rst, &self.axi, self.four_state) {
            self.failures.push(fail_at(self.cycle, &f.message()));
        }
    }

    fn failed(&self) -> bool {
        !self.failures.is_empty()
    }

    fn failures(&self) -> &[String] {
        &self.failures
    }
}

#[test]
fn legal_stream_passes() {
    let mut sim = Sim::new();
    let mut c = Axi4StreamChecker::on_build(None);
    sim.rst = bits(0, 1);
    // A stalled-but-stable beat (payload, including TLAST, held), then
    // the handshake.
    sim.axi.tvalid = bits(1, 1);
    sim.axi.tdata = bits(0xabc, 32);
    sim.axi.tkeep = bits(0xf, 4);
    sim.axi.tstrb = bits(0xf, 4);
    sim.axi.tlast = bits(1, 1);
    sim.clock(&mut c);
    sim.clock(&mut c);
    sim.axi.tready = bits(1, 1);
    sim.clock(&mut c);
    sim.axi.tvalid = bits(0, 1);
    sim.clock(&mut c);
    assert!(!sim.failed(), "unexpected: {:?}", sim.failures());
}

#[test]
fn tvalid_dropped_before_tready_fails() {
    let mut sim = Sim::new();
    let mut c = Axi4StreamChecker::on_build(None);
    sim.rst = bits(0, 1);
    sim.axi.tvalid = bits(1, 1);
    sim.axi.tdata = bits(0xabc, 32);
    sim.clock(&mut c);
    sim.axi.tvalid = bits(0, 1); // dropped without TREADY
    sim.clock(&mut c);
    assert!(
        sim.failures()
            .iter()
            .any(|f| f.contains("VALID deasserted"))
    );
}

#[test]
fn checker_payload_change_while_stalled_fails() {
    let mut sim = Sim::new();
    let mut c = Axi4StreamChecker::on_build(None);
    sim.rst = bits(0, 1);
    sim.axi.tvalid = bits(1, 1);
    sim.axi.tdata = bits(0x111, 32);
    sim.clock(&mut c);
    sim.axi.tdata = bits(0x222, 32); // changed while stalled
    sim.clock(&mut c);
    assert!(sim.failures().iter().any(|f| f.contains("payload changed")));
}

#[test]
fn coverage_is_reported() {
    let mut sim = Sim::new();
    let mut c = Axi4StreamChecker::on_build(None);
    sim.rst = bits(0, 1);
    sim.axi.tvalid = bits(1, 1);
    sim.axi.tready = bits(1, 1);
    sim.axi.tdata = bits(0x1, 32);
    sim.axi.tkeep = bits(0xf, 4);
    sim.axi.tlast = bits(1, 1);
    sim.clock(&mut c);
    let summary = c.summary();
    assert!(summary.contains("1 beat(s)"), "{summary}");
    assert!(summary.contains("1 packet(s)"), "{summary}");
    assert!(summary.contains("keep lanes=0xf"), "{summary}");
}

// --- AMBA compliance: directed rule tests ---

#[test]
fn directed_tvalid_high_during_reset_fails() {
    let mut sim = Sim::new();
    let mut c = Axi4StreamChecker::on_build(None);
    sim.rst = bits(1, 1);
    sim.axi.tvalid = bits(1, 1);
    sim.clock(&mut c);
    assert!(
        sim.failures()
            .iter()
            .any(|f| f.contains("TVALID must be low during reset"))
    );
}

#[test]
fn directed_payload_x_while_tvalid_fails() {
    let mut sim = Sim::four_state();
    let mut c = Axi4StreamChecker::on_build(None);
    sim.rst = bits(0, 1);
    sim.axi.tvalid = bits(1, 1);
    sim.axi.tdata = x_bit(32);
    sim.clock(&mut c);
    assert!(
        sim.failures()
            .iter()
            .any(|f| f.contains("X/Z while TVALID"))
    );
}

#[test]
fn stream_directed_control_line_x_fails() {
    let mut sim = Sim::four_state();
    let mut c = Axi4StreamChecker::on_build(None);
    sim.rst = bits(0, 1);
    sim.axi.tvalid = x_bit(1);
    sim.clock(&mut c);
    assert!(
        sim.failures()
            .iter()
            .any(|f| f.contains("TVALID/TREADY is X/Z"))
    );
}

#[test]
fn checker_directed_stall_beyond_timeout_fails() {
    let mut sim = Sim::new();
    let mut c = Axi4StreamChecker::on_build(Some(4));
    sim.rst = bits(0, 1);
    sim.axi.tvalid = bits(1, 1);
    sim.axi.tdata = bits(0xabc, 32);
    sim.axi.tkeep = bits(0xf, 4);
    for _ in 0..8 {
        sim.clock(&mut c);
    }
    assert!(sim.failures().iter().any(|f| f.contains("timeout")));
}

#[test]
fn stream_timeout_is_reported_once() {
    let mut sim = Sim::new();
    let mut c = Axi4StreamChecker::on_build(Some(2));
    sim.axi.tvalid = bits(1, 1);
    for _ in 0..8 {
        sim.clock(&mut c);
    }
    assert_eq!(
        sim.failures(),
        ["cycle 3: AXI4-Stream: no TREADY within 2 cycles (timeout)"]
    );
}

#[test]
fn stream_floating_tvalid_hands_nothing_over() {
    let mut sim = Sim::new();
    let mut c = Axi4StreamChecker::on_build(None);
    sim.axi.tvalid = Value::Bits {
        words: vec![1],
        mask_xz: vec![1],
        width: 1,
    };
    sim.axi.tready = bits(1, 1);
    sim.clock(&mut c);
    assert!(!sim.failed());
    assert_eq!(c.beats(), 0);
}

#[test]
fn stream_summary_counts_what_was_seen() {
    let mut sim = Sim::new();
    let mut c = Axi4StreamChecker::on_build(None);
    sim.axi.tvalid = bits(1, 1);
    sim.axi.tkeep = bits(0x3, 4);
    sim.axi.tstrb = bits(0x1, 4);
    sim.axi.tlast = bits(1, 1);
    sim.clock(&mut c);
    sim.clock(&mut c);
    sim.axi.tready = bits(1, 1);
    sim.clock(&mut c);
    assert!(!sim.failed());
    assert_eq!(
        c.summary(),
        "AXI4-Stream checker: 1 beat(s), 1 packet(s); keep lanes=0x3, strb lanes=0x1; \
         max stall=2 cyc"
    );
}

#[test]
fn stream_user_bits_are_ignored() {
    let mut sim = Sim::new();
    let mut c = Axi4StreamChecker::on_build(None);
    sim.axi.tvalid = bits(1, 1);
    sim.axi.tuser = bits(1, 5);
    sim.clock(&mut c);
    sim.axi.tuser = bits(2, 5);
    sim.clock(&mut c);
    assert!(!sim.failed(), "unexpected: {:?}", sim.failures());
}
