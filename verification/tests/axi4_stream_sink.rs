use vip::axi4_stream::{Axi4StreamSink, AxiStreamReceiverPorts};
use vip::common::report::fail_at;
use vip::common::words::number;
use vip::value::Value;

/// A `width`-bit value without X or Z bits.
fn bits(v: u64, width: u32) -> Value {
    Value::Bits {
        words: vec![v],
        mask_xz: vec![0],
        width,
    }
}

/// A 64-bit argument.
fn word(v: u64) -> Value {
    bits(v, 64)
}

/// The bus as the component under test sees it.
struct Sim {
    rst: Value,
    axi: AxiStreamReceiverPorts,
    cycle: u64,
    failures: Vec<String>,
}

impl Sim {
    fn new() -> Sim {
        Sim {
            rst: bits(0, 1),
            axi: AxiStreamReceiverPorts {
                tvalid: bits(0, 1),
                tready: false,
                tdata: vec![0],
                tlast: bits(0, 1),
            },
            cycle: 0,
            failures: Vec::new(),
        }
    }

    fn clock(&mut self, c: &mut Axi4StreamSink) {
        self.cycle += 1;
        assert!(c.in_range(&self.rst, &self.axi));
        if let Some(f) = c.on_clock(&self.rst, &mut self.axi) {
            self.failures.push(fail_at(self.cycle, &f.message()));
        }
    }

    fn failed(&self) -> bool {
        !self.failures.is_empty()
    }

    fn failures(&self) -> &[String] {
        &self.failures
    }
}

/// Drives one beat from the source side and clocks once.
fn send_beat(sim: &mut Sim, c: &mut Axi4StreamSink, data: u64, last: bool) {
    sim.axi.tvalid = bits(1, 1);
    sim.axi.tdata = vec![data];
    sim.axi.tlast = bits(u64::from(last), 1);
    sim.clock(c);
    sim.axi.tvalid = bits(0, 1);
}

#[test]
fn receives_and_counts_packets() {
    let mut sim = Sim::new();
    let mut c = Axi4StreamSink::on_build(32, None, 0);
    sim.rst = bits(0, 1);
    sim.clock(&mut c); // TREADY asserts
    send_beat(&mut sim, &mut c, 0x11, false);
    send_beat(&mut sim, &mut c, 0x22, true);
    assert_eq!(number(&c.recv().unwrap()), 0x11);
    assert_eq!(number(&c.recv().unwrap()), 0x22);
    assert_eq!(c.packets(), 1);
}

#[test]
fn expect_fails_on_mismatch() {
    let mut sim = Sim::new();
    let mut c = Axi4StreamSink::on_build(32, None, 0);
    sim.rst = bits(0, 1);
    sim.clock(&mut c);
    c.expect(&word(0x11)).unwrap();
    send_beat(&mut sim, &mut c, 0xdead, false);
    assert!(sim.failures().iter().any(|f| f.contains("expected")));
}

#[test]
fn expect_passes_on_match() {
    let mut sim = Sim::new();
    let mut c = Axi4StreamSink::on_build(32, None, 0);
    sim.rst = bits(0, 1);
    sim.clock(&mut c);
    c.expect(&word(0x11)).unwrap();
    send_beat(&mut sim, &mut c, 0x11, false);
    assert!(!sim.failed(), "unexpected: {:?}", sim.failures());
}
