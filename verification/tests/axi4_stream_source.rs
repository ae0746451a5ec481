use vip::axi4_stream::{Axi4StreamSource, AxiStreamTransmitterPorts};
use vip::value::Value;

/// A `width`-bit value without X or Z bits.
fn bits(v: u64, width: u32) -> Value {
    Value::Bits {
        words: vec![v],
        mask_xz: vec![0],
        width,
    }
}

/// A 64-bit argument.
fn word(v: u64) -> Value {
    bits(v, 64)
}

/// The bus as the component under test sees it.
struct Sim {
    rst: Value,
    axi: AxiStreamTransmitterPorts,
}

impl Sim {
    fn new() -> Sim {
        Sim {
            rst: bits(0, 1),
            axi: AxiStreamTransmitterPorts {
                tvalid: false,
                tready: bits(0, 1),
                tdata: vec![0],
                tstrb: vec![0],
                tkeep: vec![0],
                tlast: false,
                tid: 0,
                tdest: 0,
                tuser: 0,
            },
        }
    }

    fn clock(&mut self, c: &mut Axi4StreamSource) {
        c.on_clock(&self.rst, &mut self.axi);
    }
}

#[test]
fn drives_beats_with_tlast() {
    let mut sim = Sim::new();
    let mut c = Axi4StreamSource::on_build(32, None, 0);
    sim.rst = bits(0, 1);
    c.send(&word(0x11)).unwrap();
    c.send_last(&word(0x22)).unwrap();

    sim.axi.tready = bits(1, 1);
    sim.clock(&mut c); // present first beat
    assert!(sim.axi.tvalid);
    assert_eq!(sim.axi.tdata[0], 0x11);
    assert!(!sim.axi.tlast);
    assert_eq!(sim.axi.tkeep[0], 0xf);

    sim.clock(&mut c); // first accepted, present last beat
    assert_eq!(sim.axi.tdata[0], 0x22);
    assert!(sim.axi.tlast);

    sim.clock(&mut c); // last accepted -> idle
    assert!(!sim.axi.tvalid);
    assert_eq!(c.idle(), 1);
}

#[test]
fn holds_tvalid_until_tready() {
    let mut sim = Sim::new();
    let mut c = Axi4StreamSource::on_build(32, None, 0);
    sim.rst = bits(0, 1);
    c.send(&word(0x11)).unwrap();
    sim.axi.tready = bits(0, 1);
    sim.clock(&mut c);
    sim.clock(&mut c);
    // Still presenting the same beat while TREADY is low.
    assert!(sim.axi.tvalid);
    assert_eq!(sim.axi.tdata[0], 0x11);
}
