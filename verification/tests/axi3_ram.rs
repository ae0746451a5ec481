use vip::axi3::{Axi3Ram, Axi3SlavePorts};
use vip::axi4::RamConfig;
use vip::common::resp::{DECERR, SLVERR};
use vip::common::words::number;
use vip::value::Value;

/// A `width`-bit value without X or Z bits.
fn bits(v: u64, width: u32) -> Value {
    Value::Bits {
        words: vec![v],
        mask_xz: vec![0],
        width,
    }
}

/// A 64-bit argument.
fn word(v: u64) -> Value {
    bits(v, 64)
}

/// A 32-bit memory of `size` bytes.
fn config(size: Option<u64>) -> RamConfig {
    RamConfig {
        width: 32,
        stall: None,
        max_outstanding: None,
        size,
    }
}

/// The bus as the component under test sees it.
struct Sim {
    rst: Value,
    axi: Axi3SlavePorts,
}

impl Sim {
    fn new() -> Sim {
        Sim {
            rst: bits(0, 1),
            axi: Axi3SlavePorts {
                awvalid: bits(0, 1),
                awready: false,
                awaddr: 0,
                awlen: 0,
                awsize: 0,
                awburst: 0,
                awid: 0,
                awlock: 0,
                wvalid: bits(0, 1),
                wready: false,
                wdata: vec![0],
                wstrb: vec![0],
                wlast: bits(0, 1),
                wid: 0,
                bvalid: false,
                bready: bits(0, 1),
                bresp: 0,
                bid: 0,
                arvalid: bits(0, 1),
                arready: false,
                araddr: 0,
                arlen: 0,
                arsize: 0,
                arburst: 0,
                arid: 0,
                arlock: 0,
                rvalid: false,
                rready: bits(0, 1),
                rdata: vec![0],
                rresp: 0,
                rid: 0,
                rlast: false,
            },
        }
    }

    fn clock(&mut self, c: &mut Axi3Ram) {
        assert!(c.in_range(&self.rst, &self.axi));
        c.on_clock(&self.rst, &mut self.axi);
    }
}

/// Drives one W beat with the given WID; returns whether WREADY was high.
fn w_beat(sim: &mut Sim, c: &mut Axi3Ram, wid: u64, data: u64, last: bool) -> bool {
    sim.axi.wvalid = bits(1, 1);
    sim.axi.wid = wid;
    sim.axi.wdata = vec![data];
    sim.axi.wstrb = vec![0xf];
    sim.axi.wlast = bits(u64::from(last), 1);
    let ready = sim.axi.wready;
    sim.clock(c);
    sim.axi.wvalid = bits(0, 1);
    ready
}

/// Presents an AW address phase and clocks until it is accepted.
fn aw(sim: &mut Sim, c: &mut Axi3Ram, id: u64, addr: u64, len: u64) {
    sim.axi.awvalid = bits(1, 1);
    sim.axi.awid = id;
    sim.axi.awaddr = addr;
    sim.axi.awlen = len;
    sim.axi.awsize = 2;
    sim.axi.awburst = 1;
    for _ in 0..10 {
        let hs = sim.axi.awready;
        sim.clock(c);
        if hs {
            break;
        }
    }
    sim.axi.awvalid = bits(0, 1);
}

#[test]
fn interleaved_write_data_routes_by_wid() {
    let mut sim = Sim::new();
    let mut c = Axi3Ram::on_build(32, 32, config(None), 0).unwrap();
    sim.rst = bits(0, 1);
    sim.axi.bready = bits(1, 1);

    // Two concurrent 2-beat writes, IDs 1 (@0x40) and 2 (@0x80).
    aw(&mut sim, &mut c, 1, 0x40, 1);
    aw(&mut sim, &mut c, 2, 0x80, 1);

    // Interleave their beats by WID: 1.0, 2.0, 1.1(last), 2.1(last).
    assert!(w_beat(&mut sim, &mut c, 1, 0xa0, false));
    assert!(w_beat(&mut sim, &mut c, 2, 0xb0, false));
    assert!(w_beat(&mut sim, &mut c, 1, 0xa1, true));
    assert!(w_beat(&mut sim, &mut c, 2, 0xb1, true));

    assert_eq!(number(&c.peek(0x40)), 0xa0);
    assert_eq!(number(&c.peek(0x44)), 0xa1);
    assert_eq!(number(&c.peek(0x80)), 0xb0);
    assert_eq!(number(&c.peek(0x84)), 0xb1);
}

#[test]
fn backdoor_poke_peek() {
    let mut c = Axi3Ram::on_build(32, 32, config(None), 0).unwrap();
    c.poke(0x40, &word(0x1234)).unwrap();
    assert_eq!(number(&c.peek(0x40)), 0x1234);
}

#[test]
fn injected_slverr_write_does_not_land() {
    let mut sim = Sim::new();
    let mut c = Axi3Ram::on_build(32, 32, config(None), 0).unwrap();
    sim.rst = bits(0, 1);
    sim.axi.bready = bits(1, 1);
    c.set_resp(0x40, SLVERR);
    aw(&mut sim, &mut c, 1, 0x40, 0);
    let mut bresp = 0;
    sim.axi.wvalid = bits(1, 1);
    sim.axi.wid = 1;
    sim.axi.wdata = vec![0xbad];
    sim.axi.wstrb = vec![0xf];
    sim.axi.wlast = bits(1, 1);
    for _ in 0..10 {
        let w_hs = sim.axi.wready;
        sim.clock(&mut c);
        if w_hs {
            sim.axi.wvalid = bits(0, 1);
        }
        if sim.axi.bvalid {
            bresp = sim.axi.bresp;
            break;
        }
    }
    assert_eq!(bresp, SLVERR);
    assert_eq!(number(&c.peek(0x40)), 0);
}

#[test]
fn decerr_past_size_on_read() {
    let mut sim = Sim::new();
    let mut c = Axi3Ram::on_build(32, 32, config(Some(0x100)), 0).unwrap();
    sim.rst = bits(0, 1);
    sim.axi.rready = bits(1, 1);
    sim.axi.arvalid = bits(1, 1);
    sim.axi.arid = 1;
    sim.axi.araddr = 0x200;
    sim.axi.arlen = 0;
    sim.axi.arsize = 2;
    sim.axi.arburst = 1;
    let mut rresp = 0;
    let mut ar_done = false;
    for _ in 0..10 {
        let ar_hs = !ar_done && sim.axi.arready;
        let r_hs = sim.axi.rvalid;
        sim.clock(&mut c);
        if ar_hs {
            ar_done = true;
            sim.axi.arvalid = bits(0, 1);
        }
        if r_hs {
            rresp = sim.axi.rresp;
            break;
        }
    }
    assert_eq!(rresp, DECERR);
}
