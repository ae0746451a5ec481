//! A master, a memory and a checker on one AXI3 bus.

use vip::axi3::{
    Axi3Checker, Axi3Master, Axi3MasterPorts, Axi3MonitorPorts, Axi3Ram, Axi3SlavePorts,
};
use vip::axi4::{MasterConfig, RamConfig};
use vip::common::words::number;
use vip::value::Value;

fn bits(words: Vec<u64>, width: u32) -> Value {
    let mask_xz = vec![0; words.len()];
    Value::Bits {
        words,
        mask_xz,
        width,
    }
}

fn bit(v: bool) -> Value {
    bits(vec![u64::from(v)], 1)
}

fn small(v: u64, width: u32) -> Value {
    bits(vec![v], width)
}

struct Bus {
    width: u32,
    master: Axi3Master,
    ram: Axi3Ram,
    checker: Axi3Checker,
    m: Axi3MasterPorts,
    s: Axi3SlavePorts,
    cycle: u64,
    failures: Vec<String>,
}

impl Bus {
    fn new(master: MasterConfig, ram: RamConfig) -> Bus {
        let width = master.width;
        let n = width.div_ceil(64) as usize;
        Bus {
            width,
            master: Axi3Master::on_build(32, 32, master, 9).unwrap(),
            ram: Axi3Ram::on_build(32, 32, ram, 10).unwrap(),
            checker: Axi3Checker::on_build(32, 32, width, Some(500)).unwrap(),
            m: Axi3MasterPorts {
                awvalid: false,
                awready: bit(false),
                awaddr: 0,
                awlen: 0,
                awsize: 0,
                awburst: 0,
                awid: 0,
                awlock: 0,
                wvalid: false,
                wready: bit(false),
                wdata: vec![0; n],
                wstrb: vec![0],
                wlast: false,
                wid: 0,
                bvalid: bit(false),
                bready: false,
                bresp: 0,
                bid: 0,
                arvalid: false,
                arready: bit(false),
                araddr: 0,
                arlen: 0,
                arsize: 0,
                arburst: 0,
                arid: 0,
                arlock: 0,
                rvalid: bit(false),
                rready: false,
                rdata: vec![0; n],
                rid: 0,
                rlast: bit(false),
            },
            s: Axi3SlavePorts {
                awvalid: bit(false),
                awready: false,
                awaddr: 0,
                awlen: 0,
                awsize: 0,
                awburst: 0,
                awid: 0,
                awlock: 0,
                wvalid: bit(false),
                wready: false,
                wdata: vec![0; n],
                wstrb: vec![0],
                wlast: bit(false),
                wid: 0,
                bvalid: false,
                bready: bit(false),
                bresp: 0,
                bid: 0,
                arvalid: bit(false),
                arready: false,
                araddr: 0,
                arlen: 0,
                arsize: 0,
                arburst: 0,
                arid: 0,
                arlock: 0,
                rvalid: false,
                rready: bit(false),
                rdata: vec![0; n],
                rresp: 0,
                rid: 0,
                rlast: false,
            },
            cycle: 0,
            failures: Vec::new(),
        }
    }

    fn seen(&self) -> Axi3MonitorPorts {
        let (m, s) = (&self.m, &self.s);
        Axi3MonitorPorts {
            awvalid: bit(m.awvalid),
            awready: bit(s.awready),
            awaddr: small(m.awaddr, 32),
            awlen: small(m.awlen, 4),
            awsize: small(m.awsize, 3),
            awburst: small(m.awburst, 2),
            awid: small(m.awid, 4),
            awlock: small(m.awlock, 2),
            wvalid: bit(m.wvalid),
            wready: bit(s.wready),
            wdata: bits(m.wdata.clone(), self.width),
            wstrb: bits(m.wstrb.clone(), self.width / 8),
            wlast: bit(m.wlast),
            wid: small(m.wid, 4),
            bvalid: bit(s.bvalid),
            bready: bit(m.bready),
            bresp: small(s.bresp, 2),
            bid: small(s.bid, 4),
            arvalid: bit(m.arvalid),
            arready: bit(s.arready),
            araddr: small(m.araddr, 32),
            arlen: small(m.arlen, 4),
            arsize: small(m.arsize, 3),
            arburst: small(m.arburst, 2),
            arid: small(m.arid, 4),
            arlock: small(m.arlock, 2),
            rvalid: bit(s.rvalid),
            rready: bit(m.rready),
            rdata: bits(s.rdata.clone(), self.width),
            rresp: small(s.rresp, 2),
            rid: small(s.rid, 4),
            rlast: bit(s.rlast),
        }
    }

    fn clock(&mut self, rst: bool) {
        let rst = bit(rst);
        self.cycle += 1;
        let seen = self.seen();
        let (m, s) = (&mut self.m, &mut self.s);
        s.awvalid = bit(m.awvalid);
        s.awaddr = m.awaddr;
        s.awlen = m.awlen;
        s.awsize = m.awsize;
        s.awburst = m.awburst;
        s.awid = m.awid;
        s.awlock = m.awlock;
        s.wvalid = bit(m.wvalid);
        s.wdata = m.wdata.clone();
        s.wstrb = m.wstrb.clone();
        s.wlast = bit(m.wlast);
        s.wid = m.wid;
        s.bready = bit(m.bready);
        s.arvalid = bit(m.arvalid);
        s.araddr = m.araddr;
        s.arlen = m.arlen;
        s.arsize = m.arsize;
        s.arburst = m.arburst;
        s.arid = m.arid;
        s.arlock = m.arlock;
        s.rready = bit(m.rready);
        m.awready = bit(s.awready);
        m.wready = bit(s.wready);
        m.bvalid = bit(s.bvalid);
        m.bresp = s.bresp;
        m.bid = s.bid;
        m.arready = bit(s.arready);
        m.rvalid = bit(s.rvalid);
        m.rdata = s.rdata.clone();
        m.rid = s.rid;
        m.rlast = bit(s.rlast);
        assert!(self.checker.in_range(&rst, &seen, self.cycle));
        for f in self.checker.on_clock(&rst, &seen, true, self.cycle) {
            self.failures.push(f.message());
        }
        assert!(self.master.in_range(&rst, &self.m));
        assert!(self.ram.in_range(&rst, &self.s));
        for f in self.master.on_clock(&rst, &mut self.m) {
            self.failures.push(f.message("AXI3"));
        }
        self.ram.on_clock(&rst, &mut self.s);
    }

    fn drain(&mut self) {
        for _ in 0..50000 {
            self.clock(false);
            if self.master.idle() == 1 {
                return;
            }
        }
        panic!("the master never became idle");
    }
}

fn master(width: u32) -> MasterConfig {
    MasterConfig {
        width,
        rwidth: width,
        id_width: 4,
        stall: None,
        max_outstanding: None,
    }
}

fn ram(width: u32) -> RamConfig {
    RamConfig {
        width,
        stall: None,
        max_outstanding: None,
        size: None,
    }
}

#[test]
fn axi3_read_returns_what_was_written() {
    let mut b = Bus::new(master(32), ram(32));
    b.clock(true);
    b.master.write(0x40, &small(0x1357_9bdf, 32)).unwrap();
    b.drain();
    b.master.read_burst(0x40, 0).unwrap();
    b.drain();
    assert_eq!(number(&b.master.pop_read().unwrap()), 0x1357_9bdf);
    assert_eq!(b.failures, Vec::<String>::new());
}

#[test]
fn axi3_interleaved_bursts_check_themselves_under_stalls() {
    let mut b = Bus::new(
        MasterConfig {
            stall: Some(80),
            max_outstanding: Some(6),
            ..master(32)
        },
        RamConfig {
            stall: Some(80),
            max_outstanding: Some(6),
            ..ram(32)
        },
    );
    b.clock(true);
    b.master.random_burst_writes(20, 14, 15);
    b.drain();
    assert!(b.master.verify_all() > 0);
    b.drain();
    assert_eq!(b.failures, Vec::<String>::new());
}

#[test]
fn axi3_filled_burst_reads_back() {
    let mut b = Bus::new(master(128), ram(128));
    b.master.burst_write_fill(0x1000, 15).unwrap();
    b.drain();
    assert_eq!(b.master.verify_all(), 16);
    b.drain();
    assert_eq!(b.failures, Vec::<String>::new());
}

#[test]
fn axi3_burst_of_seventeen_beats_is_refused() {
    let mut b = Bus::new(master(32), ram(32));
    let e = b.master.burst_write_fill(0, 16).unwrap_err();
    assert_eq!(e.message(), b.master.read_burst(0, 16).unwrap_err().message());
    assert!(e.message().contains("16"));
    assert_eq!(b.master.idle(), 1);
}

#[test]
fn axi3_exclusive_pair_succeeds_only_while_reserved() {
    let mut b = Bus::new(master(32), ram(32));
    b.master.exclusive_read(0x80);
    b.drain();
    b.master.exclusive_write(0x80, &small(2, 32)).unwrap();
    b.drain();
    assert_eq!(b.master.exclusive_ok(), 1);
    b.master.exclusive_write(0x80, &small(3, 32)).unwrap();
    b.drain();
    assert_eq!(b.master.exclusive_ok(), 0);
    assert_eq!(b.ram.peek(0x80), small(2, 32));
    assert_eq!(b.failures, Vec::<String>::new());
}

#[test]
fn axi3_reset_drops_what_is_queued() {
    let mut b = Bus::new(master(32), ram(32));
    b.master.random_burst_writes(10, 10, 7);
    b.clock(false);
    b.clock(false);
    assert_eq!(b.master.idle(), 0);
    b.clock(true);
    assert_eq!(b.master.idle(), 1);
    assert!(!b.m.awvalid && !b.m.wvalid && !b.m.arvalid);
}

#[test]
fn axi3_random_bursts_stay_in_their_window() {
    let mut b = Bus::new(master(32), ram(32));
    b.master.random_burst_writes(40, 5, 15);
    b.drain();
    for n in 8..40 {
        assert_eq!(b.ram.peek(4 * n), small(0, 32));
    }
    assert!((0..8).any(|n| b.ram.peek(4 * n) != small(0, 32)));
    // A window smaller than a word holds single beats.
    let mut b = Bus::new(master(32), ram(32));
    b.master.random_burst_writes(5, 1, 15);
    b.drain();
    assert_eq!(b.ram.peek(4), small(0, 32));
    assert_eq!(b.failures, Vec::<String>::new());
}
