//! A master and a memory on one AXI4 bus.

use vip::axi4::{Axi4Master, Axi4MasterPorts, Axi4Ram, Axi4SlavePorts, MasterConfig, RamConfig};
use vip::common::words::number;
use vip::value::Value;

fn bits(words: Vec<u64>, width: u32) -> Value {
    let mask_xz = vec![0; words.len()];
    Value::Bits {
        words,
        mask_xz,
        width,
    }
}

fn bit(v: bool) -> Value {
    bits(vec![u64::from(v)], 1)
}

struct Bus {
    master: Axi4Master,
    ram: Axi4Ram,
    m: Axi4MasterPorts,
    s: Axi4SlavePorts,
    failures: Vec<String>,
}

impl Bus {
    fn new(master: MasterConfig, ram: RamConfig) -> Bus {
        let n = master.width.div_ceil(64) as usize;
        Bus {
            master: Axi4Master::on_build(32, 32, master, 7).unwrap(),
            ram: Axi4Ram::on_build(32, 32, ram, 8).unwrap(),
            m: Axi4MasterPorts {
                awvalid: false,
                awready: bit(false),
                awaddr: 0,
                awlen: 0,
                awsize: 0,
                awburst: 0,
                awid: 0,
                awlock: 0,
                wvalid: false,
                wready: bit(false),
                wdata: vec![0; n],
                wstrb: vec![0],
                wlast: false,
                bvalid: bit(false),
                bready: false,
                bresp: 0,
                bid: 0,
                arvalid: false,
                arready: bit(false),
                araddr: 0,
                arlen: 0,
                arsize: 0,
                arburst: 0,
                arid: 0,
                arlock: 0,
                rvalid: bit(false),
                rready: false,
                rdata: vec![0; n],
                rid: 0,
                rlast: bit(false),
            },
            s: Axi4SlavePorts {
                awvalid: bit(false),
                awready: false,
                awaddr: 0,
                awlen: 0,
                awsize: 0,
                awburst: 0,
                awid: 0,
                awlock: 0,
                wvalid: bit(false),
                wready: false,
                wdata: vec![0; n],
                wstrb: vec![0],
                wlast: bit(false),
                bvalid: false,
                bready: bit(false),
                bresp: 0,
                bid: 0,
                arvalid: bit(false),
                arready: false,
                araddr: 0,
                arlen: 0,
                arsize: 0,
                arburst: 0,
                arid: 0,
                arlock: 0,
                rvalid: false,
                rready: bit(false),
                rdata: vec![0; n],
                rresp: 0,
                rid: 0,
                rlast: false,
            },
            failures: Vec::new(),
        }
    }

    fn clock(&mut self, rst: bool) {
        let rst = bit(rst);
        let (m, s) = (&mut self.m, &mut self.s);
        s.awvalid = bit(m.awvalid);
        s.awaddr = m.awaddr;
        s.awlen = m.awlen;
        s.awsize = m.awsize;
        s.awburst = m.awburst;
        s.awid = m.awid;
        s.awlock = m.awlock;
        s.wvalid = bit(m.wvalid);
        s.wdata = m.wdata.clone();
        s.wstrb = m.wstrb.clone();
        s.wlast = bit(m.wlast);
        s.bready = bit(m.bready);
        s.arvalid = bit(m.arvalid);
        s.araddr = m.araddr;
        s.arlen = m.arlen;
        s.arsize = m.arsize;
        s.arburst = m.arburst;
        s.arid = m.arid;
        s.arlock = m.arlock;
        s.rready = bit(m.rready);
        m.awready = bit(s.awready);
        m.wready = bit(s.wready);
        m.bvalid = bit(s.bvalid);
        m.bresp = s.bresp;
        m.bid = s.bid;
        m.arready = bit(s.arready);
        m.rvalid = bit(s.rvalid);
        m.rdata = s.rdata.clone();
        m.rid = s.rid;
        m.rlast = bit(s.rlast);
        assert!(self.master.in_range(&rst, &self.m));
        assert!(self.ram.in_range(&rst, &self.s));
        for f in self.master.on_clock(&rst, &mut self.m) {
            self.failures.push(f.message("AXI4"));
        }
        self.ram.on_clock(&rst, &mut self.s);
    }

    fn drain(&mut self) {
        for _ in 0..50000 {
            self.clock(false);
            if self.master.idle() == 1 {
                return;
            }
        }
        panic!("the master never became idle");
    }
}

fn master(width: u32) -> MasterConfig {
    MasterConfig {
        width,
        rwidth: width,
        id_width: 4,
        stall: None,
        max_outstanding: None,
    }
}

fn ram(width: u32) -> RamConfig {
    RamConfig {
        width,
        stall: None,
        max_outstanding: None,
        size: None,
    }
}

#[test]
fn axi4_read_returns_what_was_written() {
    let mut b = Bus::new(master(32), ram(32));
    b.clock(true);
    b.master.write(0x40, &bits(vec![0xcafe_f00d], 32)).unwrap();
    b.drain();
    b.master.read_burst(0x40, 1);
    b.drain();
    assert_eq!(number(&b.master.pop_read().unwrap()), 0xcafe_f00d);
    assert_eq!(number(&b.master.pop_read().unwrap()), 0);
    assert_eq!(b.master.pop_read().unwrap_err().message(), "no read beat available");
    assert_eq!(b.failures, Vec::<String>::new());
}

#[test]
fn axi4_random_bursts_check_themselves_under_stalls() {
    let mut b = Bus::new(
        MasterConfig {
            stall: Some(80),
            max_outstanding: Some(6),
            ..master(32)
        },
        RamConfig {
            stall: Some(80),
            max_outstanding: Some(4),
            ..ram(32)
        },
    );
    b.clock(true);
    b.master.random_burst_writes(20, 12, 15);
    b.drain();
    assert!(b.master.verify_all() > 0);
    b.drain();
    assert_eq!(b.failures, Vec::<String>::new());
}

#[test]
fn axi4_random_bursts_of_every_kind_check_themselves() {
    let mut b = Bus::new(master(64), ram(64));
    b.master.random_bursts(60, 13, 15);
    b.drain();
    assert!(b.master.verify_all() > 0);
    b.drain();
    assert_eq!(b.failures, Vec::<String>::new());
}

#[test]
fn axi4_random_bursts_work_on_a_wide_bus() {
    let mut b = Bus::new(
        MasterConfig {
            max_outstanding: Some(4),
            ..master(512)
        },
        RamConfig {
            max_outstanding: Some(4),
            ..ram(512)
        },
    );
    b.master.random_bursts(30, 14, 7);
    b.drain();
    b.master.verify_all();
    b.drain();
    assert_eq!(b.failures, Vec::<String>::new());
}

#[test]
fn axi4_exclusive_pair_succeeds_only_while_reserved() {
    let mut b = Bus::new(master(32), ram(32));
    b.ram.poke(0x80, &bits(vec![1], 32)).unwrap();
    b.master.exclusive_read(0x80);
    b.drain();
    b.master.exclusive_write(0x80, &bits(vec![2], 32)).unwrap();
    b.drain();
    assert_eq!(b.master.exclusive_ok(), 1);
    assert_eq!(b.ram.peek(0x80), bits(vec![2], 32));

    // The reservation is used up.
    b.master.exclusive_write(0x80, &bits(vec![3], 32)).unwrap();
    b.drain();
    assert_eq!(b.master.exclusive_ok(), 0);
    assert_eq!(b.ram.peek(0x80), bits(vec![2], 32));

    // A plain write in between takes the reservation away.
    b.master.exclusive_read(0x80);
    b.drain();
    b.master.write(0x80, &bits(vec![4], 32)).unwrap();
    b.drain();
    b.master.exclusive_write(0x80, &bits(vec![5], 32)).unwrap();
    b.drain();
    assert_eq!(b.master.exclusive_ok(), 0);
    assert_eq!(b.ram.peek(0x80), bits(vec![4], 32));
}

#[test]
fn axi4_fill_is_found_by_checked_reads() {
    let mut b = Bus::new(master(32), ram(32));
    assert!(b.ram.fill_in_range(0x100, 8));
    b.ram.fill(0x100, 8);
    b.master.read_check_incr(0x100, 7);
    b.drain();
    assert_eq!(b.failures, Vec::<String>::new());
    b.ram.poke(0x104, &bits(vec![0xbad], 32)).unwrap();
    b.master.read_check_incr(0x100, 7);
    b.drain();
    assert_eq!(b.failures.len(), 1);
    assert!(b.failures[0].ends_with("data mismatch"));
}

#[test]
fn axi4_reset_drops_what_is_queued() {
    let mut b = Bus::new(master(32), ram(32));
    b.master.random_bursts(10, 10, 7);
    b.clock(false);
    b.clock(false);
    assert_eq!(b.master.idle(), 0);
    b.clock(true);
    assert_eq!(b.master.idle(), 1);
    assert!(!b.m.awvalid && !b.m.wvalid && !b.m.arvalid);
    assert!(!b.s.bvalid && !b.s.rvalid);
}

#[test]
fn axi4_random_burst_writes_stay_in_their_window() {
    let mut b = Bus::new(master(32), ram(32));
    b.master.random_burst_writes(40, 5, 15);
    b.drain();
    for n in 8..40 {
        assert_eq!(b.ram.peek(4 * n), bits(vec![0], 32));
    }
    assert!((1..=8).contains(&b.master.verify_all()));
    b.drain();
    assert_eq!(b.failures, Vec::<String>::new());
}
