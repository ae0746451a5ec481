//! A master, a memory and a checker on one AXI4-Lite bus.

use vip::axi4_lite::{
    Axi4LiteChecker, Axi4LiteMaster, Axi4LiteMasterPorts, Axi4LiteMonitorPorts, Axi4LiteRam,
    Axi4LiteSlavePorts, LiteMasterConfig, LiteRamConfig,
};
use vip::common::words::number;
use vip::value::Value;

fn bits(words: Vec<u64>, width: u32) -> Value {
    let mask_xz = vec![0; words.len()];
    Value::Bits {
        words,
        mask_xz,
        width,
    }
}

fn bit(v: bool) -> Value {
    bits(vec![u64::from(v)], 1)
}

struct Bus {
    width: u32,
    master: Axi4LiteMaster,
    ram: Axi4LiteRam,
    checker: Axi4LiteChecker,
    m: Axi4LiteMasterPorts,
    s: Axi4LiteSlavePorts,
    cycle: u64,
    failures: Vec<String>,
}

impl Bus {
    fn new(master: LiteMasterConfig, ram: LiteRamConfig) -> Bus {
        let n = master.width.div_ceil(64) as usize;
        Bus {
            width: master.width,
            master: Axi4LiteMaster::on_build(32, 32, master, 5).unwrap(),
            ram: Axi4LiteRam::on_build(32, 32, ram, 6).unwrap(),
            checker: Axi4LiteChecker::on_build(32, 32, master.width, Some(200), Some(400)).unwrap(),
            m: Axi4LiteMasterPorts {
                awvalid: false,
                awready: bit(false),
                awaddr: 0,
                awprot: 0,
                wvalid: false,
                wready: bit(false),
                wdata: vec![0; n],
                wstrb: vec![0],
                bvalid: bit(false),
                bready: false,
                bresp: 0,
                arvalid: false,
                arready: bit(false),
                araddr: 0,
                arprot: 0,
                rvalid: bit(false),
                rready: false,
                rdata: vec![0; n],
            },
            s: Axi4LiteSlavePorts {
                awvalid: bit(false),
                awready: false,
                awaddr: 0,
                wvalid: bit(false),
                wready: false,
                wdata: vec![0; n],
                wstrb: vec![0],
                bvalid: false,
                bready: bit(false),
                bresp: 0,
                arvalid: bit(false),
                arready: false,
                araddr: 0,
                rvalid: false,
                rready: bit(false),
                rdata: vec![0; n],
                rresp: 0,
            },
            cycle: 0,
            failures: Vec::new(),
        }
    }

    fn clock(&mut self, rst: bool) {
        let rst = bit(rst);
        self.cycle += 1;
        let seen = Axi4LiteMonitorPorts {
            awvalid: bit(self.m.awvalid),
            awready: bit(self.s.awready),
            awaddr: bits(vec![self.m.awaddr], 32),
            awprot: bits(vec![self.m.awprot], 3),
            wvalid: bit(self.m.wvalid),
            wready: bit(self.s.wready),
            wdata: bits(self.m.wdata.clone(), self.width),
            wstrb: bits(self.m.wstrb.clone(), self.width / 8),
            bvalid: bit(self.s.bvalid),
            bready: bit(self.m.bready),
            bresp: bits(vec![self.s.bresp], 2),
            arvalid: bit(self.m.arvalid),
            arready: bit(self.s.arready),
            araddr: bits(vec![self.m.araddr], 32),
            arprot: bits(vec![self.m.arprot], 3),
            rvalid: bit(self.s.rvalid),
            rready: bit(self.m.rready),
            rdata: bits(self.s.rdata.clone(), self.width),
            rresp: bits(vec![self.s.rresp], 2),
        };
        self.s.awvalid = bit(self.m.awvalid);
        self.s.awaddr = self.m.awaddr;
        self.s.wvalid = bit(self.m.wvalid);
        self.s.wdata = self.m.wdata.clone();
        self.s.wstrb = self.m.wstrb.clone();
        self.s.bready = bit(self.m.bready);
        self.s.arvalid = bit(self.m.arvalid);
        self.s.araddr = self.m.araddr;
        self.s.rready = bit(self.m.rready);
        self.m.awready = bit(self.s.awready);
        self.m.wready = bit(self.s.wready);
        self.m.bvalid = bit(self.s.bvalid);
        self.m.bresp = self.s.bresp;
        self.m.arready = bit(self.s.arready);
        self.m.rvalid = bit(self.s.rvalid);
        self.m.rdata = self.s.rdata.clone();
        assert!(self.checker.in_range(&rst, &seen, self.cycle));
        for f in self.checker.on_clock(&rst, &seen, true, self.cycle) {
            self.failures.push(f.message());
        }
        for f in self.master.on_clock(&rst, &mut self.m) {
            self.failures.push(f.message());
        }
        self.ram.on_clock(&rst, &mut self.s);
    }

    fn drain(&mut self) {
        for _ in 0..20000 {
            self.clock(false);
            if self.master.idle() == 1 {
                return;
            }
        }
        panic!("the master never became idle");
    }
}

fn master(width: u32) -> LiteMasterConfig {
    LiteMasterConfig {
        width,
        rwidth: width,
        stall: None,
        max_outstanding: None,
        w_delay: None,
    }
}

fn ram(width: u32) -> LiteRamConfig {
    LiteRamConfig {
        width,
        read_latency: None,
        write_latency: None,
        stall: None,
        size: None,
    }
}

#[test]
fn lite_read_returns_what_was_written() {
    let mut b = Bus::new(master(32), ram(32));
    b.clock(true);
    b.master.write(0x40, &bits(vec![0xdead_beef], 32)).unwrap();
    b.master.read(0x40);
    b.drain();
    assert_eq!(b.failures, Vec::<String>::new());
    assert_eq!(number(&b.master.pop_read().unwrap()), 0xdead_beef);
    assert_eq!(b.ram.peek(0x40), bits(vec![0xdead_beef], 32));
    assert_eq!(b.master.pop_read().unwrap_err().message(), "no read result available");
}

#[test]
fn lite_random_traffic_checks_itself_under_every_delay() {
    let mut b = Bus::new(
        LiteMasterConfig {
            stall: Some(90),
            max_outstanding: Some(4),
            w_delay: Some(2),
            ..master(32)
        },
        LiteRamConfig {
            read_latency: Some(3),
            write_latency: Some(2),
            stall: Some(60),
            ..ram(32)
        },
    );
    b.clock(true);
    b.master.random_writes(20, 8);
    b.drain();
    b.master.random_strobed_writes(20, 8);
    b.drain();
    b.master.random_traffic(60, 8, 50);
    b.drain();
    assert!(b.master.verify_all() > 0);
    b.drain();
    assert_eq!(b.failures, Vec::<String>::new());
    assert_eq!(b.checker.outstanding(), 0);
}

#[test]
fn lite_random_traffic_works_on_a_wide_bus() {
    let mut b = Bus::new(
        LiteMasterConfig {
            max_outstanding: Some(8),
            ..master(256)
        },
        LiteRamConfig {
            read_latency: Some(1),
            ..ram(256)
        },
    );
    b.master.random_traffic(40, 9, 40);
    b.drain();
    b.master.verify_all();
    b.drain();
    assert_eq!(b.failures, Vec::<String>::new());
}

#[test]
fn lite_read_modify_write_replaces_the_masked_bits() {
    let mut b = Bus::new(master(32), ram(32));
    b.ram.poke(0x10, &bits(vec![0x1234_5678], 32)).unwrap();
    b.master
        .rmw(0x10, &bits(vec![0x00ff_ff00], 32), &bits(vec![0xaaaa_aaaa], 32))
        .unwrap();
    b.master.read(0x10);
    b.drain();
    assert_eq!(number(&b.master.pop_read().unwrap()), 0x12aa_aa78);
    assert_eq!(b.failures, Vec::<String>::new());
}

#[test]
fn lite_rmw_write_goes_before_later_accesses() {
    let mut b = Bus::new(
        LiteMasterConfig {
            max_outstanding: Some(8),
            ..master(32)
        },
        ram(32),
    );
    b.ram.poke(0x10, &bits(vec![0xf0], 32)).unwrap();
    b.master
        .rmw(0x10, &bits(vec![0x0f], 32), &bits(vec![0x05], 32))
        .unwrap();
    b.master.write(0x10, &bits(vec![0x77], 32)).unwrap();
    b.master.expect_read(0x10, &bits(vec![0x77], 32)).unwrap();
    b.drain();
    assert_eq!(b.failures, Vec::<String>::new());
    assert_eq!(b.ram.peek(0x10), bits(vec![0x77], 32));
}

#[test]
fn lite_wrong_data_is_reported_with_both_values() {
    let mut b = Bus::new(master(32), ram(32));
    b.ram.poke(0x8, &bits(vec![0x11], 32)).unwrap();
    b.master.expect_read(0x8, &bits(vec![0x12], 32)).unwrap();
    b.drain();
    assert_eq!(b.failures.len(), 1);
    assert!(b.failures[0].starts_with("read @0x8: expected"));
}

#[test]
fn lite_write_to_a_readonly_word_is_refused_and_lost() {
    let mut b = Bus::new(master(32), ram(32));
    b.ram.poke(0x20, &bits(vec![7], 32)).unwrap();
    b.ram.set_readonly(0x20, 4);
    b.master.expect_write(0x20, &bits(vec![8], 32)).unwrap();
    b.drain();
    assert_eq!(b.failures, vec!["write @0x20: response 2 (expected OKAY)".to_string()]);
    assert_eq!(b.ram.peek(0x20), bits(vec![7], 32));
    assert_eq!(b.master.last_bresp(), 2);
}

#[test]
fn lite_reset_drops_what_is_queued_and_keeps_the_memory() {
    let mut b = Bus::new(master(32), ram(32));
    b.ram.poke(0, &bits(vec![9], 32)).unwrap();
    b.master.random_writes(10, 6);
    b.clock(false);
    assert_eq!(b.master.idle(), 0);
    b.clock(true);
    assert_eq!(b.master.idle(), 1);
    assert_eq!(b.master.queued(), 0);
    assert_eq!(b.master.outstanding(), 0);
    b.clock(false);
    assert_eq!(b.ram.peek(0), bits(vec![9], 32));
}

#[test]
fn lite_seeds_make_runs_repeatable() {
    let mut texts = Vec::new();
    for _ in 0..2 {
        let mut b = Bus::new(
            LiteMasterConfig {
                stall: Some(70),
                ..master(32)
            },
            ram(32),
        );
        b.master.random_traffic(30, 8, 30);
        b.drain();
        texts.push((b.cycle, b.ram.dump_hex(), b.checker.summary()));
    }
    assert_eq!(texts[0], texts[1]);
}

#[test]
fn lite_image_round_trips_through_text() {
    let mut b = Bus::new(master(32), ram(32));
    b.master.random_writes(25, 9);
    b.drain();
    let image = b.ram.dump_hex();
    let mut other = Axi4LiteRam::on_build(32, 32, ram(32), 0).unwrap();
    other.load_hex(&image).unwrap();
    assert_eq!(other.dump_hex(), image);
    for i in 0..128 {
        assert_eq!(other.peek(4 * i), b.ram.peek(4 * i));
    }
}

#[test]
fn lite_strobed_write_changes_only_its_lanes() {
    let mut b = Bus::new(master(32), ram(32));
    b.ram.poke(0x30, &bits(vec![0x1122_3344], 32)).unwrap();
    b.master
        .write_strb(0x30, &bits(vec![0xaabb_ccdd], 32), &bits(vec![0b1001], 4))
        .unwrap();
    b.drain();
    assert_eq!(b.ram.peek(0x30), bits(vec![0xaa22_33dd], 32));
    let e = b
        .master
        .write_strb(0x30, &bits(vec![0], 32), &bits(vec![0x10], 8))
        .unwrap_err();
    assert!(e.message().ends_with("does not fit the 4-bit bus"));
}

#[test]
fn lite_outstanding_accesses_stay_within_the_limit() {
    let mut b = Bus::new(
        LiteMasterConfig {
            max_outstanding: Some(2),
            ..master(32)
        },
        LiteRamConfig {
            read_latency: Some(5),
            write_latency: Some(5),
            ..ram(32)
        },
    );
    b.master.random_traffic(40, 10, 50);
    let mut most = 0;
    while b.master.idle() == 0 {
        b.clock(false);
        most = most.max(b.master.outstanding());
    }
    assert!(most <= 4);
    assert_eq!(b.failures, Vec::<String>::new());
}

#[test]
fn lite_random_reads_expect_what_any_write_left() {
    let mut b = Bus::new(master(32), ram(32));
    b.master.write(0x0, &bits(vec![0x5], 32)).unwrap();
    b.master.random_traffic(1, 2, 100);
    b.drain();
    b.master.write_strb(0x0, &bits(vec![0xaabb_ccdd], 32), &bits(vec![0b0110], 4)).unwrap();
    b.master.random_traffic(1, 2, 100);
    b.master.rmw(0x0, &bits(vec![0xff], 32), &bits(vec![0x77], 32)).unwrap();
    b.master.random_traffic(1, 2, 100);
    b.master.expect_write(0x0, &bits(vec![0x1234], 32)).unwrap();
    b.master.random_traffic(1, 2, 100);
    b.drain();
    assert_eq!(b.failures, Vec::<String>::new());
    assert_eq!(b.ram.peek(0x0), bits(vec![0x1234], 32));
}

#[test]
fn lite_read_back_covers_made_up_writes_only() {
    let mut b = Bus::new(master(32), ram(32));
    b.master.write(0x80, &bits(vec![0x5], 32)).unwrap();
    b.drain();
    assert_eq!(b.master.verify_all(), 0);
    b.master.random_writes(1, 2);
    b.drain();
    assert_eq!(b.master.verify_all(), 1);
    b.drain();
    assert_eq!(b.failures, Vec::<String>::new());
    // The made-up value is still expected after a plain write over it, and random
    // reads expect what was written last.
    let made_up = number(&b.ram.peek(0x0));
    b.master.write(0x0, &bits(vec![0x6], 32)).unwrap();
    b.master.random_traffic(1, 2, 100);
    b.drain();
    assert_eq!(b.failures, Vec::<String>::new());
    assert_eq!(b.master.verify_all(), 1);
    b.drain();
    assert_eq!(
        b.failures,
        [format!("read @0x0: expected [{made_up:x}], got [6]")]
    );
}

#[test]
fn lite_completed_rmw_is_read_back() {
    let mut b = Bus::new(master(32), ram(32));
    b.ram.poke(0x40, &bits(vec![0xff00], 32)).unwrap();
    b.master.rmw(0x40, &bits(vec![0xf], 32), &bits(vec![0x3], 32)).unwrap();
    assert_eq!(b.master.verify_all(), 0);
    b.drain();
    assert_eq!(b.master.verify_all(), 1);
    b.drain();
    assert_eq!(b.failures, Vec::<String>::new());
    assert_eq!(b.ram.peek(0x40), bits(vec![0xff03], 32));
    // A read-modify-write is recorded when it completes, over a value made up
    // meanwhile.
    b.master.rmw(0x0, &bits(vec![0xf], 32), &bits(vec![0x3], 32)).unwrap();
    b.master.random_writes(1, 2);
    b.drain();
    let made_up = number(&b.ram.peek(0x0));
    assert_eq!(b.master.verify_all(), 2);
    b.drain();
    assert_eq!(
        b.failures,
        [format!("read @0x0: expected [3], got [{made_up:x}]")]
    );
}

#[test]
fn lite_rmw_among_random_traffic_checks_itself() {
    let mut b = Bus::new(
        LiteMasterConfig {
            stall: Some(90),
            max_outstanding: Some(4),
            w_delay: Some(1),
            ..master(32)
        },
        LiteRamConfig {
            read_latency: Some(3),
            write_latency: Some(2),
            stall: Some(60),
            ..ram(32)
        },
    );
    b.clock(true);
    for n in 0..12 {
        b.master.random_traffic(6, 4, 50);
        b.master
            .rmw(4 * (n % 4), &bits(vec![0xff << (2 * n)], 32), &bits(vec![0x5a5a_5a5a], 32))
            .unwrap();
        b.master.random_traffic(6, 4, 100);
        b.drain();
        b.master.random_strobed_writes(1, 4);
    }
    b.drain();
    assert_eq!(b.master.verify_all(), 4);
    b.drain();
    assert_eq!(b.failures, Vec::<String>::new());
}
