use std::collections::HashMap;
use vip::axi4_lite::{Axi4LiteMaster, Axi4LiteMasterPorts, LiteMasterConfig};
use vip::common::report::fail_at;
use vip::common::resp::{OKAY, SLVERR};
use vip::common::words::number;
use vip::value::Value;

/// A `width`-bit value without X or Z bits.
fn bits(v: u64, width: u32) -> Value {
    Value::Bits {
        words: vec![v],
        mask_xz: vec![0],
        width,
    }
}

/// A 64-bit argument.
fn word(v: u64) -> Value {
    bits(v, 64)
}

fn config(stall: Option<u64>, w_delay: Option<u64>) -> LiteMasterConfig {
    LiteMasterConfig {
        width: 32,
        rwidth: 32,
        stall,
        max_outstanding: None,
        w_delay,
    }
}

/// A master of a 32-bit bus.
fn build(stall: Option<u64>, w_delay: Option<u64>) -> Axi4LiteMaster {
    Axi4LiteMaster::on_build(32, 32, config(stall, w_delay), 0).unwrap()
}

/// The bus as the component under test sees it.
struct Sim {
    rst: Value,
    axi: Axi4LiteMasterPorts,
    cycle: u64,
    failures: Vec<String>,
}

impl Sim {
    fn new() -> Sim {
        Sim {
            rst: bits(0, 1),
            axi: Axi4LiteMasterPorts {
                awvalid: false,
                awready: bits(0, 1),
                awaddr: 0,
                awprot: 0,
                wvalid: false,
                wready: bits(0, 1),
                wdata: vec![0],
                wstrb: vec![0],
                bvalid: bits(0, 1),
                bready: false,
                bresp: 0,
                arvalid: false,
                arready: bits(0, 1),
                araddr: 0,
                arprot: 0,
                rvalid: bits(0, 1),
                rready: false,
                rdata: vec![0],
            },
            cycle: 0,
            failures: Vec::new(),
        }
    }

    fn clock(&mut self, c: &mut Axi4LiteMaster) {
        self.cycle += 1;
        for f in c.on_clock(&self.rst, &mut self.axi) {
            self.failures.push(fail_at(self.cycle, &f.message()));
        }
    }

    fn failed(&self) -> bool {
        !self.failures.is_empty()
    }

    fn failures(&self) -> &[String] {
        &self.failures
    }
}

/// Plays a cooperative always-ready slave that returns `rdata` for the
/// pending read, tolerating a stalling master, until the master is idle.
fn serve_read(sim: &mut Sim, c: &mut Axi4LiteMaster, rdata: u64) {
    let mut ar_done = false;
    for _ in 0..80 {
        let arvalid = sim.axi.arvalid;
        sim.axi.arready = bits(u64::from(arvalid && !ar_done), 1);
        sim.axi.rvalid = bits(u64::from(ar_done), 1);
        sim.axi.rdata = vec![rdata];
        if arvalid && !ar_done {
            ar_done = true;
        }
        sim.clock(c);
        if ar_done && c.idle() == 1 {
            return;
        }
    }
    panic!("read did not complete");
}

/// Plays a cooperative slave that accepts a write and responds `bresp`.
fn serve_write(sim: &mut Sim, c: &mut Axi4LiteMaster, bresp: u64) {
    let mut accepted = false;
    for _ in 0..80 {
        let awvalid = sim.axi.awvalid;
        let wvalid = sim.axi.wvalid;
        sim.axi.awready = bits(u64::from(awvalid && !accepted), 1);
        sim.axi.wready = bits(u64::from(wvalid && !accepted), 1);
        sim.axi.bvalid = bits(u64::from(accepted), 1);
        sim.axi.bresp = bresp;
        if awvalid && wvalid && !accepted {
            accepted = true;
        }
        sim.clock(c);
        if accepted && c.idle() == 1 {
            return;
        }
    }
    panic!("write did not complete");
}

#[test]
fn write_drives_bus_and_completes() {
    let mut sim = Sim::new();
    let mut c = build(None, None);
    sim.rst = bits(0, 1);
    c.write(0x10, &word(0xdead)).unwrap();

    sim.clock(&mut c); // launch: AW/W asserted
    assert!(sim.axi.awvalid);
    assert_eq!(sim.axi.awaddr, 0x10);
    assert_eq!(sim.axi.wdata[0], 0xdead);
    assert_eq!(sim.axi.wstrb[0], 0xf);

    sim.axi.awready = bits(1, 1);
    sim.axi.wready = bits(1, 1);
    sim.clock(&mut c); // AW/W handshake, BREADY asserts
    assert!(!sim.axi.awvalid);
    assert!(sim.axi.bready);

    sim.axi.bvalid = bits(1, 1);
    sim.axi.bresp = 0;
    sim.clock(&mut c); // B handshake, done

    assert_eq!(c.idle(), 1);
    assert_eq!(c.last_bresp(), 0);
}

#[test]
fn read_drives_bus_and_returns_data() {
    let mut sim = Sim::new();
    let mut c = build(None, None);
    sim.rst = bits(0, 1);
    c.read(0x20);
    serve_read(&mut sim, &mut c, 0xcafe);
    assert_eq!(number(&c.pop_read().unwrap()), 0xcafe);
}

#[test]
fn expect_read_passes_on_match() {
    let mut sim = Sim::new();
    let mut c = build(None, None);
    sim.rst = bits(0, 1);
    c.expect_read(0x20, &word(0xcafe)).unwrap();
    serve_read(&mut sim, &mut c, 0xcafe);
    assert!(!sim.failed(), "unexpected: {:?}", sim.failures());
    assert_eq!(c.num_reads(), 0);
}

#[test]
fn expect_read_fails_on_mismatch() {
    let mut sim = Sim::new();
    let mut c = build(None, None);
    sim.rst = bits(0, 1);
    c.expect_read(0x20, &word(0xcafe)).unwrap();
    serve_read(&mut sim, &mut c, 0xdead);
    assert!(sim.failures().iter().any(|f| f.contains("expected")));
}

#[test]
fn expect_write_passes_on_okay() {
    let mut sim = Sim::new();
    let mut c = build(None, None);
    sim.rst = bits(0, 1);
    c.expect_write(0x10, &word(0x5)).unwrap();
    serve_write(&mut sim, &mut c, OKAY);
    assert!(!sim.failed(), "unexpected: {:?}", sim.failures());
}

#[test]
fn expect_write_fails_on_error_response() {
    let mut sim = Sim::new();
    let mut c = build(None, None);
    sim.rst = bits(0, 1);
    c.expect_write(0x10, &word(0x5)).unwrap();
    serve_write(&mut sim, &mut c, SLVERR);
    assert!(sim.failures().iter().any(|f| f.contains("response")));
}

#[test]
fn reads_pipeline_multiple_outstanding() {
    let mut sim = Sim::new();
    let mut c = build(None, None);
    sim.rst = bits(0, 1);
    c.read(0x10);
    c.read(0x20);

    sim.clock(&mut c); // launch AR1
    assert!(sim.axi.arvalid);
    assert_eq!(sim.axi.araddr, 0x10);

    sim.axi.arready = bits(1, 1);
    sim.clock(&mut c); // AR1 accepted, AR2 launched before any R
    assert!(sim.axi.arvalid);
    assert_eq!(sim.axi.araddr, 0x20);

    // Accept AR2 and return R1 in the same cycle.
    sim.axi.arready = bits(1, 1);
    sim.axi.rvalid = bits(1, 1);
    sim.axi.rdata = vec![0xaaa];
    sim.clock(&mut c);
    assert!(!sim.axi.arvalid);

    // Return R2.
    sim.axi.arready = bits(0, 1);
    sim.axi.rdata = vec![0xbbb];
    sim.clock(&mut c);

    assert_eq!(c.idle(), 1);
    assert_eq!(number(&c.pop_read().unwrap()), 0xaaa);
    assert_eq!(number(&c.pop_read().unwrap()), 0xbbb);
}

#[test]
fn transactions_complete_while_stalling() {
    let mut sim = Sim::new();
    let mut c = build(Some(200), None);
    sim.rst = bits(0, 1);
    c.write(0x8, &word(0x99)).unwrap();
    serve_write(&mut sim, &mut c, OKAY);
    c.expect_read(0x8, &word(0x1234)).unwrap();
    serve_read(&mut sim, &mut c, 0x1234);
    assert!(!sim.failed(), "unexpected: {:?}", sim.failures());
}

/// Plays a single-outstanding memory slave (accept AW+W together,
/// respond OKAY, serve reads from what was written) until the master is
/// idle. `mem` persists across calls so writes are visible to later reads.
fn serve_memory(sim: &mut Sim, c: &mut Axi4LiteMaster, mem: &mut HashMap<u64, u64>) {
    let mut b_pending = false;
    let mut r_data: Option<u64> = None;
    for _ in 0..8000 {
        let awvalid = sim.axi.awvalid;
        let wvalid = sim.axi.wvalid;
        let accept_w = awvalid && wvalid && !b_pending;
        let arvalid = sim.axi.arvalid;
        let accept_r = arvalid && r_data.is_none();
        let awaddr = sim.axi.awaddr;
        let wdata = sim.axi.wdata[0];
        let wstrb = sim.axi.wstrb[0];
        let araddr = sim.axi.araddr;
        let bready = sim.axi.bready;
        let rready = sim.axi.rready;

        sim.axi.awready = bits(u64::from(accept_w), 1);
        sim.axi.wready = bits(u64::from(accept_w), 1);
        sim.axi.bvalid = bits(u64::from(b_pending), 1);
        sim.axi.bresp = 0;
        sim.axi.arready = bits(u64::from(accept_r), 1);
        sim.axi.rvalid = bits(u64::from(r_data.is_some()), 1);
        sim.axi.rdata = vec![r_data.unwrap_or(0)];
        sim.clock(c);

        if accept_w {
            let mut word = *mem.get(&awaddr).unwrap_or(&0);
            for byte in 0..4 {
                if (wstrb >> byte) & 1 != 0 {
                    let mask = 0xffu64 << (byte * 8);
                    word = (word & !mask) | (wdata & mask);
                }
            }
            mem.insert(awaddr, word);
            b_pending = true;
        }
        if b_pending && bready {
            b_pending = false;
        }
        if accept_r {
            r_data = Some(*mem.get(&araddr).unwrap_or(&0));
        }
        if r_data.is_some() && rready {
            r_data = None;
        }
        if !b_pending && r_data.is_none() && c.idle() == 1 {
            return;
        }
    }
    panic!("memory service did not drain");
}

#[test]
fn random_regression_roundtrips() {
    let mut sim = Sim::new();
    let mut c = build(None, None);
    sim.rst = bits(0, 1);
    let mut mem: HashMap<u64, u64> = HashMap::new();
    c.random_writes(16, 6);
    serve_memory(&mut sim, &mut c, &mut mem); // drain the writes
    let n = c.verify_all();
    assert!(n > 0);
    serve_memory(&mut sim, &mut c, &mut mem); // read back, self-checking
    assert!(!sim.failed(), "unexpected: {:?}", sim.failures());
}

#[test]
fn mixed_random_traffic_self_checks() {
    let mut sim = Sim::new();
    let mut c = build(None, None);
    sim.rst = bits(0, 1);
    let mut mem: HashMap<u64, u64> = HashMap::new();
    // 100 ops over an 8-word window forces heavy read-after-write and
    // write-after-read collisions, stressing the per-address hazard
    // control; a broken one would read a stale value and fail.
    c.random_traffic(100, 5, 40);
    serve_memory(&mut sim, &mut c, &mut mem);
    assert!(!sim.failed(), "unexpected: {:?}", sim.failures());
}

#[test]
fn partial_strobe_regression_roundtrips() {
    let mut sim = Sim::new();
    let mut c = build(None, None);
    sim.rst = bits(0, 1);
    let mut mem: HashMap<u64, u64> = HashMap::new();
    c.random_strobed_writes(32, 6);
    serve_memory(&mut sim, &mut c, &mut mem);
    c.verify_all();
    serve_memory(&mut sim, &mut c, &mut mem);
    assert!(!sim.failed(), "unexpected: {:?}", sim.failures());
}

#[test]
fn rmw_updates_masked_bits() {
    let mut sim = Sim::new();
    let mut c = build(None, None);
    sim.rst = bits(0, 1);
    let mut mem: HashMap<u64, u64> = HashMap::new();
    c.write(0x10, &word(0x0000_00ff)).unwrap();
    // Replace byte 1 (mask 0xff00) with 0xab.
    c.rmw(0x10, &word(0xff00), &word(0xab00)).unwrap();
    c.expect_read(0x10, &word(0x0000_abff)).unwrap();
    serve_memory(&mut sim, &mut c, &mut mem);
    assert!(!sim.failed(), "unexpected: {:?}", sim.failures());
    assert_eq!(*mem.get(&0x10).unwrap(), 0x0000_abff);
}

#[test]
fn w_delay_skews_the_channels() {
    let mut sim = Sim::new();
    let mut c = build(None, Some(2));
    sim.rst = bits(0, 1);
    c.write(0x10, &word(0x5)).unwrap();
    sim.clock(&mut c); // AWVALID asserts, WVALID held back
    assert!(sim.axi.awvalid);
    assert!(!sim.axi.wvalid);
    sim.clock(&mut c);
    assert!(!sim.axi.wvalid);
    sim.clock(&mut c); // WVALID follows after two cycles
    assert!(sim.axi.awvalid);
    assert!(sim.axi.wvalid);
}

#[test]
fn traces_queue_depth() {
    let mut sim = Sim::new();
    let mut c = build(None, None);
    sim.rst = bits(0, 1);
    c.read(0x10);
    c.read(0x20);
    sim.clock(&mut c); // one launched, one still queued
    assert_eq!(c.queued(), 1);
}

#[test]
fn pop_read_errors_when_empty() {
    let mut c = build(None, None);
    let err = c.pop_read().unwrap_err();
    assert!(err.message().contains("no read result"));
}

#[test]
fn axi4_lite_master_address_wider_than_64_bits_is_rejected() {
    let err = Axi4LiteMaster::on_build(96, 96, config(None, None), 0).err().unwrap();
    assert!(err.message().contains("64-bit address limit"));
}

#[test]
fn lite_wvalid_follows_after_the_configured_skew() {
    for skew in 0..4 {
        let mut sim = Sim::new();
        let mut c = build(None, Some(skew));
        c.write(0x20, &word(0x99)).unwrap();
        sim.clock(&mut c);
        assert!(sim.axi.awvalid);
        for _ in 0..skew {
            assert!(!sim.axi.wvalid);
            sim.clock(&mut c);
        }
        assert!(sim.axi.wvalid);
        assert_eq!(sim.axi.wdata, vec![0x99]);
        assert_eq!(sim.axi.wstrb, vec![0xf]);
    }
}

#[test]
fn lite_offer_is_held_until_taken() {
    let mut sim = Sim::new();
    let mut c = build(Some(255), None);
    c.write(0x20, &word(1)).unwrap();
    c.write(0x24, &word(2)).unwrap();
    while !sim.axi.awvalid {
        sim.clock(&mut c);
    }
    for _ in 0..10 {
        sim.clock(&mut c);
        assert!(sim.axi.awvalid && sim.axi.wvalid);
        assert_eq!((sim.axi.awaddr, sim.axi.wdata[0]), (0x20, 1));
    }
}

#[test]
fn lite_unexpected_responses_are_reported() {
    let mut sim = Sim::new();
    let mut c = build(None, None);
    // A response is taken only while one is awaited, so none is reported here.
    sim.axi.bvalid = bits(1, 1);
    sim.axi.rvalid = bits(1, 1);
    for _ in 0..3 {
        sim.clock(&mut c);
    }
    assert!(!sim.failed());
    assert!(!sim.axi.bready && !sim.axi.rready);
}

#[test]
fn lite_arguments_are_named_when_refused() {
    let mut c = build(None, None);
    let wide = word(1 << 40);
    assert_eq!(
        c.write(0, &wide).unwrap_err().message(),
        "write data does not fit the 32-bit bus"
    );
    assert_eq!(
        c.rmw(0, &wide, &word(0)).unwrap_err().message(),
        "rmw mask does not fit the 32-bit bus"
    );
    assert_eq!(
        c.rmw(0, &word(0), &wide).unwrap_err().message(),
        "rmw value does not fit the 32-bit bus"
    );
    assert_eq!(c.queued(), 0);
}

#[test]
fn lite_accesses_to_one_address_keep_their_order() {
    let mut sim = Sim::new();
    let mut c = Axi4LiteMaster::on_build(
        32,
        32,
        LiteMasterConfig {
            max_outstanding: Some(8),
            ..config(None, None)
        },
        0,
    )
    .unwrap();
    c.write(0x8, &word(1)).unwrap();
    c.read(0x8);
    c.read(0xc);
    sim.clock(&mut c);
    // The read of the written address waits; the other overtakes it.
    assert!(sim.axi.awvalid && sim.axi.arvalid);
    assert_eq!((sim.axi.awaddr, sim.axi.araddr), (0x8, 0xc));
    sim.axi.arready = bits(1, 1);
    for _ in 0..4 {
        sim.clock(&mut c);
        assert!(!sim.axi.arvalid);
    }
}

#[test]
fn lite_rmw_writes_back_directly_after_its_read() {
    let mut sim = Sim::new();
    let mut c = Axi4LiteMaster::on_build(
        32,
        32,
        LiteMasterConfig {
            max_outstanding: Some(8),
            ..config(None, None)
        },
        0,
    )
    .unwrap();
    c.write(0x8, &word(0x12)).unwrap();
    c.rmw(0x8, &word(0x0f), &word(0x05)).unwrap();
    c.write(0x8, &word(0x77)).unwrap();
    c.read(0x8);
    let mut mem = 0;
    let mut seen = Vec::new();
    let mut answer = None;
    let mut data = None;
    for _ in 0..60 {
        let (aw, ar) = (sim.axi.awvalid, sim.axi.arvalid);
        assert!(!(aw && ar), "one access to an address at a time");
        if aw {
            mem = sim.axi.wdata[0];
            seen.push(format!("w {mem:x}"));
            answer = Some(());
        }
        if ar {
            seen.push(format!("r {mem:x}"));
            data = Some(mem);
        }
        sim.axi.awready = bits(u64::from(aw), 1);
        sim.axi.wready = bits(u64::from(aw), 1);
        sim.axi.arready = bits(u64::from(ar), 1);
        sim.axi.bvalid = bits(u64::from(!aw && answer.is_some()), 1);
        sim.axi.rvalid = bits(u64::from(!ar && data.is_some()), 1);
        sim.axi.rdata = vec![data.unwrap_or(0)];
        let b_hs = !aw && answer.is_some() && sim.axi.bready;
        let r_hs = !ar && data.is_some() && sim.axi.rready;
        sim.clock(&mut c);
        if b_hs {
            answer = None;
        }
        if r_hs {
            data = None;
        }
    }
    assert!(!sim.failed());
    assert_eq!(c.idle(), 1);
    assert_eq!(seen, ["w 12", "r 12", "w 15", "w 77", "r 77"]);
    assert_eq!(number(&c.pop_read().unwrap()), 0x77);
}

#[test]
fn lite_rmw_is_read_back_at_the_address_given() {
    let mut sim = Sim::new();
    let mut c = build(None, None);
    let mut mem = HashMap::from([(0x42, 0x1200)]);
    c.rmw(0x42, &word(0xff), &word(0x34)).unwrap();
    serve_memory(&mut sim, &mut c, &mut mem);
    assert_eq!(mem.get(&0x42), Some(&0x1234));
    assert_eq!(c.verify_all(), 1);
    sim.clock(&mut c);
    assert!(sim.axi.arvalid);
    assert_eq!(sim.axi.araddr, 0x42);
    serve_memory(&mut sim, &mut c, &mut mem);
    assert!(!sim.failed(), "{:?}", sim.failures());
}
