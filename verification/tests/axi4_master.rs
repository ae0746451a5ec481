use vip::axi4::{Axi4Master, Axi4MasterPorts, MasterConfig};
use vip::common::report::fail_at;
use vip::value::Value;

/// A `width`-bit value without X or Z bits.
fn bits(v: u64, width: u32) -> Value {
    Value::Bits {
        words: vec![v],
        mask_xz: vec![0],
        width,
    }
}

/// A 64-bit argument.
fn word(v: u64) -> Value {
    bits(v, 64)
}

/// A 32-bit master with `id_width`-bit IDs.
fn config(id_width: u32, max_outstanding: Option<u64>) -> MasterConfig {
    MasterConfig {
        width: 32,
        rwidth: 32,
        id_width,
        stall: None,
        max_outstanding,
    }
}

/// The bus as the component under test sees it.
struct Sim {
    rst: Value,
    axi: Axi4MasterPorts,
    cycle: u64,
    failures: Vec<String>,
}

impl Sim {
    fn new() -> Sim {
        Sim {
            rst: bits(0, 1),
            axi: Axi4MasterPorts {
                awvalid: false,
                awready: bits(0, 1),
                awaddr: 0,
                awlen: 0,
                awsize: 0,
                awburst: 0,
                awid: 0,
                awlock: 0,
                wvalid: false,
                wready: bits(0, 1),
                wdata: vec![0],
                wstrb: vec![0],
                wlast: false,
                bvalid: bits(0, 1),
                bready: false,
                bresp: 0,
                bid: 0,
                arvalid: false,
                arready: bits(0, 1),
                araddr: 0,
                arlen: 0,
                arsize: 0,
                arburst: 0,
                arid: 0,
                arlock: 0,
                rvalid: bits(0, 1),
                rready: false,
                rdata: vec![0],
                rid: 0,
                rlast: bits(0, 1),
            },
            cycle: 0,
            failures: Vec::new(),
        }
    }

    fn clock(&mut self, c: &mut Axi4Master) {
        self.cycle += 1;
        assert!(c.in_range(&self.rst, &self.axi));
        for f in c.on_clock(&self.rst, &mut self.axi) {
            self.failures.push(fail_at(self.cycle, &f.message("AXI4")));
        }
    }

    fn failed(&self) -> bool {
        !self.failures.is_empty()
    }

    fn failures(&self) -> &[String] {
        &self.failures
    }
}

#[test]
fn read_burst_drives_the_address_phase() {
    let mut sim = Sim::new();
    let mut c = Axi4Master::on_build(32, 32, config(4, None), 0).unwrap();
    sim.rst = bits(0, 1);
    assert_eq!(c.idle(), 1);
    c.read_burst(0x40, 3);
    assert_eq!(c.idle(), 0);

    sim.clock(&mut c); // launch the AR address phase
    assert!(sim.axi.arvalid);
    assert_eq!(sim.axi.araddr, 0x40);
    assert_eq!(sim.axi.arlen, 3);
    assert_eq!(sim.axi.arburst, 1); // INCR
}

#[test]
fn exclusive_ops_drive_the_lock_lines() {
    let mut sim = Sim::new();
    let mut c = Axi4Master::on_build(32, 32, config(4, None), 0).unwrap();
    sim.rst = bits(0, 1);
    c.exclusive_read(0x40);
    sim.clock(&mut c); // AR phase
    assert!(sim.axi.arvalid);
    assert_eq!(sim.axi.arlock, 1);

    c.exclusive_write(0x40, &word(0xabcd)).unwrap();
    sim.clock(&mut c); // AW phase
    assert!(sim.axi.awvalid);
    assert_eq!(sim.axi.awlock, 1);
}

#[test]
fn two_reads_use_distinct_ids() {
    let mut sim = Sim::new();
    let mut c = Axi4Master::on_build(32, 32, config(4, None), 0).unwrap();
    sim.rst = bits(0, 1);
    c.read_burst(0x0, 0);
    c.read_burst(0x10, 0);
    sim.clock(&mut c); // AR1 presented
    let id0 = sim.axi.arid;
    sim.axi.arready = bits(1, 1);
    sim.clock(&mut c); // AR1 accepted, AR2 presented next
    sim.axi.arready = bits(0, 1);
    sim.clock(&mut c);
    let id1 = sim.axi.arid;
    assert_ne!(id0, id1, "concurrent reads must use distinct IDs");
}

#[test]
fn master_a_read_does_not_alias_a_live_write_id() {
    // 1-bit ID space: a shared free-running counter would let the read
    // shift the second write onto the still-live first write's ID.
    let mut sim = Sim::new();
    let mut c = Axi4Master::on_build(32, 32, config(1, Some(2)), 0).unwrap();
    sim.rst = bits(0, 1);
    c.write(0x10, &word(0x1111)).unwrap();
    c.read_burst(0x0, 0);
    sim.clock(&mut c); // AW1 and AR1 presented together
    let w1 = sim.axi.awid;
    // Accept AW1/AR1; leave the read (no R) and write1's B pending, so
    // write1's ID stays live in the outstanding set.
    sim.axi.awready = bits(1, 1);
    sim.axi.arready = bits(1, 1);
    sim.axi.wready = bits(1, 1);
    sim.clock(&mut c); // AW1 accepted -> W phase; AR1 accepted
    sim.axi.awready = bits(0, 1);
    sim.axi.arready = bits(0, 1);
    c.write(0x20, &word(0x2222)).unwrap();
    sim.clock(&mut c); // W1 beat done -> write1 live; AW2 presented
    let w2 = sim.axi.awid;
    assert_ne!(w1, w2, "second write reused a live write ID");
}

#[test]
fn axi4_master_address_wider_than_64_bits_is_rejected() {
    let err = Axi4Master::on_build(96, 96, config(4, None), 0).err().unwrap();
    assert!(err.message().contains("64-bit address limit"));
}

#[test]
fn axi4_read_data_may_interleave() {
    let mut sim = Sim::new();
    let mut c = Axi4Master::on_build(32, 32, config(4, None), 0).unwrap();
    c.read_burst(0x0, 1);
    c.read_burst(0x10, 1);
    sim.axi.arready = bits(1, 1);
    for _ in 0..4 {
        sim.clock(&mut c);
    }
    sim.axi.rvalid = bits(1, 1);
    for (id, data, last) in [(0, 0xa0, 0), (1, 0xb0, 0), (1, 0xb1, 1), (0, 0xa1, 1)] {
        sim.axi.rid = id;
        sim.axi.rdata = vec![data];
        sim.axi.rlast = bits(last, 1);
        assert!(sim.axi.rready);
        sim.clock(&mut c);
    }
    sim.axi.rvalid = bits(0, 1);
    assert!(!sim.failed());
    assert_eq!(c.idle(), 1);
    for want in [0xa0, 0xb0, 0xb1, 0xa1] {
        assert_eq!(c.pop_read().unwrap(), bits(want, 32));
    }
}

#[test]
fn axi4_wrong_read_data_is_reported() {
    let mut sim = Sim::new();
    let mut c = Axi4Master::on_build(32, 32, config(4, None), 0).unwrap();
    c.read_check_incr(0x20, 0);
    sim.axi.arready = bits(1, 1);
    sim.clock(&mut c);
    sim.clock(&mut c);
    sim.axi.rvalid = bits(1, 1);
    sim.axi.rdata = vec![0x21];
    sim.clock(&mut c);
    assert_eq!(
        sim.failures(),
        [
            "cycle 3: AXI4 read id 0: RLAST misaligned",
            "cycle 3: AXI4 read id 0: data mismatch"
        ]
    );
}

#[test]
fn axi4_responses_under_other_ids_are_reported() {
    let mut sim = Sim::new();
    let mut c = Axi4Master::on_build(32, 32, config(4, None), 0).unwrap();
    c.write(0x0, &word(1)).unwrap();
    c.read_burst(0x0, 0);
    sim.axi.awready = bits(1, 1);
    sim.axi.wready = bits(1, 1);
    sim.axi.arready = bits(1, 1);
    for _ in 0..4 {
        sim.clock(&mut c);
    }
    assert!(sim.axi.bready && sim.axi.rready);
    sim.axi.bvalid = bits(1, 1);
    sim.axi.bid = 7;
    sim.axi.rvalid = bits(1, 1);
    sim.axi.rid = 8;
    sim.clock(&mut c);
    assert_eq!(
        sim.failures(),
        [
            "cycle 5: AXI4 B: unexpected BID 7",
            "cycle 5: AXI4 R: unexpected RID 8"
        ]
    );
    sim.axi.rvalid = bits(0, 1);
    sim.axi.bid = 0;
    sim.axi.bresp = 3;
    sim.clock(&mut c);
    assert_eq!(sim.failures()[2], "cycle 6: AXI4 write id 0: response 3");
    assert_eq!(c.last_bresp(), 3);
}

#[test]
fn axi4_outstanding_writes_stay_within_the_limit() {
    let mut sim = Sim::new();
    let mut c = Axi4Master::on_build(32, 32, config(4, Some(2)), 0).unwrap();
    for i in 0..4 {
        c.write(4 * i, &word(i)).unwrap();
    }
    sim.axi.awready = bits(1, 1);
    sim.axi.wready = bits(1, 1);
    let mut ids = Vec::new();
    for _ in 0..20 {
        if sim.axi.awvalid {
            ids.push(sim.axi.awid);
        }
        sim.clock(&mut c);
    }
    // Without a response, two writes go out, under different IDs.
    assert_eq!(ids, vec![0, 1]);
}

#[test]
fn axi4_ids_stay_in_their_range() {
    let mut sim = Sim::new();
    let mut c = Axi4Master::on_build(32, 32, config(2, Some(4)), 0).unwrap();
    for n in 0..6 {
        c.read_burst(0x40 * n, 0);
        c.write(0x1000 + 0x40 * n, &word(n)).unwrap();
    }
    sim.axi.arready = bits(1, 1);
    sim.axi.awready = bits(1, 1);
    sim.axi.wready = bits(1, 1);
    let mut reads = Vec::new();
    let mut writes = Vec::new();
    for _ in 0..40 {
        sim.clock(&mut c);
        if sim.axi.arvalid {
            reads.push(sim.axi.arid);
        }
        if sim.axi.awvalid {
            writes.push(sim.axi.awid);
        }
    }
    // Nothing is answered, so each ID is used once and the rest waits.
    reads.sort_unstable();
    writes.sort_unstable();
    assert_eq!(reads, [0, 1, 2, 3]);
    assert_eq!(writes, [0, 1, 2, 3]);
}
