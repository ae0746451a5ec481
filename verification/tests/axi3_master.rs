use std::collections::HashSet;
use vip::axi3::{Axi3Master, Axi3MasterPorts};
use vip::axi4::MasterConfig;
use vip::common::report::fail_at;
use vip::value::Value;

/// A `width`-bit value without X or Z bits.
fn bits(v: u64, width: u32) -> Value {
    Value::Bits {
        words: vec![v],
        mask_xz: vec![0],
        width,
    }
}

/// A 64-bit argument.
fn word(v: u64) -> Value {
    bits(v, 64)
}

/// A 32-bit master with `id_width`-bit IDs.
fn config(id_width: u32, max_outstanding: Option<u64>) -> MasterConfig {
    MasterConfig {
        width: 32,
        rwidth: 32,
        id_width,
        stall: None,
        max_outstanding,
    }
}

/// The bus as the component under test sees it.
struct Sim {
    rst: Value,
    axi: Axi3MasterPorts,
    cycle: u64,
    failures: Vec<String>,
}

impl Sim {
    fn new() -> Sim {
        Sim {
            rst: bits(0, 1),
            axi: Axi3MasterPorts {
                awvalid: false,
                awready: bits(0, 1),
                awaddr: 0,
                awlen: 0,
                awsize: 0,
                awburst: 0,
                awid: 0,
                awlock: 0,
                wvalid: false,
                wready: bits(0, 1),
                wdata: vec![0],
                wstrb: vec![0],
                wlast: false,
                wid: 0,
                bvalid: bits(0, 1),
                bready: false,
                bresp: 0,
                bid: 0,
                arvalid: false,
                arready: bits(0, 1),
                araddr: 0,
                arlen: 0,
                arsize: 0,
                arburst: 0,
                arid: 0,
                arlock: 0,
                rvalid: bits(0, 1),
                rready: false,
                rdata: vec![0],
                rid: 0,
                rlast: bits(0, 1),
            },
            cycle: 0,
            failures: Vec::new(),
        }
    }

    fn clock(&mut self, c: &mut Axi3Master) {
        self.cycle += 1;
        assert!(c.in_range(&self.rst, &self.axi));
        for f in c.on_clock(&self.rst, &mut self.axi) {
            self.failures.push(fail_at(self.cycle, &f.message("AXI3")));
        }
    }

    fn failed(&self) -> bool {
        !self.failures.is_empty()
    }

    fn failures(&self) -> &[String] {
        &self.failures
    }
}

#[test]
fn two_writes_interleave_their_beats_by_wid() {
    let mut sim = Sim::new();
    let mut c = Axi3Master::on_build(32, 32, config(4, None), 0).unwrap();
    sim.rst = bits(0, 1);
    sim.axi.awready = bits(1, 1);
    sim.axi.wready = bits(1, 1);
    c.burst_write_fill(0x40, 1).unwrap();
    c.burst_write_fill(0x80, 1).unwrap();

    // Collect the (WID, WLAST) of each accepted W beat.
    let mut seen: Vec<(u64, u64)> = Vec::new();
    for _ in 0..12 {
        if sim.axi.wvalid {
            seen.push((sim.axi.wid, u64::from(sim.axi.wlast)));
        }
        sim.clock(&mut c);
        if c.idle() == 1 {
            break;
        }
    }
    // Two distinct WIDs appear and the second beat interleaves the first.
    let ids: HashSet<u64> = seen.iter().map(|(w, _)| *w).collect();
    assert_eq!(ids.len(), 2, "both write IDs drive W beats: {seen:?}");
    assert!(
        seen.len() >= 2 && seen[0].0 != seen[1].0,
        "beats interleave across IDs: {seen:?}"
    );
}

#[test]
fn exclusive_read_drives_2bit_lock() {
    let mut sim = Sim::new();
    let mut c = Axi3Master::on_build(32, 32, config(4, None), 0).unwrap();
    sim.rst = bits(0, 1);
    c.exclusive_read(0x40);
    sim.clock(&mut c);
    assert!(sim.axi.arvalid);
    assert_eq!(sim.axi.arlock, 1); // 0b01
}

#[test]
fn a_read_does_not_alias_a_live_write_id() {
    // 1-bit ID space: a shared free-running counter would let the read
    // shift the second write onto the still-live first write's ID.
    let mut sim = Sim::new();
    let mut c = Axi3Master::on_build(32, 32, config(1, Some(2)), 0).unwrap();
    sim.rst = bits(0, 1);
    c.write(0x10, &word(0x1111)).unwrap();
    c.read_burst(0x0, 0).unwrap();
    sim.clock(&mut c); // AW1 and AR1 presented together
    let w1 = sim.axi.awid;
    sim.axi.awready = bits(1, 1);
    sim.axi.arready = bits(1, 1);
    sim.axi.wready = bits(1, 1);
    sim.clock(&mut c); // AW1 accepted -> active; AR1 accepted
    sim.axi.awready = bits(0, 1);
    sim.axi.arready = bits(0, 1);
    c.write(0x20, &word(0x2222)).unwrap();
    sim.clock(&mut c); // W1 beat done -> write1 live; AW2 presented
    let w2 = sim.axi.awid;
    assert_ne!(w1, w2, "second write reused a live write ID");
}

#[test]
fn verify_all_skips_overlapping_addresses() {
    let mut c = Axi3Master::on_build(32, 32, config(4, None), 0).unwrap();
    // Two bursts overlap at 0x44; under interleaving its surviving value is
    // order-dependent, so it is excluded from the read-back check.
    c.burst_write_fill(0x40, 1).unwrap();
    c.burst_write_fill(0x44, 1).unwrap();
    let n = c.verify_all();
    assert_eq!(n, 2, "overlapping address 0x44 should be skipped");
}

#[test]
fn burst_length_over_16_is_rejected() {
    let mut c = Axi3Master::on_build(32, 32, config(4, None), 0).unwrap();
    let err = c.burst_write_fill(0x40, 16).err().unwrap();
    assert!(err.message().contains("16-beat limit"));
}

#[test]
fn master_address_wider_than_64_bits_is_rejected() {
    let err = Axi3Master::on_build(96, 96, config(4, None), 0).err().unwrap();
    assert!(err.message().contains("64-bit address limit"));
}
