use vip::axi4::{Axi4Ram, Axi4SlavePorts, RamConfig};
use vip::common::resp::{DECERR, EXOKAY, OKAY, SLVERR};
use vip::common::words::number;
use vip::value::Value;

/// A `width`-bit value without X or Z bits.
fn bits(v: u64, width: u32) -> Value {
    Value::Bits {
        words: vec![v],
        mask_xz: vec![0],
        width,
    }
}

/// A 64-bit argument.
fn word(v: u64) -> Value {
    bits(v, 64)
}

/// A 32-bit memory of `size` bytes.
fn config(size: Option<u64>) -> RamConfig {
    RamConfig {
        width: 32,
        stall: None,
        max_outstanding: None,
        size,
    }
}

/// The bus as the component under test sees it.
struct Sim {
    rst: Value,
    axi: Axi4SlavePorts,
}

impl Sim {
    fn new() -> Sim {
        Sim {
            rst: bits(0, 1),
            axi: Axi4SlavePorts {
                awvalid: bits(0, 1),
                awready: false,
                awaddr: 0,
                awlen: 0,
                awsize: 0,
                awburst: 0,
                awid: 0,
                awlock: 0,
                wvalid: bits(0, 1),
                wready: false,
                wdata: vec![0],
                wstrb: vec![0],
                wlast: bits(0, 1),
                bvalid: false,
                bready: bits(0, 1),
                bresp: 0,
                bid: 0,
                arvalid: bits(0, 1),
                arready: false,
                araddr: 0,
                arlen: 0,
                arsize: 0,
                arburst: 0,
                arid: 0,
                arlock: 0,
                rvalid: false,
                rready: bits(0, 1),
                rdata: vec![0],
                rresp: 0,
                rid: 0,
                rlast: false,
            },
        }
    }

    fn clock(&mut self, c: &mut Axi4Ram) {
        assert!(c.in_range(&self.rst, &self.axi));
        c.on_clock(&self.rst, &mut self.axi);
    }
}

#[test]
fn backdoor_poke_peek_fill() {
    let mut c = Axi4Ram::on_build(32, 32, config(None), 0).unwrap();
    c.poke(0x40, &word(0x1234)).unwrap();
    assert_eq!(number(&c.peek(0x40)), 0x1234);
    c.fill(0x0, 4);
    assert_eq!(number(&c.peek(0x8)), 0x8);
}

/// Drives a single-beat exclusive read of `addr`, arming the monitor.
fn excl_read(sim: &mut Sim, c: &mut Axi4Ram, addr: u64) {
    sim.axi.araddr = addr;
    sim.axi.arvalid = bits(1, 1);
    sim.axi.arlock = 1;
    sim.axi.rready = bits(1, 1);
    let mut ar_done = false;
    for _ in 0..20 {
        let ar_hs = !ar_done && sim.axi.arready;
        let r_hs = sim.axi.rvalid;
        sim.clock(c);
        if ar_hs {
            ar_done = true;
            sim.axi.arvalid = bits(0, 1);
        }
        if r_hs {
            break;
        }
    }
}

/// Drives a single-beat exclusive write of `data` to `addr` and returns the
/// captured `BRESP` (1 = EXOKAY on success, 0 = OKAY on failure).
fn excl_write(sim: &mut Sim, c: &mut Axi4Ram, addr: u64, data: u64) -> u64 {
    sim.axi.awaddr = addr;
    sim.axi.awlen = 0;
    sim.axi.awsize = 2;
    sim.axi.awburst = 1;
    sim.axi.awid = 3;
    sim.axi.awlock = 1;
    sim.axi.wstrb = vec![0xf];
    sim.axi.wlast = bits(1, 1);
    sim.axi.wdata = vec![data];
    sim.axi.bready = bits(1, 1);
    sim.axi.awvalid = bits(1, 1);
    sim.axi.wvalid = bits(1, 1);
    let mut aw_done = false;
    let mut w_done = false;
    let mut bresp = 0;
    for _ in 0..20 {
        let aw_hs = !aw_done && sim.axi.awready;
        let w_hs = !w_done && sim.axi.wready;
        sim.clock(c);
        if aw_hs {
            aw_done = true;
            sim.axi.awvalid = bits(0, 1);
        }
        if w_hs {
            w_done = true;
            sim.axi.wvalid = bits(0, 1);
        }
        if sim.axi.bvalid {
            bresp = sim.axi.bresp;
            break;
        }
    }
    bresp
}

#[test]
fn exclusive_write_succeeds_then_fails_after_intervening_write() {
    let mut sim = Sim::new();
    let mut c = Axi4Ram::on_build(32, 32, config(None), 0).unwrap();
    sim.rst = bits(0, 1);

    // Reserve 0x40, then an exclusive write to it succeeds with EXOKAY.
    excl_read(&mut sim, &mut c, 0x40);
    assert_eq!(excl_write(&mut sim, &mut c, 0x40, 0xcafe), EXOKAY);
    assert_eq!(number(&c.peek(0x40)), 0xcafe);

    // The successful write cleared the reservation, so a second exclusive
    // write with no fresh read fails with OKAY and leaves memory untouched.
    assert_eq!(excl_write(&mut sim, &mut c, 0x40, 0xdead), OKAY);
    assert_eq!(number(&c.peek(0x40)), 0xcafe);
}

#[test]
fn incr_burst_write_lands_in_memory() {
    let mut sim = Sim::new();
    let mut c = Axi4Ram::on_build(32, 32, config(None), 0).unwrap();
    sim.rst = bits(0, 1);
    sim.axi.awaddr = 0x40;
    sim.axi.awlen = 1;
    sim.axi.awsize = 2;
    sim.axi.awburst = 1;
    sim.axi.awid = 7;
    sim.axi.wstrb = vec![0xf];
    sim.axi.bready = bits(1, 1);
    let mut aw_done = false;
    let mut beat = 0u64;
    for _ in 0..40 {
        sim.axi.awvalid = bits(u64::from(!aw_done), 1);
        if beat < 2 {
            sim.axi.wvalid = bits(1, 1);
            sim.axi.wdata = vec![if beat == 0 { 0xaaaa } else { 0xbbbb }];
            sim.axi.wlast = bits(u64::from(beat == 1), 1);
        } else {
            sim.axi.wvalid = bits(0, 1);
        }
        let aw_hs = !aw_done && sim.axi.awready;
        let w_hs = beat < 2 && sim.axi.wready;
        sim.clock(&mut c);
        if aw_hs {
            aw_done = true;
        }
        if w_hs {
            beat += 1;
        }
        if sim.axi.bvalid {
            break;
        }
    }
    assert_eq!(number(&c.peek(0x40)), 0xaaaa);
    assert_eq!(number(&c.peek(0x44)), 0xbbbb);
}

/// Drives a single-beat normal write and returns the captured BRESP.
fn write1(sim: &mut Sim, c: &mut Axi4Ram, addr: u64, data: u64) -> u64 {
    sim.axi.awaddr = addr;
    sim.axi.awlen = 0;
    sim.axi.awsize = 2;
    sim.axi.awburst = 1;
    sim.axi.awid = 1;
    sim.axi.awlock = 0;
    sim.axi.wstrb = vec![0xf];
    sim.axi.wlast = bits(1, 1);
    sim.axi.wdata = vec![data];
    sim.axi.bready = bits(1, 1);
    sim.axi.awvalid = bits(1, 1);
    sim.axi.wvalid = bits(1, 1);
    let mut aw_done = false;
    let mut w_done = false;
    let mut bresp = 0;
    for _ in 0..20 {
        let aw_hs = !aw_done && sim.axi.awready;
        let w_hs = !w_done && sim.axi.wready;
        sim.clock(c);
        if aw_hs {
            aw_done = true;
            sim.axi.awvalid = bits(0, 1);
        }
        if w_hs {
            w_done = true;
            sim.axi.wvalid = bits(0, 1);
        }
        if sim.axi.bvalid {
            bresp = sim.axi.bresp;
            break;
        }
    }
    bresp
}

/// Drives a single-beat read and returns the captured RRESP.
fn read1(sim: &mut Sim, c: &mut Axi4Ram, addr: u64) -> u64 {
    sim.axi.araddr = addr;
    sim.axi.arlen = 0;
    sim.axi.arsize = 2;
    sim.axi.arburst = 1;
    sim.axi.arid = 1;
    sim.axi.arlock = 0;
    sim.axi.rready = bits(1, 1);
    sim.axi.arvalid = bits(1, 1);
    let mut ar_done = false;
    let mut rresp = 0;
    for _ in 0..20 {
        let ar_hs = !ar_done && sim.axi.arready;
        let r_hs = sim.axi.rvalid;
        sim.clock(c);
        if ar_hs {
            ar_done = true;
            sim.axi.arvalid = bits(0, 1);
        }
        if r_hs {
            rresp = sim.axi.rresp;
            break;
        }
    }
    rresp
}

#[test]
fn ram_injected_slverr_write_does_not_land() {
    let mut sim = Sim::new();
    let mut c = Axi4Ram::on_build(32, 32, config(None), 0).unwrap();
    sim.rst = bits(0, 1);
    c.set_resp(0x40, SLVERR);
    assert_eq!(write1(&mut sim, &mut c, 0x40, 0xbad), SLVERR);
    assert_eq!(
        number(&c.peek(0x40)),
        0 // an errored write leaves memory untouched
    );
}

#[test]
fn decerr_past_size() {
    let mut sim = Sim::new();
    let mut c = Axi4Ram::on_build(32, 32, config(Some(0x100)), 0).unwrap();
    sim.rst = bits(0, 1);
    assert_eq!(read1(&mut sim, &mut c, 0x200), DECERR);
    assert_eq!(write1(&mut sim, &mut c, 0x200, 0x1), DECERR);
}

#[test]
fn axi4_reads_take_turns() {
    let mut sim = Sim::new();
    let mut c = Axi4Ram::on_build(32, 32, config(None), 0).unwrap();
    c.fill(0, 64);
    sim.axi.arsize = 2;
    sim.axi.arburst = 1;
    sim.axi.arvalid = bits(1, 1);
    sim.axi.arlen = 1;
    for (id, addr) in [(3, 0x40), (5, 0x80)] {
        sim.axi.arid = id;
        sim.axi.araddr = addr;
        while !sim.axi.arready {
            sim.clock(&mut c);
        }
        sim.clock(&mut c);
    }
    sim.axi.arvalid = bits(0, 1);
    sim.axi.rready = bits(1, 1);
    let mut seen = Vec::new();
    while sim.axi.rvalid {
        seen.push((sim.axi.rid, sim.axi.rdata[0], sim.axi.rlast));
        sim.clock(&mut c);
    }
    assert_eq!(
        seen,
        vec![
            (3, 0x40, false),
            (5, 0x80, false),
            (3, 0x44, true),
            (5, 0x84, true)
        ]
    );
}

#[test]
fn axi4_offered_beat_is_held() {
    let mut sim = Sim::new();
    let mut c = Axi4Ram::on_build(32, 32, config(None), 0).unwrap();
    c.poke(0x10, &word(0x1234)).unwrap();
    sim.axi.arvalid = bits(1, 1);
    sim.axi.araddr = 0x10;
    sim.axi.arsize = 2;
    sim.axi.arburst = 1;
    sim.axi.arid = 9;
    sim.clock(&mut c);
    sim.clock(&mut c);
    sim.axi.arvalid = bits(0, 1);
    for _ in 0..5 {
        assert!(sim.axi.rvalid && sim.axi.rlast);
        assert_eq!((sim.axi.rid, sim.axi.rdata[0], sim.axi.rresp), (9, 0x1234, OKAY));
        sim.clock(&mut c);
    }
}

#[test]
fn axi4_reservations_are_per_word() {
    let mut sim = Sim::new();
    let mut c = Axi4Ram::on_build(32, 32, config(None), 0).unwrap();
    excl_read(&mut sim, &mut c, 0x40);
    // A write to another word leaves the reservation alone.
    assert_eq!(write1(&mut sim, &mut c, 0x44, 1), OKAY);
    assert_eq!(excl_write(&mut sim, &mut c, 0x40, 0x77), EXOKAY);
    assert_eq!(number(&c.peek(0x40)), 0x77);
}

#[test]
fn axi4_reset_keeps_the_memory_and_drops_reservations() {
    let mut sim = Sim::new();
    let mut c = Axi4Ram::on_build(32, 32, config(None), 0).unwrap();
    c.poke(0x40, &word(5)).unwrap();
    excl_read(&mut sim, &mut c, 0x40);
    sim.rst = bits(1, 1);
    sim.clock(&mut c);
    sim.rst = bits(0, 1);
    sim.clock(&mut c);
    assert_eq!(excl_write(&mut sim, &mut c, 0x40, 6), OKAY);
    assert_eq!(number(&c.peek(0x40)), 5);
}

#[test]
fn axi4_size_may_end_inside_a_word() {
    let mut sim = Sim::new();
    let mut c = Axi4Ram::on_build(32, 32, config(Some(0x102)), 0).unwrap();
    // Two beats of a halfword each, the second at the size.
    sim.axi.araddr = 0x100;
    sim.axi.arlen = 1;
    sim.axi.arsize = 1;
    sim.axi.arburst = 1;
    sim.axi.rready = bits(1, 1);
    sim.axi.arvalid = bits(1, 1);
    let mut seen = Vec::new();
    for _ in 0..10 {
        let taken = sim.axi.arready;
        if sim.axi.rvalid {
            seen.push(sim.axi.rresp);
        }
        sim.clock(&mut c);
        if taken {
            sim.axi.arvalid = bits(0, 1);
        }
    }
    assert_eq!(seen, [OKAY, DECERR]);
}

/// Writes a burst of words from `addr` on, one strobe for each beat. Gives back
/// every response that came within 40 cycles.
fn write_words(sim: &mut Sim, c: &mut Axi4Ram, addr: u64, beats: &[(u64, u64)]) -> Vec<u64> {
    sim.axi.awaddr = addr;
    sim.axi.awlen = beats.len() as u64 - 1;
    sim.axi.awsize = 2;
    sim.axi.awburst = 1;
    sim.axi.bready = bits(1, 1);
    let mut responses = Vec::new();
    let mut aw_done = false;
    let mut beat = 0;
    for _ in 0..40 {
        sim.axi.awvalid = bits(u64::from(!aw_done), 1);
        sim.axi.wvalid = bits(u64::from(beat < beats.len()), 1);
        if beat < beats.len() {
            sim.axi.wdata = vec![beats[beat].0];
            sim.axi.wstrb = vec![beats[beat].1];
            sim.axi.wlast = bits(u64::from(beat + 1 == beats.len()), 1);
        }
        let aw_hs = !aw_done && sim.axi.awready;
        let w_hs = beat < beats.len() && sim.axi.wready;
        if sim.axi.bvalid {
            responses.push(sim.axi.bresp);
        }
        sim.clock(c);
        aw_done = aw_done || aw_hs;
        beat += usize::from(w_hs);
    }
    responses
}

#[test]
fn axi4_burst_is_answered_once_with_its_worst_response() {
    let mut sim = Sim::new();
    let mut c = Axi4Ram::on_build(32, 32, config(Some(0x4c)), 0).unwrap();
    c.poke(0x40, &word(0x1111_1111)).unwrap();
    c.poke(0x44, &word(0x2222_2222)).unwrap();
    c.poke(0x48, &word(0x3333_3333)).unwrap();
    c.set_resp(0x44, SLVERR);
    let beats = [(0xaaaa_aaaa, 0x5), (0xbbbb_bbbb, 0xf), (0xcccc_cccc, 0x8)];
    assert_eq!(write_words(&mut sim, &mut c, 0x40, &beats), [SLVERR]);
    assert_eq!(number(&c.peek(0x40)), 0x11aa_11aa);
    assert_eq!(number(&c.peek(0x44)), 0x2222_2222);
    assert_eq!(number(&c.peek(0x48)), 0xcc33_3333);
    // The next beat lies past the end, and DECERR is worse than SLVERR.
    let beats = [(1, 0xf), (2, 0xf), (3, 0xf), (4, 0xf)];
    assert_eq!(write_words(&mut sim, &mut c, 0x40, &beats), [DECERR]);
    assert_eq!(number(&c.peek(0x40)), 1);
    assert_eq!(number(&c.peek(0x44)), 0x2222_2222);
    assert_eq!(number(&c.peek(0x48)), 3);
}
