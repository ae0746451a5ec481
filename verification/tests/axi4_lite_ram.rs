use vip::axi4_lite::{Axi4LiteRam, Axi4LiteSlavePorts, LiteRamConfig};
use vip::common::resp::{DECERR, OKAY, SLVERR};
use vip::common::words::number;
use vip::value::Value;

/// A `width`-bit value without X or Z bits.
fn bits(v: u64, width: u32) -> Value {
    Value::Bits {
        words: vec![v],
        mask_xz: vec![0],
        width,
    }
}

/// A 64-bit argument.
fn word(v: u64) -> Value {
    bits(v, 64)
}

/// A 32-bit memory without an end, latencies or backpressure.
const PLAIN: LiteRamConfig = LiteRamConfig {
    width: 32,
    read_latency: None,
    write_latency: None,
    stall: None,
    size: None,
};

fn build(config: LiteRamConfig) -> Axi4LiteRam {
    Axi4LiteRam::on_build(32, 32, config, 0).unwrap()
}

/// The bus as the component under test sees it.
struct Sim {
    rst: Value,
    axi: Axi4LiteSlavePorts,
}

impl Sim {
    fn new() -> Sim {
        Sim {
            rst: bits(0, 1),
            axi: Axi4LiteSlavePorts {
                awvalid: bits(0, 1),
                awready: false,
                awaddr: 0,
                wvalid: bits(0, 1),
                wready: false,
                wdata: vec![0],
                wstrb: vec![0],
                bvalid: false,
                bready: bits(0, 1),
                bresp: 0,
                arvalid: bits(0, 1),
                arready: false,
                araddr: 0,
                rvalid: false,
                rready: bits(0, 1),
                rdata: vec![0],
                rresp: 0,
            },
        }
    }

    fn clock(&mut self, c: &mut Axi4LiteRam) {
        c.on_clock(&self.rst, &mut self.axi);
    }
}

/// Drives a single held write and clocks until the response, returning
/// the cycle count and the observed BRESP.
fn run_write(sim: &mut Sim, c: &mut Axi4LiteRam, addr: u64, data: u64) -> (u32, u64) {
    sim.rst = bits(0, 1);
    sim.axi.awvalid = bits(1, 1);
    sim.axi.awaddr = addr;
    sim.axi.wvalid = bits(1, 1);
    sim.axi.wdata = vec![data];
    sim.axi.wstrb = vec![0xf];
    sim.axi.bready = bits(1, 1);
    for cycle in 1..=40 {
        sim.clock(c);
        if sim.axi.bvalid {
            let bresp = sim.axi.bresp;
            sim.axi.awvalid = bits(0, 1);
            sim.axi.wvalid = bits(0, 1);
            return (cycle, bresp);
        }
    }
    panic!("write never responded");
}

#[test]
fn backdoor_poke_and_peek() {
    let mut c = build(PLAIN);
    c.poke(0x10, &word(0x1234)).unwrap();
    let v = c.peek(0x10);
    assert_eq!(number(&v), 0x1234);
}

#[test]
fn bus_write_lands_in_memory() {
    let mut sim = Sim::new();
    let mut c = build(PLAIN);
    let (_, bresp) = run_write(&mut sim, &mut c, 0x20, 0xdeadbeef);
    assert_eq!(bresp, OKAY);
    let v = c.peek(0x20);
    assert_eq!(number(&v), 0xdeadbeef);
}

#[test]
fn partial_strobe_merges_bytes() {
    let mut sim = Sim::new();
    let mut c = build(PLAIN);
    c.poke(0x0, &word(0x1111_2222)).unwrap();
    sim.rst = bits(0, 1);
    sim.axi.awvalid = bits(1, 1);
    sim.axi.awaddr = 0x0;
    sim.axi.wvalid = bits(1, 1);
    sim.axi.wdata = vec![0xaaaa_bbbb];
    sim.axi.wstrb = vec![0b0011];
    sim.axi.bready = bits(1, 1);
    sim.clock(&mut c);
    sim.clock(&mut c);
    let v = c.peek(0x0);
    assert_eq!(number(&v), 0x1111_bbbb);
}

#[test]
fn bus_read_returns_memory() {
    let mut sim = Sim::new();
    let mut c = build(PLAIN);
    c.poke(0x30, &word(0xcafe)).unwrap();
    sim.rst = bits(0, 1);
    sim.axi.arvalid = bits(1, 1);
    sim.axi.araddr = 0x30;
    sim.axi.rready = bits(1, 1);
    sim.clock(&mut c); // arready asserts
    sim.clock(&mut c); // ar handshake + data driven
    assert!(sim.axi.rvalid);
    assert_eq!(sim.axi.rdata[0], 0xcafe);
    assert_eq!(sim.axi.rresp, OKAY);
}

#[test]
fn write_latency_delays_the_response() {
    let mut sim = Sim::new();
    let mut c = build(LiteRamConfig { write_latency: Some(3), ..PLAIN });
    let (fast_cycle, _) = {
        let mut base = Sim::new();
        let mut bc = build(PLAIN);
        run_write(&mut base, &mut bc, 0x20, 0x1)
    };
    let (slow_cycle, _) = run_write(&mut sim, &mut c, 0x20, 0x1);
    assert_eq!(slow_cycle, fast_cycle + 3, "latency should add 3 cycles");
}

#[test]
fn injected_error_response() {
    let mut sim = Sim::new();
    let mut c = build(PLAIN);
    c.set_resp(0x20, SLVERR);
    let (_, bresp) = run_write(&mut sim, &mut c, 0x20, 0x1);
    assert_eq!(bresp, SLVERR);
}

#[test]
fn out_of_range_access_decerrs() {
    let mut sim = Sim::new();
    let mut c = build(LiteRamConfig { size: Some(0x100), ..PLAIN });
    // A write beyond SIZE returns DECERR and does not land in memory.
    let (_, bresp) = run_write(&mut sim, &mut c, 0x200, 0x1);
    assert_eq!(bresp, DECERR);
    assert_eq!(number(&c.peek(0x200)), 0);
    // A read beyond SIZE also returns DECERR.
    sim.axi.awvalid = bits(0, 1);
    sim.axi.wvalid = bits(0, 1);
    sim.axi.arvalid = bits(1, 1);
    sim.axi.araddr = 0x200;
    sim.axi.rready = bits(1, 1);
    for _ in 0..8 {
        sim.clock(&mut c);
        if sim.axi.rvalid {
            break;
        }
    }
    assert_eq!(sim.axi.rresp, DECERR);
}

#[test]
fn write_completes_under_backpressure() {
    let mut sim = Sim::new();
    let mut c = build(LiteRamConfig { stall: Some(200), ..PLAIN });
    let (_, bresp) = run_write(&mut sim, &mut c, 0x20, 0xbeef);
    assert_eq!(bresp, OKAY);
    let v = c.peek(0x20);
    assert_eq!(number(&v), 0xbeef);
}

#[test]
fn load_hex_populates_memory() {
    let mut c = build(PLAIN);
    c.load_hex("# preload\n40 aa\n44 bb\n\n").unwrap();
    assert_eq!(number(&c.peek(0x40)), 0xaa);
    assert_eq!(number(&c.peek(0x44)), 0xbb);
}

#[test]
fn readonly_region_rejects_writes() {
    let mut sim = Sim::new();
    let mut c = build(PLAIN);
    c.poke(0x40, &word(0x1234)).unwrap();
    c.set_readonly(0x40, 0x10);
    let (_, bresp) = run_write(&mut sim, &mut c, 0x40, 0xdead);
    assert_eq!(bresp, SLVERR);
    // The protected word keeps its original value; reads still work.
    assert_eq!(number(&c.peek(0x40)), 0x1234);
}

#[test]
fn dump_hex_writes_memory() {
    let mut c = build(PLAIN);
    c.poke(0x40, &word(0xaa)).unwrap();
    c.poke(0x44, &word(0xbb)).unwrap();
    let text = c.dump_hex();
    assert!(text.contains("40 aa"), "{text}");
    assert!(text.contains("44 bb"), "{text}");
}

#[test]
fn wide_data_roundtrips_over_the_bus() {
    // A 128-bit data bus, wider than a u64.
    let mut sim = Sim::new();
    let mut c = build(LiteRamConfig { width: 128, ..PLAIN });
    sim.rst = bits(0, 1);

    let value = vec![0xdead_beef_cafe_f00d, 0x0123_4567_89ab_cdef];
    sim.axi.awvalid = bits(1, 1);
    sim.axi.awaddr = 0x20;
    sim.axi.wvalid = bits(1, 1);
    sim.axi.wdata = value.clone();
    sim.axi.wstrb = vec![0xffff];
    sim.axi.bready = bits(1, 1);
    sim.clock(&mut c);
    sim.clock(&mut c);
    sim.axi.awvalid = bits(0, 1);
    sim.axi.wvalid = bits(0, 1);
    sim.clock(&mut c);

    sim.axi.arvalid = bits(1, 1);
    sim.axi.araddr = 0x20;
    sim.axi.rready = bits(1, 1);
    for _ in 0..6 {
        sim.clock(&mut c);
        if sim.axi.rvalid {
            break;
        }
    }
    assert_eq!(sim.axi.rdata, value);
}

#[test]
fn ram_address_wider_than_64_bits_is_rejected() {
    let err = Axi4LiteRam::on_build(96, 96, PLAIN, 0).err().unwrap();
    assert!(err.message().contains("64-bit address limit"));
}

#[test]
fn lite_read_waits_for_its_latency() {
    for latency in 0..5 {
        let mut sim = Sim::new();
        let mut c = build(LiteRamConfig {
            read_latency: Some(latency),
            ..PLAIN
        });
        c.poke(0x10, &word(0x55)).unwrap();
        sim.clock(&mut c);
        assert!(sim.axi.arready);
        sim.axi.arvalid = bits(1, 1);
        sim.axi.araddr = 0x10;
        sim.clock(&mut c);
        sim.axi.arvalid = bits(0, 1);
        for _ in 0..latency {
            assert!(!sim.axi.rvalid);
            sim.clock(&mut c);
        }
        assert!(sim.axi.rvalid);
        assert_eq!(sim.axi.rdata, vec![0x55]);
        // The response is held until it is taken.
        sim.clock(&mut c);
        assert!(sim.axi.rvalid);
        sim.axi.rready = bits(1, 1);
        sim.clock(&mut c);
        assert!(!sim.axi.rvalid);
    }
}

#[test]
fn lite_bad_image_line_is_named() {
    let mut c = build(PLAIN);
    let e = c.load_hex("0 1\n# comment\n\n4 zz\n8 2\n").unwrap_err();
    assert_eq!(e.message("mem.hex"), "mem.hex:4: expected two hex fields");
    // What stands before the bad line is loaded.
    assert_eq!(number(&c.peek(0)), 1);
    assert_eq!(number(&c.peek(8)), 0);
}

#[test]
fn lite_image_fields_are_trimmed_and_extra_ones_ignored() {
    let mut c = build(PLAIN);
    c.load_hex("  10\t+AB  ignored \r\n14 cd").unwrap();
    assert_eq!(number(&c.peek(0x10)), 0xab);
    assert_eq!(number(&c.peek(0x14)), 0xcd);
    assert_eq!(c.load_hex("0x10 1").unwrap_err().line, 1);
    assert_eq!(c.load_hex("10").unwrap_err().line, 1);
    assert_eq!(c.load_hex("\n10 10000000000000000").unwrap_err().line, 2);
}

#[test]
fn lite_memory_is_addressed_by_word() {
    let mut c = build(PLAIN);
    c.poke(0x13, &word(0x77)).unwrap();
    assert_eq!(number(&c.peek(0x10)), 0x77);
    assert_eq!(number(&c.peek(0x14)), 0);
}

#[test]
fn lite_poke_refuses_what_does_not_fit() {
    let mut c = build(PLAIN);
    let e = c.poke(0, &word(1 << 32)).unwrap_err();
    assert_eq!(e.message(), "poke data does not fit the 32-bit bus");
    let x = Value::Bits {
        words: vec![0],
        mask_xz: vec![2],
        width: 32,
    };
    assert_eq!(
        c.poke(0, &x).unwrap_err().message(),
        "poke data contains X/Z bits"
    );
    assert_eq!(
        c.poke(0, &Value::Unit).unwrap_err().message(),
        "poke data is not a bit value"
    );
}

/// Drives a single held read and clocks until the response, returning RRESP.
fn run_read(sim: &mut Sim, c: &mut Axi4LiteRam, addr: u64) -> u64 {
    sim.axi.arvalid = bits(1, 1);
    sim.axi.araddr = addr;
    sim.axi.rready = bits(1, 1);
    for _ in 0..8 {
        sim.clock(c);
        if sim.axi.rvalid {
            sim.axi.arvalid = bits(0, 1);
            return sim.axi.rresp;
        }
    }
    panic!("read never responded");
}

#[test]
fn lite_size_may_end_inside_a_word() {
    let mut sim = Sim::new();
    let mut c = build(LiteRamConfig { size: Some(0x102), ..PLAIN });
    assert_eq!(run_read(&mut sim, &mut c, 0x101), OKAY);
    sim.clock(&mut c);
    assert_eq!(run_read(&mut sim, &mut c, 0x102), DECERR);
    let mut sim = Sim::new();
    let mut c = build(LiteRamConfig { size: Some(0x102), ..PLAIN });
    assert_eq!(run_write(&mut sim, &mut c, 0x103, 0xff).1, DECERR);
    assert_eq!(number(&c.peek(0x100)), 0);
}

/// The response to a write with these strobes to a fresh memory whose bytes
/// from `start` on are protected.
fn protected_write(start: u64, len: u64, addr: u64, strb: u64) -> u64 {
    let mut sim = Sim::new();
    let mut c = build(PLAIN);
    c.set_readonly(start, len);
    sim.axi.awvalid = bits(1, 1);
    sim.axi.awaddr = addr;
    sim.axi.wvalid = bits(1, 1);
    sim.axi.wdata = vec![0xdead_beef];
    sim.axi.wstrb = vec![strb];
    sim.axi.bready = bits(1, 1);
    while !sim.axi.bvalid {
        sim.clock(&mut c);
    }
    let key = addr & !3;
    assert_eq!(number(&c.peek(key)) == 0, sim.axi.bresp != OKAY || strb == 0);
    sim.axi.bresp
}

#[test]
fn lite_protected_bytes_inside_a_word_refuse_writes() {
    // By address.
    assert_eq!(protected_write(0x42, 2, 0x42, 0b0001), SLVERR);
    assert_eq!(protected_write(0x42, 2, 0x43, 0), SLVERR);
    // By an active lane.
    assert_eq!(protected_write(0x42, 2, 0x40, 0b1111), SLVERR);
    assert_eq!(protected_write(0x42, 2, 0x40, 0b0100), SLVERR);
    assert_eq!(protected_write(0x40, 2, 0x43, 0b0001), SLVERR);
    // Beside the protected bytes.
    assert_eq!(protected_write(0x42, 2, 0x40, 0b0011), OKAY);
    assert_eq!(protected_write(0x42, 2, 0x44, 0b1111), OKAY);
    assert_eq!(protected_write(0x40, 0, 0x40, 0b1111), OKAY);
    // Up to the end of the address space.
    assert_eq!(protected_write(u64::MAX, 1, u64::MAX, 0), SLVERR);
    assert_eq!(protected_write(u64::MAX - 3, 4, u64::MAX - 3, 0b1000), SLVERR);
}

#[test]
fn lite_loaded_dump_reads_alike() {
    let mut c = build(PLAIN);
    c.poke(0x40, &word(0xaa)).unwrap();
    c.poke(0x47, &word(0xdead_beef)).unwrap();
    c.poke(0xffff_fff0, &word(0)).unwrap();
    let text = c.dump_hex();
    let mut d = build(PLAIN);
    d.load_hex(&text).unwrap();
    for addr in [0x0, 0x40, 0x41, 0x44, 0x48, 0xffff_fff0] {
        assert_eq!(d.peek(addr), c.peek(addr));
    }
    assert_eq!(number(&d.peek(0x44)), 0xdead_beef);
    // Loading over other words leaves those that the image lacks.
    let mut e = build(PLAIN);
    e.poke(0x80, &word(7)).unwrap();
    e.poke(0x40, &word(8)).unwrap();
    e.load_hex(&text).unwrap();
    assert_eq!(number(&e.peek(0x40)), 0xaa);
    assert_eq!(number(&e.peek(0x80)), 7);
}
