//! AXI4-Lite slave memory with a backdoor.

use crate::axi4_lite::hex::{dump, dumped, first_bad, load, loaded, HexError};
use crate::collections::lists_keys;
use crate::common::lanes::{bytes_for, lane_count, nth_word, strobed};
use crate::common::memory::{lemma_read_gives_back_write, Memory, MemoryView};
use crate::common::random::{after_stall, seed_lfsr, seeded, stall_now, stalls};
use crate::common::resp::{OKAY, SLVERR};
use crate::common::setup::{find_too_wide, too_wide, BuildError};
use crate::common::stimulus::{full_strobe, sized};
use crate::common::words::{
    answers, arg_result, data_view, extended, is_set, masked, words_for, zero_words, zeros,
    ArgError,
};
use crate::value::{copy_words, word_count, Value};
use vstd::prelude::*;

verus! {

/// The signals of an AXI4-Lite bus in one cycle, as a slave drives and sees
/// them.
pub struct Axi4LiteSlavePorts {
    pub awvalid: Value,
    pub awready: bool,
    pub awaddr: u64,
    pub wvalid: Value,
    pub wready: bool,
    pub wdata: Vec<u64>,
    pub wstrb: Vec<u64>,
    pub bvalid: bool,
    pub bready: Value,
    pub bresp: u64,
    pub arvalid: Value,
    pub arready: bool,
    pub araddr: u64,
    pub rvalid: bool,
    pub rready: Value,
    pub rdata: Vec<u64>,
    pub rresp: u64,
}

/// How a memory is set up.
#[derive(Clone, Copy, Debug, PartialEq, Eq, Structural)]
pub struct LiteRamConfig {
    /// The width of the write data port.
    pub width: u32,
    /// The cycles before a read response.
    pub read_latency: Option<u64>,
    /// The cycles before a write response.
    pub write_latency: Option<u64>,
    /// The weight, of 256, for dropping the READY lines.
    pub stall: Option<u64>,
    /// The size in bytes; no size means no end.
    pub size: Option<u64>,
}

/// What an [`Axi4LiteRam`] holds.
#[verifier::ext_equal]
pub ghost struct Axi4LiteRamView {
    pub config: LiteRamConfig,
    pub mem: MemoryView,
    /// The write-protected ranges: the first byte and the number of bytes.
    pub readonly: Seq<(u64, u64)>,
    pub lfsr: u64,
    pub aw_ready: bool,
    pub w_ready: bool,
    pub b_valid: bool,
    pub b_resp: u64,
    pub ar_ready: bool,
    pub r_valid: bool,
    pub r_data: Seq<u64>,
    pub r_resp: u64,
    pub r_addr: u64,
    /// Whether the address of a write was taken.
    pub have_aw: bool,
    /// Whether the data of a write was taken.
    pub have_w: bool,
    pub addr: u64,
    pub data: Seq<u64>,
    pub strb: Seq<u64>,
    /// The cycles before the response to a write.
    pub write_delay: Option<u64>,
    /// The cycles before the response to a read.
    pub read_delay: Option<u64>,
}

/// Whether a byte lies in a range given by its first byte and its length.
pub open spec fn in_range(range: (u64, u64), byte: u64) -> bool {
    range.0 <= byte < range.0 + range.1
}

/// The cycles of a configured latency.
pub open spec fn cycles_of(latency: Option<u64>) -> u64 {
    match latency {
        Some(n) => n,
        None => 0,
    }
}

impl Axi4LiteRamView {
    /// The memory is as wide as the bus and its words are whole.
    pub open spec fn wf(self) -> bool {
        &&& self.mem.wf()
        &&& self.mem.width == self.config.width
    }

    /// A memory that was never written, with nothing in flight.
    pub open spec fn fresh(config: LiteRamConfig, seed: u64) -> Self {
        Axi4LiteRamView {
            config,
            mem: MemoryView::empty(config.width, config.size),
            readonly: seq![],
            lfsr: seeded(seed),
            aw_ready: false,
            w_ready: false,
            b_valid: false,
            b_resp: 0,
            ar_ready: false,
            r_valid: false,
            r_data: zeros(word_count(config.width)),
            r_resp: 0,
            r_addr: 0,
            have_aw: false,
            have_w: false,
            addr: 0,
            data: zeros(word_count(config.width)),
            strb: zeros(word_count(lane_count(config.width) as u32)),
            write_delay: None,
            read_delay: None,
        }
    }

    /// After a reset: in-flight accesses are dropped, the memory stays.
    pub open spec fn reset(self) -> Self {
        Axi4LiteRamView {
            aw_ready: false,
            w_ready: false,
            b_valid: false,
            ar_ready: false,
            r_valid: false,
            have_aw: false,
            have_w: false,
            write_delay: None,
            read_delay: None,
            ..self
        }
    }

    /// Whether a byte is write-protected.
    pub open spec fn protected(self, byte: u64) -> bool {
        exists|i: int|
            0 <= i < self.readonly.len() && in_range(#[trigger] self.readonly[i], byte)
    }

    /// Whether a write is to protected bytes: its address is one, or a lane
    /// that its strobes activate.
    pub open spec fn refuses(self, addr: u64, strb: Seq<u64>) -> bool {
        self.protected(addr) || self.refuses_lane(addr, strb, lane_count(self.mem.width))
    }

    /// Whether one of the first `n` lanes that the strobes activate is
    /// protected.
    pub open spec fn refuses_lane(self, addr: u64, strb: Seq<u64>, n: u64) -> bool {
        exists|lane: u64|
            {
                &&& lane < n
                &&& #[trigger] strobed(strb, lane as int)
                &&& self.mem.key(addr) + lane <= u64::MAX
                &&& self.protected((self.mem.key(addr) + lane) as u64)
            }
    }

    /// The response to a write: SLVERR where it is to protected bytes, else
    /// that to a read.
    pub open spec fn write_response(self, addr: u64, strb: Seq<u64>) -> u64 {
        let base = self.mem.response(addr);
        if base == OKAY && self.refuses(addr, strb) {
            SLVERR
        } else {
            base
        }
    }

    /// After the draw that decides whether to stall.
    pub open spec fn drawn(self) -> Self {
        Axi4LiteRamView { lfsr: after_stall(self.lfsr, self.config.stall), ..self }
    }

    /// After the address and the data of a write were taken, or not.
    pub open spec fn captured(self, p: Axi4LiteSlavePorts) -> Self {
        let aw = p.awvalid@.truth() && self.aw_ready;
        let w = p.wvalid@.truth() && self.w_ready;
        Axi4LiteRamView {
            addr: if aw {
                p.awaddr
            } else {
                self.addr
            },
            have_aw: self.have_aw || aw,
            data: if w {
                extended(p.wdata@, word_count(self.config.width))
            } else {
                self.data
            },
            strb: if w {
                extended(p.wstrb@, word_count(lane_count(self.config.width) as u32))
            } else {
                self.strb
            },
            have_w: self.have_w || w,
            b_valid: self.b_valid && !p.bready@.truth(),
            ..self
        }
    }

    /// After a write with both halves taken began to wait for its response.
    pub open spec fn write_started(self) -> Self {
        if self.have_aw && self.have_w && !self.b_valid && self.write_delay is None {
            Axi4LiteRamView {
                write_delay: Some(cycles_of(self.config.write_latency)),
                ..self
            }
        } else {
            self
        }
    }

    /// After a cycle of waiting. A write whose time has come is applied,
    /// unless its response is an error, and answered.
    pub open spec fn write_timed(self) -> Self {
        match self.write_delay {
            Some(d) => if d == 0 {
                let code = self.write_response(self.addr, self.strb);
                Axi4LiteRamView {
                    b_resp: code,
                    mem: if code == OKAY {
                        self.mem.written(self.addr, self.data, self.strb)
                    } else {
                        self.mem
                    },
                    have_aw: false,
                    have_w: false,
                    b_valid: true,
                    write_delay: None,
                    ..self
                }
            } else {
                Axi4LiteRamView { write_delay: Some((d - 1) as u64), ..self }
            },
            None => self,
        }
    }

    /// After the read data was taken, or not, and a read was taken, or not.
    pub open spec fn read_started(self, p: Axi4LiteSlavePorts) -> Self {
        let valid = self.r_valid && !p.rready@.truth();
        if p.arvalid@.truth() && self.ar_ready && !valid && self.read_delay is None {
            Axi4LiteRamView {
                r_valid: valid,
                r_addr: p.araddr,
                read_delay: Some(cycles_of(self.config.read_latency)),
                ..self
            }
        } else {
            Axi4LiteRamView { r_valid: valid, ..self }
        }
    }

    /// After a cycle of waiting. A read whose time has come is answered.
    pub open spec fn read_timed(self) -> Self {
        match self.read_delay {
            Some(d) => if d == 0 {
                Axi4LiteRamView {
                    r_data: self.mem.at(self.r_addr),
                    r_resp: self.mem.response(self.r_addr),
                    r_valid: true,
                    read_delay: None,
                    ..self
                }
            } else {
                Axi4LiteRamView { read_delay: Some((d - 1) as u64), ..self }
            },
            None => self,
        }
    }

    /// With the READY lines for the next cycle.
    pub open spec fn readied(self, stall: bool) -> Self {
        Axi4LiteRamView {
            aw_ready: !self.have_aw && !stall,
            w_ready: !self.have_w && !stall,
            ar_ready: !self.r_valid && self.read_delay is None && !stall,
            ..self
        }
    }

    /// After a cycle.
    pub open spec fn clocked(self, rst: bool, p: Axi4LiteSlavePorts) -> Self {
        if rst {
            self.reset()
        } else {
            self.drawn().captured(p).write_started().write_timed().read_started(
                p,
            ).read_timed().readied(stalls(self.lfsr, self.config.stall))
        }
    }
}

/// Whether the inputs of a cycle stay as they are.
pub open spec fn same_inputs(before: Axi4LiteSlavePorts, after: Axi4LiteSlavePorts) -> bool {
    &&& after.awvalid == before.awvalid
    &&& after.awaddr == before.awaddr
    &&& after.wvalid == before.wvalid
    &&& after.wdata == before.wdata
    &&& after.wstrb == before.wstrb
    &&& after.bready == before.bready
    &&& after.arvalid == before.arvalid
    &&& after.araddr == before.araddr
    &&& after.rready == before.rready
}

/// Whether `after` is `before` with the outputs of a memory in state `s`. In
/// reset only the handshake lines are driven.
pub open spec fn drives(
    s: Axi4LiteRamView,
    rst: bool,
    before: Axi4LiteSlavePorts,
    after: Axi4LiteSlavePorts,
) -> bool {
    &&& same_inputs(before, after)
    &&& after.awready == s.aw_ready
    &&& after.wready == s.w_ready
    &&& after.bvalid == s.b_valid
    &&& after.arready == s.ar_ready
    &&& after.rvalid == s.r_valid
    &&& after.bresp == (if rst {
        before.bresp
    } else {
        s.b_resp
    })
    &&& after.rresp == (if rst {
        before.rresp
    } else {
        s.r_resp
    })
    &&& after.rdata@ == (if rst {
        before.rdata@
    } else {
        s.r_data
    })
}

/// AXI4-Lite slave that answers reads and writes from a sparse memory, one at
/// a time in each direction, with configurable latency and backpressure.
/// Backdoor methods preload and inspect the memory and inject error
/// responses.
pub struct Axi4LiteRam {
    config: LiteRamConfig,
    mem: Memory,
    readonly: Vec<(u64, u64)>,
    lfsr: u64,
    aw_ready: bool,
    w_ready: bool,
    b_valid: bool,
    b_resp: u64,
    ar_ready: bool,
    r_valid: bool,
    r_data: Vec<u64>,
    r_resp: u64,
    r_addr: u64,
    have_aw: bool,
    have_w: bool,
    addr: u64,
    data: Vec<u64>,
    strb: Vec<u64>,
    write_delay: Option<u64>,
    read_delay: Option<u64>,
}

impl View for Axi4LiteRam {
    type V = Axi4LiteRamView;

    closed spec fn view(&self) -> Axi4LiteRamView {
        Axi4LiteRamView {
            config: self.config,
            mem: self.mem@,
            readonly: self.readonly@,
            lfsr: self.lfsr,
            aw_ready: self.aw_ready,
            w_ready: self.w_ready,
            b_valid: self.b_valid,
            b_resp: self.b_resp,
            ar_ready: self.ar_ready,
            r_valid: self.r_valid,
            r_data: self.r_data@,
            r_resp: self.r_resp,
            r_addr: self.r_addr,
            have_aw: self.have_aw,
            have_w: self.have_w,
            addr: self.addr,
            data: self.data@,
            strb: self.strb@,
            write_delay: self.write_delay,
            read_delay: self.read_delay,
        }
    }
}

fn cycles(latency: Option<u64>) -> (r: u64)
    ensures
        r == cycles_of(latency),
{
    match latency {
        Some(n) => n,
        None => 0,
    }
}

impl Axi4LiteRam {
    /// A memory behind a bus with these port widths. An address port wider
    /// than 64 bits is refused.
    pub fn on_build(awaddr: u32, araddr: u32, config: LiteRamConfig, seed: u64) -> (r: Result<
        Axi4LiteRam,
        BuildError,
    >)
        ensures
            match r {
                Ok(m) => too_wide("axi4_lite_ram", awaddr, araddr) is None && m@
                    == Axi4LiteRamView::fresh(config, seed) && m@.wf(),
                Err(e) => too_wide("axi4_lite_ram", awaddr, araddr) == Some(e),
            },
    {
        match find_too_wide("axi4_lite_ram", awaddr, araddr) {
            Some(e) => Err(e),
            None => Ok(
                Axi4LiteRam {
                    config,
                    mem: Memory::new(config.width, config.size),
                    readonly: Vec::new(),
                    lfsr: seed_lfsr(seed),
                    aw_ready: false,
                    w_ready: false,
                    b_valid: false,
                    b_resp: 0,
                    ar_ready: false,
                    r_valid: false,
                    r_data: zero_words(words_for(config.width)),
                    r_resp: 0,
                    r_addr: 0,
                    have_aw: false,
                    have_w: false,
                    addr: 0,
                    data: zero_words(words_for(config.width)),
                    strb: zero_words(words_for(bytes_for(config.width) as u32)),
                    write_delay: None,
                    read_delay: None,
                },
            ),
        }
    }

    fn clear_transactions(&mut self)
        ensures
            final(self)@ == old(self)@.reset(),
    {
        self.aw_ready = false;
        self.w_ready = false;
        self.b_valid = false;
        self.ar_ready = false;
        self.r_valid = false;
        self.have_aw = false;
        self.have_w = false;
        self.write_delay = None;
        self.read_delay = None;
    }

    fn write_resp_for(&self, addr: u64, strb: &Vec<u64>) -> (r: u64)
        ensures
            r == self@.write_response(addr, strb@),
    {
        let base: u64 = self.mem.resp_for(addr);
        if base != OKAY {
            return base;
        }
        if self.is_protected(addr) {
            return SLVERR;
        }
        let key: u64 = self.mem.key(addr);
        let bytes: u64 = bytes_for(self.mem.width());
        let mut lane: u64 = 0;
        while lane < bytes
            invariant
                lane <= bytes,
                bytes == lane_count(self@.mem.width),
                key == self@.mem.key(addr),
                base == OKAY,
                base == self@.mem.response(addr),
                !self@.protected(addr),
                !self@.refuses_lane(addr, strb@, lane),
            decreases bytes - lane,
        {
            let active = (nth_word(strb, (lane / 64) as usize) >> (lane % 64)) & 1 != 0;
            assert(active == strobed(strb@, lane as int));
            if active && lane <= u64::MAX - key && self.is_protected(key + lane) {
                assert(self@.refuses_lane(addr, strb@, bytes));
                return SLVERR;
            }
            lane = lane + 1;
        }
        OKAY
    }

    /// Whether the byte at an address is write-protected.
    fn is_protected(&self, byte: u64) -> (r: bool)
        ensures
            r == self@.protected(byte),
    {
        let mut i: usize = 0;
        while i < self.readonly.len()
            invariant
                i <= self.readonly.len(),
                forall|j: int|
                    0 <= j < i ==> !in_range(#[trigger] self.readonly[j], byte),
            decreases self.readonly.len() - i,
        {
            let (start, len): (u64, u64) = self.readonly[i];
            if byte >= start && byte - start < len {
                assert(in_range(self@.readonly[i as int], byte));
                return true;
            }
            i = i + 1;
        }
        assert forall|j: int| 0 <= j < self@.readonly.len() implies !in_range(
            #[trigger] self@.readonly[j],
            byte,
        ) by {
            assert(self.readonly[j] == self@.readonly[j]);
        }
        false
    }

    fn capture(&mut self, p: &Axi4LiteSlavePorts)
        ensures
            final(self)@ == old(self)@.captured(*p),
    {
        if is_set(&p.awvalid) && self.aw_ready {
            self.addr = p.awaddr;
            self.have_aw = true;
        }
        if is_set(&p.wvalid) && self.w_ready {
            self.data = sized(&p.wdata, self.config.width);
            self.strb = sized(&p.wstrb, bytes_for(self.config.width) as u32);
            self.have_w = true;
        }
        if is_set(&p.bready) && self.b_valid {
            self.b_valid = false;
        }
    }

    fn clock_write(&mut self)
        requires
            old(self)@.wf(),
        ensures
            final(self)@ == old(self)@.write_started().write_timed(),
            final(self)@.wf(),
    {
        if self.have_aw && self.have_w && !self.b_valid && self.write_delay.is_none() {
            self.write_delay = Some(cycles(self.config.write_latency));
        }
        if let Some(d) = self.write_delay {
            if d == 0 {
                self.b_resp = self.write_resp_for(self.addr, &self.strb);
                if self.b_resp == OKAY {
                    self.mem.write_mem(self.addr, &self.data, &self.strb);
                }
                self.have_aw = false;
                self.have_w = false;
                self.b_valid = true;
                self.write_delay = None;
            } else {
                self.write_delay = Some(d - 1);
            }
        }
    }

    fn clock_read(&mut self, p: &Axi4LiteSlavePorts)
        ensures
            final(self)@ == old(self)@.read_started(*p).read_timed(),
    {
        let fire = is_set(&p.arvalid) && self.ar_ready;
        if is_set(&p.rready) && self.r_valid {
            self.r_valid = false;
        }
        if fire && !self.r_valid && self.read_delay.is_none() {
            self.r_addr = p.araddr;
            self.read_delay = Some(cycles(self.config.read_latency));
        }
        if let Some(d) = self.read_delay {
            if d == 0 {
                self.r_data = self.mem.read_mem(self.r_addr);
                self.r_resp = self.mem.resp_for(self.r_addr);
                self.r_valid = true;
                self.read_delay = None;
            } else {
                self.read_delay = Some(d - 1);
            }
        }
    }

    /// Answers one cycle and drives the outputs.
    pub fn on_clock(&mut self, rst: &Value, axi: &mut Axi4LiteSlavePorts)
        requires
            old(self)@.wf(),
        ensures
            final(self)@ == old(self)@.clocked(rst@.truth(), *old(axi)),
            final(self)@.wf(),
            drives(final(self)@, rst@.truth(), *old(axi), *final(axi)),
    {
        if is_set(rst) {
            self.clear_transactions();
        } else {
            let stall = stall_now(&mut self.lfsr, self.config.stall);
            assert(self@ =~= old(self)@.drawn());
            self.capture(axi);
            self.clock_write();
            self.clock_read(axi);
            self.aw_ready = !self.have_aw && !stall;
            self.w_ready = !self.have_w && !stall;
            self.ar_ready = !self.r_valid && self.read_delay.is_none() && !stall;
            axi.bresp = self.b_resp;
            axi.rdata = copy_words(&self.r_data);
            axi.rresp = self.r_resp;
        }
        axi.awready = self.aw_ready;
        axi.wready = self.w_ready;
        axi.bvalid = self.b_valid;
        axi.arready = self.ar_ready;
        axi.rvalid = self.r_valid;
    }

    /// Replaces the word that holds `addr`.
    pub fn poke(&mut self, addr: u64, data: &Value) -> (r: Result<(), ArgError>)
        requires
            old(self)@.wf(),
        ensures
            final(self)@.wf(),
            match r {
                Ok(_) => arg_result(data@, old(self)@.config.width) is Ok && final(self)@ == (
                Axi4LiteRamView {
                    mem: old(self)@.mem.stored(
                        addr,
                        arg_result(data@, old(self)@.config.width)->Ok_0,
                    ),
                    ..old(self)@
                }),
                Err(e) => final(self)@ == old(self)@ && answers(
                    Err(e),
                    data@,
                    old(self)@.config.width,
                    "poke data"@,
                ),
            },
    {
        self.mem.poke(addr, data)
    }

    /// The word that holds `addr`, at full bus width.
    pub fn peek(&self, addr: u64) -> (r: Value)
        requires
            self@.wf(),
        ensures
            r@ == data_view(self@.mem.at(addr), self@.config.width),
    {
        self.mem.peek(addr)
    }

    /// Makes accesses to the word that holds `addr` answer `code`; OKAY takes
    /// an injected response away.
    pub fn set_resp(&mut self, addr: u64, code: u64)
        requires
            old(self)@.wf(),
        ensures
            final(self)@.wf(),
            final(self)@ == (Axi4LiteRamView {
                mem: old(self)@.mem.answering(addr, code),
                ..old(self)@
            }),
    {
        self.mem.set_resp(addr, code);
    }

    /// Write-protects the bytes from `start` on to below `start + len`: a write
    /// whose address or one of whose active lanes is there answers SLVERR,
    /// reads still succeed.
    pub fn set_readonly(&mut self, start: u64, len: u64)
        requires
            old(self)@.wf(),
        ensures
            final(self)@.wf(),
            final(self)@ == (Axi4LiteRamView {
                readonly: old(self)@.readonly.push((start, len)),
                ..old(self)@
            }),
    {
        self.readonly.push((start, len));
    }

    /// The memory contents as text: the low 64 bits of each written word, in
    /// the format that [`Axi4LiteRam::load_hex`] takes.
    pub fn dump_hex(&self) -> (r: String)
        ensures
            exists|addrs: Seq<u64>|
                lists_keys(addrs, self@.mem.words) && r@ == #[trigger] dumped(
                    self@.mem.words,
                    addrs,
                ),
    {
        dump(&self.mem)
    }

    /// Loads `addr data` hexadecimal pairs, one per line. Lines that are blank
    /// or start with `#` are ignored.
    pub fn load_hex(&mut self, image: &str) -> (r: Result<(), HexError>)
        requires
            old(self)@.wf(),
        ensures
            final(self)@.wf(),
            final(self)@ == (Axi4LiteRamView {
                mem: loaded(old(self)@.mem, image@, 0),
                ..old(self)@
            }),
            match r {
                Ok(_) => first_bad(image@, 0, 0) is None,
                Err(e) => first_bad(image@, 0, 0) == Some(e.line as nat),
            },
    {
        load(&mut self.mem, image)
    }

    /// What is in flight: bit 0 for a write, bit 1 for a read.
    pub fn busy(&self) -> (r: u64)
        ensures
            r == (if self@.have_aw || self@.have_w {
                1u64
            } else {
                0u64
            }) + (if self@.r_valid {
                2u64
            } else {
                0u64
            }),
    {
        let write: u64 = if self.have_aw || self.have_w {
            1
        } else {
            0
        };
        let read: u64 = if self.r_valid {
            2
        } else {
            0
        };
        write + read
    }
}

/// Whether no access waits while a response in its direction is offered.
pub open spec fn settled(s: Axi4LiteRamView) -> bool {
    &&& s.write_delay is Some ==> !s.b_valid && s.have_aw && s.have_w
    &&& s.read_delay is Some ==> !s.r_valid
}

/// A memory starts settled and every cycle keeps it so.
pub proof fn lemma_stays_settled(s: Axi4LiteRamView, rst: bool, p: Axi4LiteSlavePorts)
    requires
        settled(s),
    ensures
        settled(s.clocked(rst, p)),
        settled(Axi4LiteRamView::fresh(s.config, 0)),
{
}

/// VALID stays high and the response does not change until READY.
pub proof fn lemma_responses_are_stable(s: Axi4LiteRamView, p: Axi4LiteSlavePorts)
    requires
        settled(s),
    ensures
        ({
            let t = s.clocked(false, p);
            &&& s.b_valid && !p.bready@.truth() ==> t.b_valid && t.b_resp == s.b_resp
            &&& s.r_valid && !p.rready@.truth() ==> t.r_valid && t.r_data == s.r_data && t.r_resp
                == s.r_resp
        }),
{
}

/// A reset drops what is in flight and keeps the memory, the injected
/// responses and the protected ranges.
pub proof fn lemma_reset_keeps_memory(s: Axi4LiteRamView, p: Axi4LiteSlavePorts)
    ensures
        ({
            let t = s.clocked(true, p);
            &&& t.mem == s.mem
            &&& t.readonly == s.readonly
            &&& !t.b_valid && !t.r_valid && !t.have_aw && !t.have_w
            &&& t.write_delay is None && t.read_delay is None
        }),
{
}

/// Whether a write is answered in a cycle.
pub open spec fn answers_write(s: Axi4LiteRamView, p: Axi4LiteSlavePorts) -> bool {
    s.drawn().captured(p).write_started().write_delay == Some(0u64)
}

/// Memory changes only where a write is answered with OKAY. A write answered
/// with an error, be it injected, past the end or to a protected range, leaves
/// the memory untouched.
pub proof fn lemma_errored_writes_do_not_land(s: Axi4LiteRamView, p: Axi4LiteSlavePorts)
    ensures
        ({
            let t = s.clocked(false, p);
            let u = s.drawn().captured(p);
            if answers_write(s, p) {
                &&& t.b_valid
                &&& t.b_resp == s.write_response(u.addr, u.strb)
                &&& t.mem == (if t.b_resp == OKAY {
                    s.mem.written(u.addr, u.data, u.strb)
                } else {
                    s.mem
                })
            } else {
                t.mem == s.mem
            }
        }),
{
    let u = s.drawn().captured(p).write_started();
    assert forall|byte: u64| #[trigger] u.protected(byte) == s.protected(byte) by {}
    assert(u.refuses(u.addr, u.strb) == s.refuses(u.addr, u.strb));
}

/// A protected range refuses writes and answers reads: a write whose address
/// lies in it, or one of whose active lanes does, is an error, and protecting
/// it changes no read response.
pub proof fn lemma_readonly_refuses_writes(
    s: Axi4LiteRamView,
    start: u64,
    len: u64,
    addr: u64,
    strb: Seq<u64>,
    lane: u64,
)
    requires
        start <= addr < start + len || (lane < lane_count(s.mem.width) && strobed(
            strb,
            lane as int,
        ) && start <= s.mem.key(addr) + lane < start + len && s.mem.key(addr) + lane <= u64::MAX),
    ensures
        ({
            let t = Axi4LiteRamView { readonly: s.readonly.push((start, len)), ..s };
            &&& t.write_response(addr, strb) != OKAY
            &&& s.mem.response(addr) == OKAY ==> t.write_response(addr, strb) == SLVERR
            &&& t.mem.response(addr) == s.mem.response(addr)
            &&& t.mem.at(addr) == s.mem.at(addr)
        }),
{
    let t = Axi4LiteRamView { readonly: s.readonly.push((start, len)), ..s };
    let range = t.readonly[s.readonly.len() as int];
    assert(range == (start, len));
    if start <= addr < start + len {
        assert(in_range(range, addr));
        assert(t.protected(addr));
    } else {
        assert(in_range(range, (s.mem.key(addr) + lane) as u64));
        assert(t.protected((s.mem.key(addr) + lane) as u64));
        assert(strobed(strb, lane as int));
    }
}

/// A write that touches no protected byte is answered as a read is.
pub proof fn lemma_other_writes_are_not_refused(s: Axi4LiteRamView, addr: u64, strb: Seq<u64>)
    requires
        !s.protected(addr),
        forall|lane: u64|
            lane < lane_count(s.mem.width) && #[trigger] strobed(strb, lane as int) && s.mem.key(
                addr,
            ) + lane <= u64::MAX ==> !s.protected((s.mem.key(addr) + lane) as u64),
    ensures
        s.write_response(addr, strb) == s.mem.response(addr),
{
}

/// What a read answers is what the last full write to its word wrote: on a bus
/// of whole bytes, a write with every lane active that is answered with OKAY
/// is what a read taken in a later cycle, with no write answered in between,
/// gives back.
pub proof fn lemma_read_gives_back_write_over_bus(
    s: Axi4LiteRamView,
    p: Axi4LiteSlavePorts,
    later: Axi4LiteRamView,
    q: Axi4LiteSlavePorts,
)
    requires
        s.wf(),
        s.config.width > 0,
        s.config.width % 8 == 0,
        answers_write(s, p),
        s.clocked(false, p).b_resp == OKAY,
        ({
            let u = s.drawn().captured(p);
            &&& u.strb == full_strobe(s.config.width)
            &&& u.data.len() == word_count(s.config.width)
            &&& masked(u.data, s.config.width) == u.data
        }),
        s.mem.clean(),
        later.mem == s.clocked(false, p).mem,
        !answers_write(later, q),
        later.read_started(q).read_delay == Some(0u64),
        s.mem.key(later.read_started(q).r_addr) == s.mem.key(s.drawn().captured(p).addr),
    ensures
        later.clocked(false, q).r_valid,
        later.clocked(false, q).r_data == s.drawn().captured(p).data,
{
    let u = s.drawn().captured(p);
    lemma_errored_writes_do_not_land(s, p);
    lemma_errored_writes_do_not_land(later, q);
    lemma_read_gives_back_write(s.mem, u.addr, u.data, later.read_started(q).r_addr);
    let v = later.drawn().captured(q).write_started().write_timed();
    assert(v.mem == later.mem);
    assert(v.read_started(q).r_addr == later.read_started(q).r_addr);
    assert(v.read_started(q).read_delay == later.read_started(q).read_delay);
}

/// A run of cycles without reset.
pub open spec fn run(s: Axi4LiteRamView, cycles: Seq<Axi4LiteSlavePorts>) -> Axi4LiteRamView
    decreases cycles.len(),
{
    if cycles.len() == 0 {
        s
    } else {
        run(s, cycles.drop_last()).clocked(false, cycles.last())
    }
}

/// A write waits for its configured latency: from the cycle in which its second
/// half is taken, with no response pending, the response comes after exactly
/// that many further cycles, whatever happens on the bus meanwhile.
pub proof fn lemma_write_latency_is_kept(
    s: Axi4LiteRamView,
    p: Axi4LiteSlavePorts,
    cycles: Seq<Axi4LiteSlavePorts>,
)
    requires
        s.write_delay is None,
        s.drawn().captured(p).have_aw && s.drawn().captured(p).have_w,
        !s.drawn().captured(p).b_valid,
        cycles.len() <= cycles_of(s.config.write_latency),
    ensures
        ({
            let t = run(s.clocked(false, p), cycles);
            &&& cycles.len() < cycles_of(s.config.write_latency) ==> !t.b_valid
            &&& cycles.len() == cycles_of(s.config.write_latency) ==> t.b_valid
        }),
{
    let latency = cycles_of(s.config.write_latency);
    let first = s.clocked(false, p);
    if latency > 0 {
        assert(first.write_delay == Some((latency - 1) as u64));
        lemma_write_counts_down(first, cycles);
    }
}

proof fn lemma_write_counts_down(s: Axi4LiteRamView, cycles: Seq<Axi4LiteSlavePorts>)
    requires
        s.write_delay is Some,
        !s.b_valid && s.have_aw && s.have_w,
        cycles.len() <= s.write_delay->0 + 1,
    ensures
        ({
            let t = run(s, cycles);
            &&& cycles.len() <= s.write_delay->0 ==> t.write_delay == Some(
                (s.write_delay->0 - cycles.len()) as u64,
            ) && !t.b_valid && t.have_aw && t.have_w
            &&& cycles.len() == s.write_delay->0 + 1 ==> t.b_valid
        }),
    decreases cycles.len(),
{
    if cycles.len() > 0 {
        lemma_write_counts_down(s, cycles.drop_last());
    }
}

/// A read waits for its configured latency: from the cycle in which its address
/// is taken, its data comes after exactly that many further cycles, whatever
/// happens on the bus meanwhile.
pub proof fn lemma_read_latency_is_kept(
    s: Axi4LiteRamView,
    p: Axi4LiteSlavePorts,
    cycles: Seq<Axi4LiteSlavePorts>,
)
    requires
        s.read_delay is None,
        p.arvalid@.truth() && s.ar_ready,
        !s.r_valid || p.rready@.truth(),
        cycles.len() <= cycles_of(s.config.read_latency),
    ensures
        ({
            let t = run(s.clocked(false, p), cycles);
            &&& cycles.len() < cycles_of(s.config.read_latency) ==> !t.r_valid
            &&& cycles.len() == cycles_of(s.config.read_latency) ==> t.r_valid
        }),
{
    let latency = cycles_of(s.config.read_latency);
    let first = s.clocked(false, p);
    if latency > 0 {
        assert(first.read_delay == Some((latency - 1) as u64));
        lemma_read_counts_down(first, cycles);
    }
}

proof fn lemma_read_counts_down(s: Axi4LiteRamView, cycles: Seq<Axi4LiteSlavePorts>)
    requires
        s.read_delay is Some,
        !s.r_valid,
        cycles.len() <= s.read_delay->0 + 1,
    ensures
        ({
            let t = run(s, cycles);
            &&& cycles.len() <= s.read_delay->0 ==> t.read_delay == Some(
                (s.read_delay->0 - cycles.len()) as u64,
            ) && !t.r_valid
            &&& cycles.len() == s.read_delay->0 + 1 ==> t.r_valid
        }),
    decreases cycles.len(),
{
    if cycles.len() > 0 {
        lemma_read_counts_down(s, cycles.drop_last());
    }
}

} // verus!
