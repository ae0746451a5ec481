//! Burst-aware AXI4 slave memory.

use crate::axi4::slave::{
    first_answer, front_answer, taken, Answer, Burst, RamConfig, ReadSide, ReadSideView,
};
use crate::axi4::burst::INCR;
use crate::collections::{Fifo, KeySet};
use crate::common::counting::{larger, max_of};
use crate::common::lanes::{
    aligned, lane_count, lemma_aligned_is_rounding, lemma_lanes_fit, lemma_merged_len,
};
use crate::common::memory::{
    lemma_memory_stays_clean, lemma_read_gives_back_write, Memory, MemoryView,
};
use crate::common::random::{after_stall, seed_lfsr, seeded, stall_now, stalls};
use crate::common::resp::{EXOKAY, OKAY};
use crate::common::setup::{find_too_wide, too_wide, BuildError};
use crate::common::stimulus::full_strobe;
use crate::common::words::{answers, arg_result, data_view, is_set, masked, ArgError};
use crate::value::{copy_words, word_count, Value, ValueView};
use vstd::arithmetic::power2::pow2;
use vstd::prelude::*;

verus! {

/// The signals of an AXI4 bus in one cycle, as a slave drives and sees them.
pub struct Axi4SlavePorts {
    pub awvalid: Value,
    pub awready: bool,
    pub awaddr: u64,
    pub awlen: u64,
    pub awsize: u64,
    pub awburst: u64,
    pub awid: u64,
    pub awlock: u64,
    pub wvalid: Value,
    pub wready: bool,
    pub wdata: Vec<u64>,
    pub wstrb: Vec<u64>,
    pub wlast: Value,
    pub bvalid: bool,
    pub bready: Value,
    pub bresp: u64,
    pub bid: u64,
    pub arvalid: Value,
    pub arready: bool,
    pub araddr: u64,
    pub arlen: u64,
    pub arsize: u64,
    pub arburst: u64,
    pub arid: u64,
    pub arlock: u64,
    pub rvalid: bool,
    pub rready: Value,
    pub rdata: Vec<u64>,
    pub rresp: u64,
    pub rid: u64,
    pub rlast: bool,
}

impl Axi4SlavePorts {
    /// The burst on the write address channel.
    pub open spec fn aw_burst(self) -> Burst {
        Burst {
            addr: self.awaddr,
            len: self.awlen,
            size: 1u64 << self.awsize,
            kind: self.awburst,
            id: self.awid,
            exclusive: self.awlock != 0,
            beat: 0,
        }
    }

    /// The burst on the read address channel.
    pub open spec fn ar_burst(self) -> Burst {
        Burst {
            addr: self.araddr,
            len: self.arlen,
            size: 1u64 << self.arsize,
            kind: self.arburst,
            id: self.arid,
            exclusive: self.arlock != 0,
            beat: 0,
        }
    }

    fn capture_aw(&self) -> (r: Burst)
        requires
            self.awsize < 64,
        ensures
            r == self.aw_burst(),
    {
        Burst {
            addr: self.awaddr,
            len: self.awlen,
            size: 1u64 << self.awsize,
            kind: self.awburst,
            id: self.awid,
            exclusive: self.awlock != 0,
            beat: 0,
        }
    }

    fn capture_ar(&self) -> (r: Burst)
        requires
            self.arsize < 64,
        ensures
            r == self.ar_burst(),
    {
        Burst {
            addr: self.araddr,
            len: self.arlen,
            size: 1u64 << self.arsize,
            kind: self.arburst,
            id: self.arid,
            exclusive: self.arlock != 0,
            beat: 0,
        }
    }
}

/// What an [`Axi4Ram`] holds.
#[verifier::ext_equal]
pub ghost struct Axi4RamView {
    pub config: RamConfig,
    pub mem: MemoryView,
    pub lfsr: u64,
    /// The words that exclusive reads have reserved.
    pub reserved: Set<u64>,
    /// The write burst whose data is awaited.
    pub w_cur: Option<Burst>,
    /// Its response so far.
    pub w_resp: u64,
    /// Whether it changes the memory.
    pub w_commit: bool,
    pub b_queue: Seq<Answer>,
    pub aw_ready: bool,
    pub w_ready: bool,
    pub b_valid: bool,
    pub reads: ReadSideView,
}

impl Axi4RamView {
    /// The memory is as wide as the bus and its words are whole.
    pub open spec fn wf(self) -> bool {
        &&& self.mem.wf()
        &&& self.mem.width == self.config.width
    }

    /// A memory that was never written, with nothing in flight.
    pub open spec fn fresh(config: RamConfig, seed: u64) -> Self {
        Axi4RamView {
            config,
            mem: MemoryView::empty(config.width, config.size),
            lfsr: seeded(seed),
            reserved: Set::empty(),
            w_cur: None,
            w_resp: 0,
            w_commit: false,
            b_queue: seq![],
            aw_ready: false,
            w_ready: false,
            b_valid: false,
            reads: ReadSideView::fresh(config.width),
        }
    }

    /// After a reset: in-flight bursts and reservations are dropped, the
    /// memory stays.
    pub open spec fn reset(self) -> Self {
        Axi4RamView {
            w_cur: None,
            reserved: Set::empty(),
            b_queue: seq![],
            aw_ready: false,
            w_ready: false,
            b_valid: false,
            reads: self.reads.reset(),
            ..self
        }
    }

    /// After the draw that decides whether to stall.
    pub open spec fn drawn(self) -> Self {
        Axi4RamView { lfsr: after_stall(self.lfsr, self.config.stall), ..self }
    }

    /// After a write burst was accepted. Its word's reservation is used up;
    /// an exclusive write changes the memory only if there was one.
    pub open spec fn write_accepted(self, b: Burst) -> Self {
        let key = self.mem.key(b.addr);
        let held = self.reserved.contains(key);
        Axi4RamView {
            w_cur: Some(b),
            w_commit: !b.exclusive || held,
            w_resp: if b.exclusive && held {
                EXOKAY
            } else {
                OKAY
            },
            reserved: self.reserved.remove(key),
            ..self
        }
    }

    /// After a write address was accepted, or not.
    pub open spec fn after_aw(self, p: Axi4SlavePorts) -> Self {
        if p.awvalid@.truth() && self.aw_ready {
            self.write_accepted(p.aw_burst())
        } else {
            self
        }
    }

    /// After a beat of the write burst `b`. A beat whose response is an error
    /// does not change the memory, and the worst response counts.
    pub open spec fn beat_written(self, b: Burst, data: Seq<u64>, strb: Seq<u64>, last: bool) -> Self {
        let addr = b.at() as u64;
        let code = self.mem.response(addr);
        let resp = larger(self.w_resp, code);
        Axi4RamView {
            mem: if self.w_commit && code == OKAY {
                self.mem.written(addr, data, strb)
            } else {
                self.mem
            },
            w_resp: resp,
            w_cur: if last {
                None
            } else {
                Some(b.next())
            },
            b_queue: if last {
                self.b_queue.push(Answer { id: b.id, resp })
            } else {
                self.b_queue
            },
            ..self
        }
    }

    /// After write data, or none. `ready` is whether it was accepted.
    pub open spec fn after_w(self, p: Axi4SlavePorts, ready: bool) -> Self {
        match self.w_cur {
            Some(b) => if p.wvalid@.truth() && ready {
                self.beat_written(b, p.wdata@, p.wstrb@, p.wlast@.truth())
            } else {
                self
            },
            None => self,
        }
    }

    /// After the write engine's cycle.
    pub open spec fn write_cycle(self, p: Axi4SlavePorts, stall: bool) -> Self {
        let s = self.after_aw(p).after_w(p, self.w_ready);
        let q = taken(s.b_queue, p.bready@.truth() && self.b_valid);
        Axi4RamView {
            b_queue: q,
            aw_ready: s.w_cur is None && q.len() < self.config.max_spec() && !stall,
            w_ready: s.w_cur is Some && !stall,
            b_valid: q.len() > 0,
            ..s
        }
    }

    /// The read that is accepted.
    pub open spec fn ar_taken(self, p: Axi4SlavePorts) -> Option<Burst> {
        if p.arvalid@.truth() && self.reads.ar_ready {
            Some(p.ar_burst())
        } else {
            None
        }
    }

    /// After the read engine's cycle. An exclusive read reserves its word.
    pub open spec fn read_cycle(self, p: Axi4SlavePorts, stall: bool) -> Self {
        let ar = self.ar_taken(p);
        Axi4RamView {
            reserved: match ar {
                Some(b) => if b.exclusive {
                    self.reserved.insert(self.mem.key(b.addr))
                } else {
                    self.reserved
                },
                None => self.reserved,
            },
            reads: self.reads.clocked(
                self.mem,
                ar,
                p.rready@.truth(),
                self.config.max_spec(),
                stall,
            ),
            ..self
        }
    }

    /// After a cycle.
    pub open spec fn clocked(self, rst: bool, p: Axi4SlavePorts) -> Self {
        let stall = stalls(self.lfsr, self.config.stall);
        if rst {
            self.reset()
        } else {
            self.drawn().write_cycle(p, stall).read_cycle(p, stall)
        }
    }

    /// Whether the sizes and addresses of a cycle fit in 64 bits.
    pub open spec fn can_clock(self, rst: bool, p: Axi4SlavePorts) -> bool {
        !rst ==> {
            &&& p.awvalid@.truth() && self.aw_ready ==> p.awsize < 64
            &&& p.arvalid@.truth() && self.reads.ar_ready ==> p.arsize < 64
            &&& p.wvalid@.truth() && self.w_ready ==> (self.after_aw(p).w_cur matches Some(b)
                ==> b.fits() && b.beat < u64::MAX)
            &&& self.reads.can_clock(self.ar_taken(p), p.rready@.truth())
        }
    }
}

/// Whether the inputs of a cycle stay as they are.
pub open spec fn same_inputs(before: Axi4SlavePorts, after: Axi4SlavePorts) -> bool {
    &&& after.awvalid == before.awvalid
    &&& after.awaddr == before.awaddr
    &&& after.awlen == before.awlen
    &&& after.awsize == before.awsize
    &&& after.awburst == before.awburst
    &&& after.awid == before.awid
    &&& after.awlock == before.awlock
    &&& after.wvalid == before.wvalid
    &&& after.wdata == before.wdata
    &&& after.wstrb == before.wstrb
    &&& after.wlast == before.wlast
    &&& after.bready == before.bready
    &&& after.arvalid == before.arvalid
    &&& after.araddr == before.araddr
    &&& after.arlen == before.arlen
    &&& after.arsize == before.arsize
    &&& after.arburst == before.arburst
    &&& after.arid == before.arid
    &&& after.arlock == before.arlock
    &&& after.rready == before.rready
}

/// Whether `after` is `before` with the outputs of a memory in state `s`. In
/// reset only the handshake lines are driven.
pub open spec fn drives(
    s: Axi4RamView,
    rst: bool,
    before: Axi4SlavePorts,
    after: Axi4SlavePorts,
) -> bool {
    &&& same_inputs(before, after)
    &&& after.awready == s.aw_ready
    &&& after.wready == s.w_ready
    &&& after.bvalid == s.b_valid
    &&& after.arready == s.reads.ar_ready
    &&& after.rvalid == s.reads.r_valid
    &&& if rst {
        &&& after.bresp == before.bresp
        &&& after.bid == before.bid
        &&& after.rdata == before.rdata
        &&& after.rresp == before.rresp
        &&& after.rid == before.rid
        &&& after.rlast == before.rlast
    } else {
        &&& after.bresp == front_answer(s.b_queue).resp
        &&& after.bid == front_answer(s.b_queue).id
        &&& after.rdata@ == s.reads.r_data
        &&& after.rresp == s.reads.r_resp
        &&& after.rid == s.reads.r_id
        &&& after.rlast == (s.reads.r_valid && s.reads.r_last)
    }
}

/// Burst-aware AXI4 slave memory. It accepts INCR, FIXED and WRAP bursts,
/// applies byte strobes per beat and echoes IDs. Reads run at once and their
/// beats take turns. An exclusive read reserves its word; an exclusive write
/// to a word that is still reserved succeeds with EXOKAY, and any write to it
/// uses the reservation up.
pub struct Axi4Ram {
    config: RamConfig,
    mem: Memory,
    lfsr: u64,
    reserved: KeySet,
    w_cur: Option<Burst>,
    w_resp: u64,
    w_commit: bool,
    b_queue: Fifo<Answer>,
    aw_ready: bool,
    w_ready: bool,
    b_valid: bool,
    reads: ReadSide,
}

impl View for Axi4Ram {
    type V = Axi4RamView;

    closed spec fn view(&self) -> Axi4RamView {
        Axi4RamView {
            config: self.config,
            mem: self.mem@,
            lfsr: self.lfsr,
            reserved: self.reserved@,
            w_cur: self.w_cur,
            w_resp: self.w_resp,
            w_commit: self.w_commit,
            b_queue: self.b_queue@,
            aw_ready: self.aw_ready,
            w_ready: self.w_ready,
            b_valid: self.b_valid,
            reads: self.reads@,
        }
    }
}

impl Axi4Ram {
    /// A memory behind a bus with these port widths. An address port wider
    /// than 64 bits is refused.
    pub fn on_build(awaddr: u32, araddr: u32, config: RamConfig, seed: u64) -> (r: Result<
        Axi4Ram,
        BuildError,
    >)
        ensures
            match r {
                Ok(m) => too_wide("axi4_ram", awaddr, araddr) is None && m@ == Axi4RamView::fresh(
                    config,
                    seed,
                ) && m@.wf(),
                Err(e) => too_wide("axi4_ram", awaddr, araddr) == Some(e),
            },
    {
        match find_too_wide("axi4_ram", awaddr, araddr) {
            Some(e) => Err(e),
            None => Ok(
                Axi4Ram {
                    config,
                    mem: Memory::new(config.width, config.size),
                    lfsr: seed_lfsr(seed),
                    reserved: KeySet::new(),
                    w_cur: None,
                    w_resp: 0,
                    w_commit: false,
                    b_queue: Fifo::new(),
                    aw_ready: false,
                    w_ready: false,
                    b_valid: false,
                    reads: ReadSide::new(config.width),
                },
            ),
        }
    }

    /// Whether the sizes and addresses of a cycle fit in 64 bits.
    pub fn in_range(&self, rst: &Value, axi: &Axi4SlavePorts) -> (r: bool)
        ensures
            r == self@.can_clock(rst@.truth(), *axi),
    {
        if is_set(rst) {
            return true;
        }
        let aw = is_set(&axi.awvalid) && self.aw_ready;
        let ar = is_set(&axi.arvalid) && self.reads.ar_ready();
        if (aw && axi.awsize >= 64) || (ar && axi.arsize >= 64) {
            return false;
        }
        let burst = if aw {
            Some(axi.capture_aw())
        } else {
            self.w_cur
        };
        if is_set(&axi.wvalid) && self.w_ready {
            if let Some(b) = burst {
                if !b.in_range() || b.beat == u64::MAX {
                    return false;
                }
            }
        }
        let read = if ar {
            Some(axi.capture_ar())
        } else {
            None
        };
        self.reads.in_range(read, is_set(&axi.rready))
    }

    fn clear(&mut self)
        ensures
            final(self)@ == old(self)@.reset(),
    {
        self.w_cur = None;
        self.reserved.clear();
        self.b_queue.clear();
        self.aw_ready = false;
        self.w_ready = false;
        self.b_valid = false;
        self.reads.reset();
        assert(self@ =~= old(self)@.reset());
    }

    fn accept_write(&mut self, b: Burst)
        ensures
            final(self)@ == old(self)@.write_accepted(b),
    {
        let key: u64 = self.mem.key(b.addr);
        let held = self.reserved.remove(key);
        self.w_commit = !b.exclusive || held;
        self.w_resp = if b.exclusive && held {
            EXOKAY
        } else {
            OKAY
        };
        self.w_cur = Some(b);
    }

    fn write_beat(&mut self, b: Burst, data: &Vec<u64>, strb: &Vec<u64>, last: bool)
        requires
            old(self)@.wf(),
            b.fits(),
            b.beat < u64::MAX,
        ensures
            final(self)@ == old(self)@.beat_written(b, data@, strb@, last),
            final(self)@.wf(),
    {
        let addr: u64 = b.beat_addr();
        let code: u64 = self.mem.resp_for(addr);
        if self.w_commit && code == OKAY {
            self.mem.write_mem(addr, data, strb);
        }
        self.w_resp = max_of(self.w_resp, code);
        if last {
            self.b_queue.push_back(Answer { id: b.id, resp: self.w_resp });
            self.w_cur = None;
        } else {
            self.w_cur = Some(Burst { beat: b.beat + 1, ..b });
        }
    }

    fn clock_write(&mut self, p: &Axi4SlavePorts, stall: bool)
        requires
            old(self)@.wf(),
            p.awvalid@.truth() && old(self)@.aw_ready ==> p.awsize < 64,
            p.wvalid@.truth() && old(self)@.w_ready ==> (old(self)@.after_aw(*p).w_cur matches Some(
                b,
            ) ==> b.fits() && b.beat < u64::MAX),
        ensures
            final(self)@ == old(self)@.write_cycle(*p, stall),
            final(self)@.wf(),
    {
        let w_r = self.w_ready;
        let b_v = self.b_valid;
        if is_set(&p.awvalid) && self.aw_ready {
            self.accept_write(p.capture_aw());
        }
        if is_set(&p.wvalid) && w_r {
            if let Some(b) = self.w_cur {
                self.write_beat(b, &p.wdata, &p.wstrb, is_set(&p.wlast));
            }
        }
        if is_set(&p.bready) && b_v {
            let _ = self.b_queue.pop_front();
        }
        self.aw_ready = self.w_cur.is_none() && (self.b_queue.len() as u64) < self.config.max()
            && !stall;
        self.w_ready = self.w_cur.is_some() && !stall;
        self.b_valid = !self.b_queue.is_empty();
    }

    fn clock_read(&mut self, p: &Axi4SlavePorts, stall: bool)
        requires
            p.arvalid@.truth() && old(self)@.reads.ar_ready ==> p.arsize < 64,
            old(self)@.reads.can_clock(old(self)@.ar_taken(*p), p.rready@.truth()),
        ensures
            final(self)@ == old(self)@.read_cycle(*p, stall),
    {
        let ar = if is_set(&p.arvalid) && self.reads.ar_ready() {
            Some(p.capture_ar())
        } else {
            None
        };
        if let Some(b) = ar {
            if b.exclusive {
                let key: u64 = self.mem.key(b.addr);
                self.reserved.insert(key);
            }
        }
        self.reads.clock(&self.mem, ar, is_set(&p.rready), self.config.max(), stall);
    }

    /// Answers one cycle and drives the outputs.
    pub fn on_clock(&mut self, rst: &Value, axi: &mut Axi4SlavePorts)
        requires
            old(self)@.wf(),
            old(self)@.can_clock(rst@.truth(), *old(axi)),
        ensures
            final(self)@ == old(self)@.clocked(rst@.truth(), *old(axi)),
            final(self)@.wf(),
            drives(final(self)@, rst@.truth(), *old(axi), *final(axi)),
    {
        if is_set(rst) {
            self.clear();
        } else {
            let stall = stall_now(&mut self.lfsr, self.config.stall);
            assert(self@ =~= old(self)@.drawn());
            self.clock_write(axi, stall);
            self.clock_read(axi, stall);
            let answer = first_answer(&self.b_queue);
            axi.bresp = answer.resp;
            axi.bid = answer.id;
            axi.rdata = copy_words(self.reads.r_data());
            axi.rresp = self.reads.r_resp();
            axi.rid = self.reads.r_id();
            axi.rlast = self.reads.r_valid() && self.reads.r_last();
        }
        axi.awready = self.aw_ready;
        axi.wready = self.w_ready;
        axi.bvalid = self.b_valid;
        axi.arready = self.reads.ar_ready();
        axi.rvalid = self.reads.r_valid();
    }

    /// Replaces the word that holds `addr`.
    pub fn poke(&mut self, addr: u64, data: &Value) -> (r: Result<(), ArgError>)
        requires
            old(self)@.wf(),
        ensures
            final(self)@.wf(),
            match r {
                Ok(_) => arg_result(data@, old(self)@.config.width) is Ok && final(self)@ == (
                Axi4RamView {
                    mem: old(self)@.mem.stored(
                        addr,
                        arg_result(data@, old(self)@.config.width)->Ok_0,
                    ),
                    ..old(self)@
                }),
                Err(e) => final(self)@ == old(self)@ && answers(
                    Err(e),
                    data@,
                    old(self)@.config.width,
                    "poke data"@,
                ),
            },
    {
        self.mem.poke(addr, data)
    }

    /// The word that holds `addr`, at full bus width.
    pub fn peek(&self, addr: u64) -> (r: Value)
        requires
            self@.wf(),
        ensures
            r@ == data_view(self@.mem.at(addr), self@.config.width),
    {
        self.mem.peek(addr)
    }

    /// Makes accesses to the word that holds `addr` answer `code`; OKAY takes
    /// an injected response away.
    pub fn set_resp(&mut self, addr: u64, code: u64)
        requires
            old(self)@.wf(),
        ensures
            final(self)@.wf(),
            final(self)@ == (Axi4RamView {
                mem: old(self)@.mem.answering(addr, code),
                ..old(self)@
            }),
    {
        self.mem.set_resp(addr, code);
    }

    /// Whether the addresses of `count` words from `base` on fit in 64 bits.
    pub fn fill_in_range(&self, base: u64, count: u64) -> (r: bool)
        ensures
            r == self@.mem.fill_fits(base, count),
    {
        self.mem.fill_in_range(base, count)
    }

    /// Sets `count` consecutive words from `base` on to their own addresses.
    pub fn fill(&mut self, base: u64, count: u64)
        requires
            old(self)@.wf(),
            old(self)@.mem.fill_fits(base, count),
        ensures
            final(self)@.wf(),
            final(self)@ == (Axi4RamView {
                mem: old(self)@.mem.filled(base, count as nat),
                ..old(self)@
            }),
    {
        self.mem.fill(base, count);
    }
}

/// A reset drops what is in flight and every reservation, and keeps the
/// memory.
pub proof fn lemma_reset_keeps_memory(s: Axi4RamView, p: Axi4SlavePorts)
    ensures
        ({
            let t = s.clocked(true, p);
            &&& t.mem == s.mem
            &&& t.reserved == Set::<u64>::empty()
            &&& t.w_cur is None && t.b_queue.len() == 0 && t.reads.reads.len() == 0
            &&& !t.b_valid && !t.reads.r_valid
        }),
{
}

/// An exclusive write succeeds exactly when its word is still reserved, and
/// any write to a word uses its reservation up: after a write, an exclusive
/// write to the same word fails with OKAY.
pub proof fn lemma_exclusive_write_needs_reservation(s: Axi4RamView, b: Burst, c: Burst)
    requires
        s.mem.key(c.addr) == s.mem.key(b.addr),
        c.exclusive,
    ensures
        ({
            let held = s.reserved.contains(s.mem.key(b.addr));
            let t = s.write_accepted(b);
            let u = t.write_accepted(c);
            &&& b.exclusive ==> t.w_commit == held && t.w_resp == (if held {
                EXOKAY
            } else {
                OKAY
            })
            &&& !b.exclusive ==> t.w_commit && t.w_resp == OKAY
            &&& !u.w_commit && u.w_resp == OKAY
        }),
{
}

/// An exclusive read reserves its word until the next write to that word is
/// accepted; no other access takes the reservation away.
pub proof fn lemma_reservation_lasts(s: Axi4RamView, p: Axi4SlavePorts, key: u64)
    ensures
        ({
            let t = s.clocked(false, p);
            let read = p.arvalid@.truth() && s.reads.ar_ready && p.arlock != 0 && s.mem.key(
                p.araddr,
            ) == key;
            let write = p.awvalid@.truth() && s.aw_ready && s.mem.key(p.awaddr) == key;
            t.reserved.contains(key) <==> read || (s.reserved.contains(key) && !write)
        }),
{
    let stall = stalls(s.lfsr, s.config.stall);
    let w = s.drawn().write_cycle(p, stall);
    assert(w.mem.width == s.mem.width);
}

/// A beat of a write that does not commit, or whose response is an error,
/// leaves the memory untouched, and the response of the burst is the worst of
/// its beats.
pub proof fn lemma_errored_beats_do_not_land(
    s: Axi4RamView,
    b: Burst,
    data: Seq<u64>,
    strb: Seq<u64>,
    last: bool,
)
    ensures
        ({
            let t = s.beat_written(b, data, strb, last);
            let code = s.mem.response(b.at() as u64);
            &&& !s.w_commit || code != OKAY ==> t.mem == s.mem
            &&& t.w_resp >= s.w_resp && t.w_resp >= code
            &&& last ==> t.b_queue.last() == (Answer { id: b.id, resp: t.w_resp })
        }),
{
}

/// Whether the response offered is the first that waits.
pub open spec fn offers_answer(s: Axi4RamView) -> bool {
    s.b_valid == (s.b_queue.len() > 0)
}

/// A write response that is not taken stays offered unchanged.
pub proof fn lemma_answer_is_stable(s: Axi4RamView, rst: bool, p: Axi4SlavePorts)
    requires
        offers_answer(s),
    ensures
        offers_answer(s.clocked(rst, p)),
        !rst && s.b_valid && !p.bready@.truth() ==> s.clocked(rst, p).b_valid && front_answer(
            s.clocked(rst, p).b_queue,
        ) == front_answer(s.b_queue),
{
}

/// The memory after the first `n` beats of a write burst, each with every lane
/// active.
pub open spec fn burst_written(m: MemoryView, b: Burst, data: Seq<Seq<u64>>, n: nat) -> MemoryView
    decreases n,
{
    if n == 0 {
        m
    } else {
        burst_written(m, b, data, (n - 1) as nat).written(
            b.beat_at((n - 1) as u64) as u64,
            data[n - 1],
            full_strobe(m.width),
        )
    }
}

/// A burst read gives back a burst write: on a bus with a power of two of whole
/// byte lanes, after an incrementing burst of full-width beats that all land,
/// the word at the address of each beat is the data of that beat.
pub proof fn lemma_burst_read_gives_back_burst_write(
    m: MemoryView,
    b: Burst,
    data: Seq<Seq<u64>>,
    n: nat,
    i: nat,
    lanes_log: nat,
)
    requires
        m.wf(),
        m.clean(),
        m.width > 0,
        m.width % 8 == 0,
        lanes_log < 64,
        lane_count(m.width) == pow2(lanes_log),
        b.kind == INCR,
        b.size == lane_count(m.width),
        i < n <= data.len(),
        n <= b.len + 1,
        b.beat_at(b.len) <= u64::MAX,
        forall|j: int|
            0 <= j < data.len() ==> (#[trigger] data[j]).len() == word_count(m.width) && masked(
                data[j],
                m.width,
            ) == data[j],
    ensures
        burst_written(m, b, data, n).at(b.beat_at(i as u64) as u64) == data[i as int],
    decreases n,
{
    let k = (n - 1) as nat;
    let before = burst_written(m, b, data, k);
    lemma_burst_written_keeps(m, b, data, k);
    let ak = b.beat_at(k as u64);
    let ai = b.beat_at(i as u64);
    lemma_incr_beat_is_key(m, b, k as u64, lanes_log);
    lemma_incr_beat_is_key(m, b, i as u64, lanes_log);
    assert(data[k as int].len() == word_count(m.width));
    if i == k {
        lemma_read_gives_back_write(before, ak as u64, data[k as int], ai as u64);
    } else {
        lemma_burst_read_gives_back_burst_write(m, b, data, k, i, lanes_log);
        let size = b.size;
        assert(k * size != i * size) by (nonlinear_arith)
            requires
                k > i,
                size > 0,
        ;
        assert(ak != ai);
    }
}

proof fn lemma_burst_written_keeps(m: MemoryView, b: Burst, data: Seq<Seq<u64>>, n: nat)
    requires
        m.wf(),
        m.clean(),
        m.width > 0,
        m.width % 8 == 0,
    ensures
        burst_written(m, b, data, n).wf(),
        burst_written(m, b, data, n).clean(),
        burst_written(m, b, data, n).width == m.width,
    decreases n,
{
    if n > 0 {
        let k = (n - 1) as nat;
        lemma_burst_written_keeps(m, b, data, k);
        let before = burst_written(m, b, data, k);
        let addr = b.beat_at(k as u64) as u64;
        lemma_memory_stays_clean(
            before,
            addr,
            data[k as int],
            full_strobe(m.width),
            ValueView::Unit,
            0,
        );
        lemma_lanes_fit(m.width);
        lemma_merged_len(
            before.at(addr),
            data[k as int],
            full_strobe(m.width),
            lane_count(m.width) as nat,
        );
    }
}

proof fn lemma_incr_beat_is_key(m: MemoryView, b: Burst, n: u64, lanes_log: nat)
    requires
        lanes_log < 64,
        lane_count(m.width) == pow2(lanes_log),
        b.kind == INCR,
        b.size == lane_count(m.width),
        n <= b.len,
        b.beat_at(b.len) <= u64::MAX,
    ensures
        0 <= b.beat_at(n) <= u64::MAX,
        m.key(b.beat_at(n) as u64) == b.beat_at(n),
{
    let size = b.size;
    let len = b.len;
    let first = aligned(b.addr, size) as int;
    let a = b.beat_at(n);
    assert(0 <= n * size <= len * size) by (nonlinear_arith)
        requires
            0 <= n <= len,
            size >= 0,
    ;
    lemma_aligned_is_rounding(b.addr, size, lanes_log);
    lemma_aligned_is_rounding(a as u64, size, lanes_log);
    vstd::arithmetic::div_mod::lemma_mod_multiples_vanish(n as int, first, size as int);
    assert(size as int * n as int == n * size) by (nonlinear_arith);
}

/// The memory after the first `n` beats of the accepted write burst, each with
/// every lane active; the last beat of the burst ends it.
pub open spec fn beats_taken(s: Axi4RamView, data: Seq<Seq<u64>>, n: nat) -> Axi4RamView
    decreases n,
{
    if n == 0 {
        s
    } else {
        let t = beats_taken(s, data, (n - 1) as nat);
        match t.w_cur {
            Some(b) => t.beat_written(
                b,
                data[n - 1],
                full_strobe(t.mem.width),
                b.beat == b.len,
            ),
            None => t,
        }
    }
}

proof fn lemma_beats_land(s: Axi4RamView, b: Burst, data: Seq<Seq<u64>>, n: nat)
    requires
        s.w_cur == Some(b),
        s.w_commit,
        b.beat == 0,
        b.len < u64::MAX,
        n <= b.len + 1,
        forall|j: u64|
            0 <= j <= b.len ==> s.mem.response(#[trigger] b.beat_at(j) as u64) == OKAY,
    ensures
        ({
            let t = beats_taken(s, data, n);
            &&& t.mem == burst_written(s.mem, b, data, n)
            &&& t.mem.width == s.mem.width && t.mem.size == s.mem.size && t.mem.errors
                == s.mem.errors
            &&& t.w_commit && t.w_resp == s.w_resp
            &&& n <= b.len ==> t.w_cur == Some(Burst { beat: n as u64, ..b }) && t.b_queue
                == s.b_queue
            &&& n == b.len + 1 ==> t.w_cur is None && t.b_queue == s.b_queue.push(
                Answer { id: b.id, resp: s.w_resp },
            )
        }),
    decreases n,
{
    if n > 0 {
        let k = (n - 1) as nat;
        lemma_beats_land(s, b, data, k);
        let t = beats_taken(s, data, k);
        let c = Burst { beat: k as u64, ..b };
        assert(t.w_cur == Some(c));
        assert(c.at() == b.beat_at(k as u64));
        assert(t.mem.response(c.at() as u64) == s.mem.response(b.beat_at(k as u64) as u64));
    }
}

/// A read over the bus gives back a write over the bus: on a bus with a power
/// of two of whole byte lanes, once every beat of an accepted incrementing
/// burst of full-width beats was taken and none was errored, a read that comes
/// to the address of a beat is offered the data of that beat.
pub proof fn lemma_bus_read_gives_back_bus_write(
    s: Axi4RamView,
    b: Burst,
    data: Seq<Seq<u64>>,
    i: u64,
    r: ReadSideView,
    ar: Option<Burst>,
    rready: bool,
    max: u64,
    stall: bool,
    lanes_log: nat,
)
    requires
        s.wf(),
        s.mem.clean(),
        s.mem.width > 0 && s.mem.width % 8 == 0,
        lanes_log < 64,
        lane_count(s.mem.width) == pow2(lanes_log),
        s.write_accepted(b).w_commit,
        b.beat == 0,
        b.len < u64::MAX,
        b.kind == INCR,
        b.size == lane_count(s.mem.width),
        b.beat_at(b.len) <= u64::MAX,
        forall|j: u64|
            0 <= j <= b.len ==> s.mem.response(#[trigger] b.beat_at(j) as u64) == OKAY,
        data.len() == b.len + 1,
        forall|j: int|
            0 <= j < data.len() ==> (#[trigger] data[j]).len() == word_count(s.mem.width)
                && masked(data[j], s.mem.width) == data[j],
        i <= b.len,
        r.reads_after(ar, rready).len() > 0,
        r.reads_after(ar, rready)[0].at() == b.beat_at(i),
    ensures
        ({
            let t = beats_taken(s.write_accepted(b), data, (b.len + 1) as nat);
            let u = r.clocked(t.mem, ar, rready, max, stall);
            &&& t.w_cur is None
            &&& t.b_queue.last() == (Answer { id: b.id, resp: s.write_accepted(b).w_resp })
            &&& u.r_valid && u.r_data == data[i as int]
        }),
{
    let a = s.write_accepted(b);
    let n = (b.len + 1) as nat;
    lemma_beats_land(a, b, data, n);
    lemma_burst_read_gives_back_burst_write(s.mem, b, data, n, i as nat, lanes_log);
}

} // verus!
