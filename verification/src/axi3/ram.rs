//! AXI3 slave memory, which takes interleaved write data.

use crate::axi4::slave::{
    first_answer, front_answer, taken, Answer, Burst, RamConfig, ReadSide, ReadSideView,
};
use crate::collections::{Fifo, KeySet, Table};
use crate::common::counting::{larger, max_of};
use crate::common::memory::{Memory, MemoryView};
use crate::common::random::{after_stall, seed_lfsr, seeded, stall_now, stalls};
use crate::common::resp::{EXOKAY, OKAY};
use crate::common::setup::{find_too_wide, too_wide, BuildError};
use crate::common::words::{answers, arg_result, data_view, is_set, ArgError};
use crate::value::{copy_words, Value};
use vstd::prelude::*;

verus! {

/// The signals of an AXI3 bus in one cycle, as a slave drives and sees them.
pub struct Axi3SlavePorts {
    pub awvalid: Value,
    pub awready: bool,
    pub awaddr: u64,
    pub awlen: u64,
    pub awsize: u64,
    pub awburst: u64,
    pub awid: u64,
    pub awlock: u64,
    pub wvalid: Value,
    pub wready: bool,
    pub wdata: Vec<u64>,
    pub wstrb: Vec<u64>,
    pub wlast: Value,
    pub wid: u64,
    pub bvalid: bool,
    pub bready: Value,
    pub bresp: u64,
    pub bid: u64,
    pub arvalid: Value,
    pub arready: bool,
    pub araddr: u64,
    pub arlen: u64,
    pub arsize: u64,
    pub arburst: u64,
    pub arid: u64,
    pub arlock: u64,
    pub rvalid: bool,
    pub rready: Value,
    pub rdata: Vec<u64>,
    pub rresp: u64,
    pub rid: u64,
    pub rlast: bool,
}

impl Axi3SlavePorts {
    /// The burst on the write address channel.
    pub open spec fn aw_burst(self) -> Burst {
        Burst {
            addr: self.awaddr,
            len: self.awlen,
            size: 1u64 << self.awsize,
            kind: self.awburst,
            id: self.awid,
            exclusive: self.awlock == 1,
            beat: 0,
        }
    }

    /// The burst on the read address channel.
    pub open spec fn ar_burst(self) -> Burst {
        Burst {
            addr: self.araddr,
            len: self.arlen,
            size: 1u64 << self.arsize,
            kind: self.arburst,
            id: self.arid,
            exclusive: self.arlock == 1,
            beat: 0,
        }
    }

    fn capture_aw(&self) -> (r: Burst)
        requires
            self.awsize < 64,
        ensures
            r == self.aw_burst(),
    {
        Burst {
            addr: self.awaddr,
            len: self.awlen,
            size: 1u64 << self.awsize,
            kind: self.awburst,
            id: self.awid,
            exclusive: self.awlock == 1,
            beat: 0,
        }
    }

    fn capture_ar(&self) -> (r: Burst)
        requires
            self.arsize < 64,
        ensures
            r == self.ar_burst(),
    {
        Burst {
            addr: self.araddr,
            len: self.arlen,
            size: 1u64 << self.arsize,
            kind: self.arburst,
            id: self.arid,
            exclusive: self.arlock == 1,
            beat: 0,
        }
    }
}

/// A write burst whose data is awaited: whether it changes the memory, and its
/// response so far.
#[derive(Clone, Copy, Debug, PartialEq, Eq, Structural)]
pub struct WriteBurst {
    pub burst: Burst,
    pub commit: bool,
    pub resp: u64,
}

impl View for WriteBurst {
    type V = WriteBurst;

    open spec fn view(&self) -> WriteBurst {
        *self
    }
}

/// What an [`Axi3Ram`] holds.
#[verifier::ext_equal]
pub ghost struct Axi3RamView {
    pub config: RamConfig,
    pub mem: MemoryView,
    pub lfsr: u64,
    /// The words that exclusive reads have reserved.
    pub reserved: Set<u64>,
    /// The write bursts whose data is awaited, by ID.
    pub writes: Map<u64, WriteBurst>,
    pub b_queue: Seq<Answer>,
    pub aw_ready: bool,
    pub w_ready: bool,
    pub b_valid: bool,
    pub reads: ReadSideView,
}

impl Axi3RamView {
    /// The memory is as wide as the bus and its words are whole.
    pub open spec fn wf(self) -> bool {
        &&& self.mem.wf()
        &&& self.mem.width == self.config.width
    }

    /// A memory that was never written, with nothing in flight.
    pub open spec fn fresh(config: RamConfig, seed: u64) -> Self {
        Axi3RamView {
            config,
            mem: MemoryView::empty(config.width, config.size),
            lfsr: seeded(seed),
            reserved: Set::empty(),
            writes: Map::empty(),
            b_queue: seq![],
            aw_ready: false,
            w_ready: false,
            b_valid: false,
            reads: ReadSideView::fresh(config.width),
        }
    }

    /// After a reset: in-flight bursts and reservations are dropped, the
    /// memory stays.
    pub open spec fn reset(self) -> Self {
        Axi3RamView {
            writes: Map::empty(),
            reserved: Set::empty(),
            b_queue: seq![],
            aw_ready: false,
            w_ready: false,
            b_valid: false,
            reads: self.reads.reset(),
            ..self
        }
    }

    /// After the draw that decides whether to stall.
    pub open spec fn drawn(self) -> Self {
        Axi3RamView { lfsr: after_stall(self.lfsr, self.config.stall), ..self }
    }

    /// After a write burst was accepted. Its word's reservation is used up;
    /// an exclusive write changes the memory only if there was one. One burst
    /// per ID is kept.
    pub open spec fn write_accepted(self, b: Burst) -> Self {
        let key = self.mem.key(b.addr);
        let held = self.reserved.contains(key);
        Axi3RamView {
            writes: self.writes.insert(
                b.id,
                WriteBurst {
                    burst: b,
                    commit: !b.exclusive || held,
                    resp: if b.exclusive && held {
                        EXOKAY
                    } else {
                        OKAY
                    },
                },
            ),
            reserved: self.reserved.remove(key),
            ..self
        }
    }

    /// After a write address was accepted, or not.
    pub open spec fn after_aw(self, p: Axi3SlavePorts) -> Self {
        if p.awvalid@.truth() && self.aw_ready {
            self.write_accepted(p.aw_burst())
        } else {
            self
        }
    }

    /// After a beat of the write burst under `id`. A beat whose response is
    /// an error does not change the memory, and the worst response counts.
    pub open spec fn beat_written(self, id: u64, data: Seq<u64>, strb: Seq<u64>, last: bool) -> Self {
        let w = self.writes[id];
        let addr = w.burst.at() as u64;
        let code = self.mem.response(addr);
        let resp = larger(w.resp, code);
        Axi3RamView {
            mem: if w.commit && code == OKAY {
                self.mem.written(addr, data, strb)
            } else {
                self.mem
            },
            writes: if last {
                self.writes.remove(id)
            } else {
                self.writes.insert(
                    id,
                    WriteBurst { burst: w.burst.next(), commit: w.commit, resp },
                )
            },
            b_queue: if last {
                self.b_queue.push(Answer { id: w.burst.id, resp })
            } else {
                self.b_queue
            },
            ..self
        }
    }

    /// After write data, or none. `ready` is whether it was accepted. Data of
    /// an ID without a write burst is dropped.
    pub open spec fn after_w(self, p: Axi3SlavePorts, ready: bool) -> Self {
        if p.wvalid@.truth() && ready && self.writes.contains_key(p.wid) {
            self.beat_written(p.wid, p.wdata@, p.wstrb@, p.wlast@.truth())
        } else {
            self
        }
    }

    /// After the write engine's cycle.
    pub open spec fn write_cycle(self, p: Axi3SlavePorts, stall: bool) -> Self {
        let s = self.after_aw(p).after_w(p, self.w_ready);
        let q = taken(s.b_queue, p.bready@.truth() && self.b_valid);
        Axi3RamView {
            b_queue: q,
            aw_ready: s.writes.len() < self.config.max_spec() && q.len()
                < self.config.max_spec() && !stall,
            w_ready: s.writes.len() > 0 && !stall,
            b_valid: q.len() > 0,
            ..s
        }
    }

    /// The read that is accepted.
    pub open spec fn ar_taken(self, p: Axi3SlavePorts) -> Option<Burst> {
        if p.arvalid@.truth() && self.reads.ar_ready {
            Some(p.ar_burst())
        } else {
            None
        }
    }

    /// After the read engine's cycle. An exclusive read reserves its word.
    pub open spec fn read_cycle(self, p: Axi3SlavePorts, stall: bool) -> Self {
        let ar = self.ar_taken(p);
        Axi3RamView {
            reserved: match ar {
                Some(b) => if b.exclusive {
                    self.reserved.insert(self.mem.key(b.addr))
                } else {
                    self.reserved
                },
                None => self.reserved,
            },
            reads: self.reads.clocked(
                self.mem,
                ar,
                p.rready@.truth(),
                self.config.max_spec(),
                stall,
            ),
            ..self
        }
    }

    /// After a cycle.
    pub open spec fn clocked(self, rst: bool, p: Axi3SlavePorts) -> Self {
        let stall = stalls(self.lfsr, self.config.stall);
        if rst {
            self.reset()
        } else {
            self.drawn().write_cycle(p, stall).read_cycle(p, stall)
        }
    }

    /// Whether the next beat under `id`, if any, can be computed in 64 bits.
    pub open spec fn beat_fits(self, id: u64) -> bool {
        self.writes.contains_key(id) ==> self.writes[id].burst.fits()
            && self.writes[id].burst.beat < u64::MAX
    }

    /// Whether the sizes and addresses of a cycle fit in 64 bits.
    pub open spec fn can_clock(self, rst: bool, p: Axi3SlavePorts) -> bool {
        !rst ==> {
            &&& p.awvalid@.truth() && self.aw_ready ==> p.awsize < 64
            &&& p.arvalid@.truth() && self.reads.ar_ready ==> p.arsize < 64
            &&& p.wvalid@.truth() && self.w_ready ==> self.after_aw(p).beat_fits(p.wid)
            &&& self.reads.can_clock(self.ar_taken(p), p.rready@.truth())
        }
    }
}

/// Whether the inputs of a cycle stay as they are.
pub open spec fn same_inputs(before: Axi3SlavePorts, after: Axi3SlavePorts) -> bool {
    &&& after.awvalid == before.awvalid
    &&& after.awaddr == before.awaddr
    &&& after.awlen == before.awlen
    &&& after.awsize == before.awsize
    &&& after.awburst == before.awburst
    &&& after.awid == before.awid
    &&& after.awlock == before.awlock
    &&& after.wvalid == before.wvalid
    &&& after.wdata == before.wdata
    &&& after.wstrb == before.wstrb
    &&& after.wlast == before.wlast
    &&& after.wid == before.wid
    &&& after.bready == before.bready
    &&& after.arvalid == before.arvalid
    &&& after.araddr == before.araddr
    &&& after.arlen == before.arlen
    &&& after.arsize == before.arsize
    &&& after.arburst == before.arburst
    &&& after.arid == before.arid
    &&& after.arlock == before.arlock
    &&& after.rready == before.rready
}

/// Whether `after` is `before` with the outputs of a memory in state `s`. In
/// reset only the handshake lines are driven.
pub open spec fn drives(
    s: Axi3RamView,
    rst: bool,
    before: Axi3SlavePorts,
    after: Axi3SlavePorts,
) -> bool {
    &&& same_inputs(before, after)
    &&& after.awready == s.aw_ready
    &&& after.wready == s.w_ready
    &&& after.bvalid == s.b_valid
    &&& after.arready == s.reads.ar_ready
    &&& after.rvalid == s.reads.r_valid
    &&& if rst {
        &&& after.bresp == before.bresp
        &&& after.bid == before.bid
        &&& after.rdata == before.rdata
        &&& after.rresp == before.rresp
        &&& after.rid == before.rid
        &&& after.rlast == before.rlast
    } else {
        &&& after.bresp == front_answer(s.b_queue).resp
        &&& after.bid == front_answer(s.b_queue).id
        &&& after.rdata@ == s.reads.r_data
        &&& after.rresp == s.reads.r_resp
        &&& after.rid == s.reads.r_id
        &&& after.rlast == (s.reads.r_valid && s.reads.r_last)
    }
}

/// AXI3 slave memory. Each beat of write data carries the ID of its burst, so
/// several write bursts can stream their data at once. Reads run at once and
/// their beats take turns. An exclusive read (`AxLOCK` of 1) reserves its word;
/// an exclusive write to a word that is still reserved succeeds with EXOKAY,
/// and any write to it uses the reservation up.
pub struct Axi3Ram {
    config: RamConfig,
    mem: Memory,
    lfsr: u64,
    reserved: KeySet,
    writes: Table<WriteBurst>,
    b_queue: Fifo<Answer>,
    aw_ready: bool,
    w_ready: bool,
    b_valid: bool,
    reads: ReadSide,
}

impl View for Axi3Ram {
    type V = Axi3RamView;

    closed spec fn view(&self) -> Axi3RamView {
        Axi3RamView {
            config: self.config,
            mem: self.mem@,
            lfsr: self.lfsr,
            reserved: self.reserved@,
            writes: self.writes@,
            b_queue: self.b_queue@,
            aw_ready: self.aw_ready,
            w_ready: self.w_ready,
            b_valid: self.b_valid,
            reads: self.reads@,
        }
    }
}

impl Axi3Ram {
    /// A memory behind a bus with these port widths. An address port wider
    /// than 64 bits is refused.
    pub fn on_build(awaddr: u32, araddr: u32, config: RamConfig, seed: u64) -> (r: Result<
        Axi3Ram,
        BuildError,
    >)
        ensures
            match r {
                Ok(m) => too_wide("axi3_ram", awaddr, araddr) is None && m@ == Axi3RamView::fresh(
                    config,
                    seed,
                ) && m@.wf(),
                Err(e) => too_wide("axi3_ram", awaddr, araddr) == Some(e),
            },
    {
        match find_too_wide("axi3_ram", awaddr, araddr) {
            Some(e) => Err(e),
            None => Ok(
                Axi3Ram {
                    config,
                    mem: Memory::new(config.width, config.size),
                    lfsr: seed_lfsr(seed),
                    reserved: KeySet::new(),
                    writes: Table::new(),
                    b_queue: Fifo::new(),
                    aw_ready: false,
                    w_ready: false,
                    b_valid: false,
                    reads: ReadSide::new(config.width),
                },
            ),
        }
    }

    /// Whether the sizes and addresses of a cycle fit in 64 bits.
    pub fn in_range(&self, rst: &Value, axi: &Axi3SlavePorts) -> (r: bool)
        ensures
            r == self@.can_clock(rst@.truth(), *axi),
    {
        if is_set(rst) {
            return true;
        }
        let aw = is_set(&axi.awvalid) && self.aw_ready;
        let ar = is_set(&axi.arvalid) && self.reads.ar_ready();
        if (aw && axi.awsize >= 64) || (ar && axi.arsize >= 64) {
            return false;
        }
        if is_set(&axi.wvalid) && self.w_ready {
            if aw && axi.awid == axi.wid {
                if !axi.capture_aw().in_range() {
                    return false;
                }
            } else if let Some(w) = self.writes.get(axi.wid) {
                if !w.burst.in_range() || w.burst.beat == u64::MAX {
                    return false;
                }
            }
        }
        let read = if ar {
            Some(axi.capture_ar())
        } else {
            None
        };
        self.reads.in_range(read, is_set(&axi.rready))
    }

    fn clear(&mut self)
        ensures
            final(self)@ == old(self)@.reset(),
    {
        self.writes.clear();
        self.reserved.clear();
        self.b_queue.clear();
        self.aw_ready = false;
        self.w_ready = false;
        self.b_valid = false;
        self.reads.reset();
        assert(self@ =~= old(self)@.reset());
    }

    fn accept_write(&mut self, b: Burst)
        ensures
            final(self)@ == old(self)@.write_accepted(b),
    {
        let key: u64 = self.mem.key(b.addr);
        let held = self.reserved.remove(key);
        let w = WriteBurst {
            burst: b,
            commit: !b.exclusive || held,
            resp: if b.exclusive && held {
                EXOKAY
            } else {
                OKAY
            },
        };
        let _ = self.writes.insert(b.id, w);
    }

    fn write_beat(&mut self, id: u64, data: &Vec<u64>, strb: &Vec<u64>, last: bool)
        requires
            old(self)@.wf(),
            old(self)@.beat_fits(id),
        ensures
            final(self)@ == (if old(self)@.writes.contains_key(id) {
                old(self)@.beat_written(id, data@, strb@, last)
            } else {
                old(self)@
            }),
            final(self)@.wf(),
    {
        match self.writes.remove(id) {
            Some(w) => {
                let addr: u64 = w.burst.beat_addr();
                let code: u64 = self.mem.resp_for(addr);
                if w.commit && code == OKAY {
                    self.mem.write_mem(addr, data, strb);
                }
                let resp: u64 = max_of(w.resp, code);
                if last {
                    self.b_queue.push_back(Answer { id: w.burst.id, resp });
                } else {
                    let burst = Burst { beat: w.burst.beat + 1, ..w.burst };
                    let _ = self.writes.insert(id, WriteBurst { burst, commit: w.commit, resp });
                }
                assert(self@.writes =~= old(self)@.beat_written(id, data@, strb@, last).writes);
            },
            None => {
                assert(self@.writes =~= old(self)@.writes);
                assert(self@.mem == old(self)@.mem);
            },
        }
    }

    fn clock_write(&mut self, p: &Axi3SlavePorts, stall: bool)
        requires
            old(self)@.wf(),
            p.awvalid@.truth() && old(self)@.aw_ready ==> p.awsize < 64,
            p.wvalid@.truth() && old(self)@.w_ready ==> old(self)@.after_aw(*p).beat_fits(p.wid),
        ensures
            final(self)@ == old(self)@.write_cycle(*p, stall),
            final(self)@.wf(),
    {
        let w_r = self.w_ready;
        let b_v = self.b_valid;
        if is_set(&p.awvalid) && self.aw_ready {
            self.accept_write(p.capture_aw());
        }
        if is_set(&p.wvalid) && w_r {
            self.write_beat(p.wid, &p.wdata, &p.wstrb, is_set(&p.wlast));
        }
        if is_set(&p.bready) && b_v {
            let _ = self.b_queue.pop_front();
        }
        let max: u64 = self.config.max();
        self.aw_ready = (self.writes.len() as u64) < max && (self.b_queue.len() as u64) < max
            && !stall;
        self.w_ready = !self.writes.is_empty() && !stall;
        self.b_valid = !self.b_queue.is_empty();
    }

    fn clock_read(&mut self, p: &Axi3SlavePorts, stall: bool)
        requires
            p.arvalid@.truth() && old(self)@.reads.ar_ready ==> p.arsize < 64,
            old(self)@.reads.can_clock(old(self)@.ar_taken(*p), p.rready@.truth()),
        ensures
            final(self)@ == old(self)@.read_cycle(*p, stall),
    {
        let ar = if is_set(&p.arvalid) && self.reads.ar_ready() {
            Some(p.capture_ar())
        } else {
            None
        };
        if let Some(b) = ar {
            if b.exclusive {
                let key: u64 = self.mem.key(b.addr);
                self.reserved.insert(key);
            }
        }
        self.reads.clock(&self.mem, ar, is_set(&p.rready), self.config.max(), stall);
    }

    /// Answers one cycle and drives the outputs.
    pub fn on_clock(&mut self, rst: &Value, axi: &mut Axi3SlavePorts)
        requires
            old(self)@.wf(),
            old(self)@.can_clock(rst@.truth(), *old(axi)),
        ensures
            final(self)@ == old(self)@.clocked(rst@.truth(), *old(axi)),
            final(self)@.wf(),
            drives(final(self)@, rst@.truth(), *old(axi), *final(axi)),
    {
        if is_set(rst) {
            self.clear();
        } else {
            let stall = stall_now(&mut self.lfsr, self.config.stall);
            assert(self@ =~= old(self)@.drawn());
            self.clock_write(axi, stall);
            self.clock_read(axi, stall);
            let answer = first_answer(&self.b_queue);
            axi.bresp = answer.resp;
            axi.bid = answer.id;
            axi.rdata = copy_words(self.reads.r_data());
            axi.rresp = self.reads.r_resp();
            axi.rid = self.reads.r_id();
            axi.rlast = self.reads.r_valid() && self.reads.r_last();
        }
        axi.awready = self.aw_ready;
        axi.wready = self.w_ready;
        axi.bvalid = self.b_valid;
        axi.arready = self.reads.ar_ready();
        axi.rvalid = self.reads.r_valid();
    }

    /// Replaces the word that holds `addr`.
    pub fn poke(&mut self, addr: u64, data: &Value) -> (r: Result<(), ArgError>)
        requires
            old(self)@.wf(),
        ensures
            final(self)@.wf(),
            match r {
                Ok(_) => arg_result(data@, old(self)@.config.width) is Ok && final(self)@ == (
                Axi3RamView {
                    mem: old(self)@.mem.stored(
                        addr,
                        arg_result(data@, old(self)@.config.width)->Ok_0,
                    ),
                    ..old(self)@
                }),
                Err(e) => final(self)@ == old(self)@ && answers(
                    Err(e),
                    data@,
                    old(self)@.config.width,
                    "poke data"@,
                ),
            },
    {
        self.mem.poke(addr, data)
    }

    /// The word that holds `addr`, at full bus width.
    pub fn peek(&self, addr: u64) -> (r: Value)
        requires
            self@.wf(),
        ensures
            r@ == data_view(self@.mem.at(addr), self@.config.width),
    {
        self.mem.peek(addr)
    }

    /// Makes accesses to the word that holds `addr` answer `code`; OKAY takes
    /// an injected response away.
    pub fn set_resp(&mut self, addr: u64, code: u64)
        requires
            old(self)@.wf(),
        ensures
            final(self)@.wf(),
            final(self)@ == (Axi3RamView {
                mem: old(self)@.mem.answering(addr, code),
                ..old(self)@
            }),
    {
        self.mem.set_resp(addr, code);
    }
}

/// A reset drops what is in flight and every reservation, and keeps the
/// memory.
pub proof fn lemma_reset_keeps_memory(s: Axi3RamView, p: Axi3SlavePorts)
    ensures
        ({
            let t = s.clocked(true, p);
            &&& t.mem == s.mem
            &&& t.reserved == Set::<u64>::empty()
            &&& t.writes == Map::<u64, WriteBurst>::empty()
            &&& t.b_queue.len() == 0 && t.reads.reads.len() == 0
            &&& !t.b_valid && !t.reads.r_valid
        }),
{
}

/// An exclusive write succeeds exactly when its word is still reserved, and
/// any write to a word uses its reservation up: after a write, an exclusive
/// write to the same word fails with OKAY.
pub proof fn lemma_exclusive_write_needs_reservation(s: Axi3RamView, b: Burst, c: Burst)
    requires
        s.mem.key(c.addr) == s.mem.key(b.addr),
        c.exclusive,
    ensures
        ({
            let held = s.reserved.contains(s.mem.key(b.addr));
            let t = s.write_accepted(b);
            let u = t.write_accepted(c);
            &&& b.exclusive ==> t.writes[b.id].commit == held && t.writes[b.id].resp == (if held {
                EXOKAY
            } else {
                OKAY
            })
            &&& !b.exclusive ==> t.writes[b.id].commit && t.writes[b.id].resp == OKAY
            &&& !u.writes[c.id].commit && u.writes[c.id].resp == OKAY
        }),
{
}

/// An exclusive read reserves its word until the next write to that word is
/// accepted; no other access takes the reservation away.
pub proof fn lemma_reservation_lasts(s: Axi3RamView, p: Axi3SlavePorts, key: u64)
    ensures
        ({
            let t = s.clocked(false, p);
            let read = p.arvalid@.truth() && s.reads.ar_ready && p.arlock == 1 && s.mem.key(
                p.araddr,
            ) == key;
            let write = p.awvalid@.truth() && s.aw_ready && s.mem.key(p.awaddr) == key;
            t.reserved.contains(key) <==> read || (s.reserved.contains(key) && !write)
        }),
{
    let stall = stalls(s.lfsr, s.config.stall);
    let w = s.drawn().write_cycle(p, stall);
    assert(w.mem.width == s.mem.width);
}

/// A beat of a write that does not commit, or whose response is an error,
/// leaves the memory untouched, and the response of the burst is the worst of
/// its beats.
pub proof fn lemma_errored_beats_do_not_land(
    s: Axi3RamView,
    id: u64,
    data: Seq<u64>,
    strb: Seq<u64>,
    last: bool,
)
    requires
        s.writes.contains_key(id),
    ensures
        ({
            let t = s.beat_written(id, data, strb, last);
            let w = s.writes[id];
            let code = s.mem.response(w.burst.at() as u64);
            &&& !w.commit || code != OKAY ==> t.mem == s.mem
            &&& !last ==> t.writes[id].resp >= w.resp && t.writes[id].resp >= code
            &&& last ==> t.b_queue.last().id == w.burst.id && t.b_queue.last().resp >= w.resp
                && t.b_queue.last().resp >= code
        }),
{
}

/// Write data may interleave: a beat of one ID leaves the burst of another
/// where it is, so each burst goes through its own beats whatever comes in
/// between.
pub proof fn lemma_write_data_interleaves(
    s: Axi3RamView,
    id: u64,
    other: u64,
    data: Seq<u64>,
    strb: Seq<u64>,
    last: bool,
)
    requires
        id != other,
        s.writes.contains_key(id),
        s.writes.contains_key(other),
    ensures
        ({
            let t = s.beat_written(id, data, strb, last);
            &&& t.writes.contains_key(other)
            &&& t.writes[other] == s.writes[other]
            &&& !last ==> t.writes[id].burst == s.writes[id].burst.next()
            &&& last ==> !t.writes.contains_key(id)
        }),
{
}

/// Whether the response offered is the first that waits.
pub open spec fn offers_answer(s: Axi3RamView) -> bool {
    s.b_valid == (s.b_queue.len() > 0)
}

/// A write response that is not taken stays offered unchanged.
pub proof fn lemma_answer_is_stable(s: Axi3RamView, rst: bool, p: Axi3SlavePorts)
    requires
        offers_answer(s),
    ensures
        offers_answer(s.clocked(rst, p)),
        !rst && s.b_valid && !p.bready@.truth() ==> s.clocked(rst, p).b_valid && front_answer(
            s.clocked(rst, p).b_queue,
        ) == front_answer(s.b_queue),
{
}

} // verus!
