//! The bursts that an AXI4 or AXI3 master makes up, and its record of what
//! they write.

use crate::axi4::burst::{beat, beat_addr, beat_fits, INCR};
use crate::axi4::ops::{beat_words, count_twos, twos, WriteOp, WriteOpView};
use crate::collections::{keys_outside, lists_keys, KeySet, Table};
use crate::common::lanes::{
    align, aligned, bytes_for, lane_count, lemma_aligned_twice, lemma_lanes_fit, lemma_merged_len,
    merge_lanes, merged,
};
use crate::common::random::{next_rand, xorshift};
use crate::common::stimulus::{
    after_data, full_strb, full_strobe, lemma_placed_in_window, place, placed, rand_data,
    random_data,
};
use crate::common::words::{words_for, zero_words, zeros};
use crate::value::{copy_words, word_count};
use vstd::prelude::*;

verus! {

/// What a master has recorded of its writes.
#[verifier::ext_equal]
pub ghost struct ShadowView {
    /// The value last written at each address.
    pub values: Map<u64, Seq<u64>>,
    /// The addresses written more than once, where that matters.
    pub repeated: Set<u64>,
}

impl ShadowView {
    /// Nothing recorded.
    pub open spec fn empty() -> ShadowView {
        ShadowView { values: Map::empty(), repeated: Set::empty() }
    }

    /// Every value is as wide as the bus.
    pub open spec fn wf(self, width: u32) -> bool {
        forall|a: u64| #[trigger]
            self.values.contains_key(a) ==> self.values[a].len() == word_count(width)
    }

    /// With a value recorded; with `mark`, a repeated address is marked.
    pub open spec fn noted(self, addr: u64, data: Seq<u64>, mark: bool) -> ShadowView {
        ShadowView {
            values: self.values.insert(addr, data),
            repeated: if mark && self.values.contains_key(addr) {
                self.repeated.insert(addr)
            } else {
                self.repeated
            },
        }
    }

    /// The value of the word at an aligned address.
    pub open spec fn at(self, key: u64, width: u32) -> Seq<u64> {
        if self.values.contains_key(key) {
            self.values[key]
        } else {
            zeros(word_count(width))
        }
    }

    /// With a strobed write merged into the word that holds `addr`.
    pub open spec fn merged_in(self, addr: u64, data: Seq<u64>, strb: Seq<u64>, width: u32) ->
        ShadowView {
        let key = aligned(addr, lane_count(width));
        ShadowView {
            values: self.values.insert(
                key,
                merged(self.at(key, width), data, strb, lane_count(width) as nat),
            ),
            ..self
        }
    }
}

/// A master's record of its writes.
pub struct Shadow {
    values: Table<Vec<u64>>,
    repeated: KeySet,
}

impl View for Shadow {
    type V = ShadowView;

    closed spec fn view(&self) -> ShadowView {
        ShadowView { values: self.values@, repeated: self.repeated@ }
    }
}

impl Shadow {
    /// Nothing recorded.
    pub fn new() -> (r: Shadow)
        ensures
            r@ == ShadowView::empty(),
    {
        Shadow { values: Table::new(), repeated: KeySet::new() }
    }

    /// Forgets everything.
    pub fn clear(&mut self)
        ensures
            final(self)@ == ShadowView::empty(),
    {
        self.values.clear();
        self.repeated.clear();
    }

    /// Records a value; with `mark`, a repeated address is marked.
    pub fn note(&mut self, addr: u64, data: Vec<u64>, mark: bool)
        ensures
            final(self)@ == old(self)@.noted(addr, data@, mark),
    {
        let before = self.values.insert(addr, data);
        if mark && before.is_some() {
            self.repeated.insert(addr);
        }
    }

    /// Merges a strobed write into the word that holds `addr`.
    pub fn merge(&mut self, addr: u64, data: &Vec<u64>, strb: &Vec<u64>, width: u32)
        requires
            old(self)@.wf(width),
        ensures
            final(self)@ == old(self)@.merged_in(addr, data@, strb@, width),
            final(self)@.wf(width),
    {
        let bytes: u64 = bytes_for(width);
        let key: u64 = align(addr, bytes);
        proof {
            lemma_lanes_fit(width);
            lemma_merged_len(self@.at(key, width), data@, strb@, bytes as nat);
        }
        let mut word = match self.values.remove(key) {
            Some(w) => w,
            None => zero_words(words_for(width)),
        };
        merge_lanes(&mut word, data, strb, bytes);
        let _ = self.values.insert(key, word);
        assert(self@ =~= old(self)@.merged_in(addr, data@, strb@, width));
    }

    /// The addresses recorded, in increasing order.
    pub fn addresses(&self) -> (r: Vec<u64>)
        ensures
            lists_keys(r@, self@.values),
    {
        self.values.sorted_keys()
    }

    /// The addresses recorded that are not marked, in increasing order.
    pub fn certain_addresses(&self) -> (r: Vec<u64>)
        ensures
            lists_keys(r@, self@.values.remove_keys(self@.repeated)),
    {
        let all = self.values.sorted_keys();
        let r = keys_outside(&all, &self.repeated);
        proof {
            let m = self@.values.remove_keys(self@.repeated);
            assert forall|a: u64| #[trigger] r@.contains(a) <==> m.contains_key(a) by {
                assert(all@.contains(a) <==> self@.values.contains_key(a));
            }
        }
        r
    }

    /// The value recorded at an address.
    pub fn value(&self, addr: u64) -> (r: Vec<u64>)
        requires
            self@.values.contains_key(addr),
        ensures
            r@ == self@.values[addr],
    {
        match self.values.get(addr) {
            Some(w) => copy_words(w),
            None => Vec::new(),
        }
    }
}

/// The length of a burst from `base` on, cut to end in its 4 KiB page, but not
/// below one beat.
pub open spec fn clipped(base: u64, len: u64, bytes: u64) -> u64 {
    let room = (0x1000 - base % 0x1000) / bytes as int;
    if len + 1 <= room {
        len
    } else if room == 0 {
        0
    } else {
        (room - 1) as u64
    }
}

/// The length of a burst, cut to end in its 4 KiB page.
pub fn clip(base: u64, len: u64, bytes: u64) -> (r: u64)
    requires
        bytes > 0,
    ensures
        r == clipped(base, len, bytes),
        r <= len,
{
    let room: u64 = (0x1000 - base % 0x1000) / bytes;
    if len < room {
        len
    } else if room == 0 {
        0
    } else {
        room - 1
    }
}

/// A clipped burst stays in its page, or has one beat; all its addresses can
/// be computed.
pub proof fn lemma_clipped_fits(base: u64, len: u64, bytes: u64, n: u64)
    requires
        bytes > 0,
        aligned(base, bytes) == base,
        n <= clipped(base, len, bytes),
    ensures
        beat_fits(base, bytes, INCR, clipped(base, len, bytes), n),
        beat(base, bytes, INCR, clipped(base, len, bytes), n) == base + n * bytes,
        clipped(base, len, bytes) <= len,
        clipped(base, len, bytes) > 0 ==> (base + clipped(base, len, bytes) * bytes + bytes - 1)
            / 0x1000 == base as int / 0x1000,
{
    let k = clipped(base, len, bytes);
    let off = base as int % 0x1000;
    let space = 0x1000 - off;
    let room = space / bytes as int;
    assert(room * bytes <= space) by (nonlinear_arith)
        requires
            room == space / bytes as int,
            bytes > 0,
            space >= 0,
    ;
    assert(0 * bytes == 0);
    if k > 0 {
        assert((k + 1) * bytes <= room * bytes && 0 <= n * bytes <= k * bytes && (k + 1) * bytes
            == k * bytes + bytes) by (nonlinear_arith)
            requires
                k + 1 <= room,
                0 <= n <= k,
                bytes > 0,
        ;
    }
}

/// The length of a burst from `base` on, cut to end in a window of `span` bytes,
/// but not below one beat.
pub open spec fn fitted(base: u64, len: u64, bytes: u64, span: u64) -> u64 {
    let room = (span - base) / bytes as int;
    if len + 1 <= room {
        len
    } else if room <= 0 {
        0
    } else {
        (room - 1) as u64
    }
}

/// The length of a burst, cut to end in its window.
pub fn fit(base: u64, len: u64, bytes: u64, span: u64) -> (r: u64)
    requires
        bytes > 0,
        base <= span,
    ensures
        r == fitted(base, len, bytes, span),
        r <= len,
{
    let room: u64 = (span - base) / bytes;
    if len < room {
        len
    } else if room == 0 {
        0
    } else {
        room - 1
    }
}

/// A burst that is cut to its window ends in it, where its first beat does.
pub proof fn lemma_fitted_ends_in_window(base: u64, len: u64, bytes: u64, span: u64)
    requires
        bytes > 0,
        base <= span,
    ensures
        fitted(base, len, bytes, span) <= len,
        base + bytes <= span ==> base + (fitted(base, len, bytes, span) + 1) * bytes <= span,
{
    let k = fitted(base, len, bytes, span);
    let space = span - base;
    let room = space / bytes as int;
    assert(room * bytes <= space && (bytes <= space ==> room >= 1)) by (nonlinear_arith)
        requires
            room == space / bytes as int,
            bytes > 0,
            space >= 0,
    ;
    if base + bytes <= span {
        assert((k + 1) * bytes <= room * bytes) by (nonlinear_arith)
            requires
                k + 1 <= room,
                bytes > 0,
        ;
    }
}

/// What is made up of a burst: the generator, the record, and the beats.
#[verifier::ext_equal]
pub ghost struct MadeView {
    pub lfsr: u64,
    pub shadow: ShadowView,
    pub data: Seq<Seq<u64>>,
    pub strb: Seq<Seq<u64>>,
}

/// The first `n` beats of an incrementing burst of full-width random data.
pub open spec fn incr_beats(
    lfsr: u64,
    shadow: ShadowView,
    base: u64,
    len: u64,
    width: u32,
    mark: bool,
    n: nat,
) -> MadeView
    decreases n,
{
    if n == 0 {
        MadeView { lfsr, shadow, data: seq![], strb: seq![] }
    } else {
        let m = incr_beats(lfsr, shadow, base, len, width, mark, (n - 1) as nat);
        let d = random_data(m.lfsr, width);
        let addr = beat(base, lane_count(width), INCR, len, (n - 1) as u64) as u64;
        MadeView {
            lfsr: after_data(m.lfsr, width),
            shadow: m.shadow.noted(addr, d, mark),
            data: m.data.push(d),
            strb: m.strb.push(full_strobe(width)),
        }
    }
}

/// A random incrementing burst in a window: its base and length are drawn, its
/// length is cut at the ends of the window and the page, and then its data is
/// drawn.
#[verifier::ext_equal]
pub ghost struct IncrBurst {
    pub base: u64,
    pub len: u64,
    pub made: MadeView,
}

/// The length drawn as `y`, cut to end in the window.
pub open spec fn wanted_len(y: u64, base: u64, max_len: u64, bytes: u64, span: u64) -> u64 {
    fitted(base, (y as int % (max_len + 1)) as u64, bytes, span)
}

/// The random incrementing burst drawn from generator state `lfsr`.
pub open spec fn incr_burst(
    lfsr: u64,
    shadow: ShadowView,
    span: u64,
    max_len: u64,
    width: u32,
    mark: bool,
) -> IncrBurst {
    let x = xorshift(lfsr);
    let y = xorshift(x);
    let lanes = lane_count(width);
    let base = placed(x, span, lanes);
    let len = clipped(base, wanted_len(y, base, max_len, lanes, span), lanes);
    IncrBurst {
        base,
        len,
        made: incr_beats(y, shadow, base, len, width, mark, (len + 1) as nat),
    }
}

impl IncrBurst {
    /// The write of the burst.
    pub open spec fn op(self, width: u32) -> WriteOpView {
        WriteOpView {
            addr: self.base,
            len: self.len,
            size_log: twos(lane_count(width)) as u64,
            kind: INCR,
            lock: 0,
            data: self.made.data,
            strb: self.made.strb,
            expect_ok: true,
        }
    }
}

/// Makes up a random incrementing burst of full-width data and records it.
pub fn make_incr_burst(
    lfsr: &mut u64,
    shadow: &mut Shadow,
    span: u64,
    max_len: u64,
    width: u32,
    mark: bool,
) -> (r: WriteOp)
    requires
        span > 0,
        max_len < u64::MAX,
        old(shadow)@.wf(width),
    ensures
        ({
            let b = incr_burst(*old(lfsr), old(shadow)@, span, max_len, width, mark);
            &&& r@ == b.op(width)
            &&& *final(lfsr) == b.made.lfsr
            &&& final(shadow)@ == b.made.shadow
            &&& final(shadow)@.wf(width)
        }),
{
    let bytes: u64 = bytes_for(width);
    let ghost s0 = shadow@;
    let x: u64 = next_rand(lfsr);
    let base: u64 = place(x, span, bytes);
    let y: u64 = next_rand(lfsr);
    proof {
        lemma_placed_in_window(x, span, bytes);
    }
    let drawn: u64 = fit(base, y % (max_len + 1), bytes, span);
    let len: u64 = clip(base, drawn, bytes);
    let mut data: Vec<Vec<u64>> = Vec::new();
    let mut strb: Vec<Vec<u64>> = Vec::new();
    let mut n: u64 = 0;
    proof {
        lemma_aligned_twice(x % span, bytes);
        assert(beat_words(data@) =~= seq![]);
    }
    loop
        invariant_except_break
            n <= len,
            beat_words(data@) == incr_beats(y, s0, base, len, width, mark, n as nat).data,
            beat_words(strb@) == incr_beats(y, s0, base, len, width, mark, n as nat).strb,
            *lfsr == incr_beats(y, s0, base, len, width, mark, n as nat).lfsr,
            shadow@ == incr_beats(y, s0, base, len, width, mark, n as nat).shadow,
        invariant
            bytes == lane_count(width),
            bytes > 0,
            aligned(base, bytes) == base,
            len == clipped(base, drawn, bytes),
            shadow@.wf(width),
        ensures
            beat_words(data@) == incr_beats(y, s0, base, len, width, mark, (len + 1) as nat).data,
            beat_words(strb@) == incr_beats(y, s0, base, len, width, mark, (len + 1) as nat).strb,
            *lfsr == incr_beats(y, s0, base, len, width, mark, (len + 1) as nat).lfsr,
            shadow@ == incr_beats(y, s0, base, len, width, mark, (len + 1) as nat).shadow,
        decreases len - n,
    {
        let ghost next = incr_beats(y, s0, base, len, width, mark, (n + 1) as nat);
        proof {
            lemma_clipped_fits(base, drawn, bytes, n);
        }
        let addr: u64 = beat_addr(base, bytes, INCR, len, n);
        let d: Vec<u64> = rand_data(lfsr, width);
        shadow.note(addr, copy_words(&d), mark);
        data.push(d);
        strb.push(full_strb(width));
        assert(beat_words(data@) =~= next.data);
        assert(beat_words(strb@) =~= next.strb);
        if n == len {
            break;
        }
        n = n + 1;
    }
    WriteOp {
        addr: base,
        len,
        size_log: count_twos(bytes),
        kind: INCR,
        lock: 0,
        data,
        strb,
        expect_ok: true,
    }
}

} // verus!
