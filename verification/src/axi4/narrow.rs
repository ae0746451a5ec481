//! Random bursts of any type with beats narrower than the bus.

use crate::axi4::burst::{beat, beat_addr, beat_fits, block_size, FIXED, INCR, WRAP};
use crate::axi4::generate::{clip, clipped, lemma_clipped_fits, MadeView, Shadow, ShadowView};
use crate::axi4::ops::{beat_words, count_twos, lemma_twos_bound, twos, WriteOp, WriteOpView};
use crate::common::lanes::{
    aligned, bytes_for, lane_count, lemma_aligned_is_rounding, lemma_aligned_twice,
    lemma_shift_is_pow2, strobed,
};
use crate::common::random::{next_rand, xorshift};
use crate::common::stimulus::{after_data, place, placed, rand_data, random_data};
use crate::common::words::{words_for, zero_words, zeros};
use crate::value::word_count;
use vstd::arithmetic::div_mod::{
    lemma_fundamental_div_mod, lemma_mod_multiples_basic, lemma_mod_multiples_vanish,
};
use vstd::arithmetic::power2::{
    lemma2_to64, lemma2_to64_rest, lemma_pow2_adds, lemma_pow2_pos, lemma_pow2_strictly_increases,
    pow2,
};
use vstd::bits::lemma_u64_low_bits_mask_is_mod;
use vstd::prelude::*;

verus! {

/// A strobe of `words` words with `n` lanes active from lane `from` on.
pub open spec fn lanes_set(words: nat, from: int, n: nat) -> Seq<u64>
    decreases n,
{
    if n == 0 {
        zeros(words)
    } else {
        let i = from + n - 1;
        let rest = lanes_set(words, from, (n - 1) as nat);
        rest.update(i / 64, rest[i / 64] | (1u64 << ((i % 64) as u64)))
    }
}

/// The lane of a `lanes`-wide bus that an address falls on.
pub open spec fn lane_of(addr: u64, lanes: u64) -> u64 {
    addr & ((lanes - 1) as u64)
}

/// The strobe of a beat of `size` bytes at `addr`.
pub open spec fn narrow_strobe(addr: u64, size: u64, width: u32) -> Seq<u64> {
    let lanes = lane_count(width);
    lanes_set(word_count(lanes as u32), lane_of(addr, lanes) as int, size as nat)
}

/// The lanes of an aligned beat lie within the bus.
pub proof fn lemma_beat_lanes(addr: u64, lanes: u64, k: nat)
    requires
        k < 64,
        lanes > 0,
        addr as int % pow2(k) as int == 0,
        lanes as int % pow2(k) as int == 0,
        pow2(k) <= u64::MAX,
    ensures
        lane_of(addr, lanes) + pow2(k) <= lanes,
{
    let size = pow2(k) as u64;
    lemma_pow2_pos(k);
    let m = (lanes - 1) as u64;
    let l = (size - 1) as u64;
    let x = addr & m;
    lemma_u64_low_bits_mask_is_mod(addr, k);
    lemma_u64_low_bits_mask_is_mod(x, k);
    assert((addr & m) & l == (addr & l) & m && addr & m <= m && 0u64 & m == 0) by (bit_vector);
    assert(x % size == 0);
    lemma_fundamental_div_mod(x as int, size as int);
    lemma_fundamental_div_mod(lanes as int, size as int);
    let (p, q) = (x as int / size as int, lanes as int / size as int);
    assert(x + size <= lanes) by (nonlinear_arith)
        requires
            x == size * p,
            lanes == size * q,
            x < lanes,
            size > 0,
    ;
}

fn make_strobe(addr: u64, size: u64, width: u32) -> (r: Vec<u64>)
    requires
        lane_of(addr, lane_count(width)) + size <= lane_count(width),
    ensures
        r@ == narrow_strobe(addr, size, width),
{
    let lanes: u64 = bytes_for(width);
    let n: usize = words_for(lanes as u32);
    let from: u64 = addr & (lanes - 1);
    let mut r: Vec<u64> = zero_words(n);
    let mut i: u64 = 0;
    while i < size
        invariant
            i <= size,
            from + size <= lanes <= u32::MAX,
            lanes <= 64 * n,
            r.len() == n,
            r@ == lanes_set(n as nat, from as int, i as nat),
        decreases size - i,
    {
        let b: u64 = from + i;
        let k: usize = (b / 64) as usize;
        let word: u64 = r[k] | (1u64 << (b % 64));
        r.set(k, word);
        i = i + 1;
    }
    r
}

/// The lanes of a narrow strobe are those of its beat and no others.
pub proof fn lemma_narrow_strobe_lanes(words: nat, from: int, n: nat, i: int)
    requires
        0 <= from,
        from + n <= 64 * words,
        0 <= i < 64 * words,
    ensures
        lanes_set(words, from, n).len() == words,
        strobed(lanes_set(words, from, n), i) <==> from <= i < from + n,
    decreases n,
{
    if n == 0 {
        let b = (i % 64) as u64;
        assert((0u64 >> b) & 1 == 0) by (bit_vector);
    } else {
        let m = (n - 1) as nat;
        lemma_narrow_strobe_lanes(words, from, m, i);
        let rest = lanes_set(words, from, m);
        let j = from + m;
        if i / 64 == j / 64 {
            let w = rest[i / 64];
            let p = (j % 64) as u64;
            let q = (i % 64) as u64;
            assert((((w | (1u64 << p)) >> q) & 1 != 0) <==> (p == q || (w >> q) & 1 != 0))
                by (bit_vector)
                requires
                    p < 64,
                    q < 64,
            ;
        }
    }
}

/// How many wrapping lengths (2, 4, 8 and 16 beats) do not exceed `max_len`.
pub open spec fn wrap_choices(max_len: u64) -> u64 {
    if max_len < 1 {
        0
    } else if max_len < 3 {
        1
    } else if max_len < 7 {
        2
    } else if max_len < 15 {
        3
    } else {
        4
    }
}

/// The wrapping length of choice `i`.
pub open spec fn wrap_len(i: u64) -> u64 {
    if i == 0 {
        1
    } else if i == 1 {
        3
    } else if i == 2 {
        7
    } else {
        15
    }
}

/// What is drawn of a burst before its data.
#[derive(Clone, Copy, Debug, PartialEq, Eq, Structural)]
pub struct Plan {
    pub kind: u64,
    pub size_log: u64,
    pub len: u64,
    pub base: u64,
}

impl Plan {
    /// The bytes of a beat.
    pub open spec fn bytes(self) -> u64 {
        1u64 << self.size_log
    }
}

/// The plan drawn from generator state `lfsr`, and the state after it. A
/// wrapping burst for which no length is short enough becomes an incrementing
/// one.
pub open spec fn planned(lfsr: u64, span: u64, max_len: u64, width: u32) -> (Plan, u64) {
    let x1 = xorshift(lfsr);
    let x2 = xorshift(x1);
    let x3 = xorshift(x2);
    let size_log = (x2 as int % (twos(lane_count(width)) as int + 1)) as u64;
    let bytes = 1u64 << size_log;
    let drawn = (x3 as int % (max_len + 1)) as u64;
    let choices = wrap_choices(max_len);
    let wrap = x1 % 3 == 1;
    let x4 = if wrap {
        xorshift(x3)
    } else {
        x3
    };
    let x5 = xorshift(x4);
    let base = placed(x5, span, bytes);
    let kind = if x1 % 3 == 0 {
        FIXED
    } else if wrap && choices > 0 {
        WRAP
    } else {
        INCR
    };
    let len = if kind == WRAP {
        wrap_len(x4 % choices)
    } else if kind == INCR {
        clipped(base, drawn, bytes)
    } else {
        drawn
    };
    (Plan { kind, size_log, len, base }, x5)
}

fn plan(lfsr: &mut u64, span: u64, max_len: u64, width: u32) -> (r: Plan)
    requires
        span > 0,
        max_len < u64::MAX,
    ensures
        r == planned(*old(lfsr), span, max_len, width).0,
        *final(lfsr) == planned(*old(lfsr), span, max_len, width).1,
{
    let full: u64 = count_twos(bytes_for(width));
    let draw: u64 = next_rand(lfsr) % 3;
    let size_log: u64 = next_rand(lfsr) % (full + 1);
    proof {
        lemma_shift_is_pow2(size_log);
    }
    let bytes: u64 = 1u64 << size_log;
    let mut len: u64 = next_rand(lfsr) % (max_len + 1);
    let mut kind: u64 = if draw == 0 {
        FIXED
    } else if draw == 1 {
        WRAP
    } else {
        INCR
    };
    if kind == WRAP {
        let choices: u64 = if max_len < 1 {
            0
        } else if max_len < 3 {
            1
        } else if max_len < 7 {
            2
        } else if max_len < 15 {
            3
        } else {
            4
        };
        let x: u64 = next_rand(lfsr);
        if choices == 0 {
            kind = INCR;
        } else {
            let i: u64 = x % choices;
            len = if i == 0 {
                1
            } else if i == 1 {
                3
            } else if i == 2 {
                7
            } else {
                15
            };
        }
    }
    let base: u64 = place(next_rand(lfsr), span, bytes);
    if kind == INCR {
        len = clip(base, len, bytes);
    }
    Plan { kind, size_log, len, base }
}

/// Whether a plan is one that can be drawn for a bus with this many byte
/// lanes.
pub open spec fn sound(p: Plan, lanes: u64) -> bool {
    &&& p.size_log <= twos(lanes)
    &&& lanes > 0
    &&& lanes <= 0x2000_0000
    &&& aligned(p.base, p.bytes()) == p.base
    &&& p.kind == FIXED || p.kind == INCR || p.kind == WRAP
    &&& p.kind == INCR ==> exists|n: u64| p.len == #[trigger] clipped(p.base, n, p.bytes())
    &&& p.kind == WRAP ==> p.len == 1 || p.len == 3 || p.len == 7 || p.len == 15
}

/// A plan that is drawn is sound, and no longer than asked for.
pub proof fn lemma_planned_is_sound(lfsr: u64, span: u64, max_len: u64, width: u32)
    requires
        span > 0,
        max_len < u64::MAX,
    ensures
        sound(planned(lfsr, span, max_len, width).0, lane_count(width)),
        planned(lfsr, span, max_len, width).0.len <= max_len,
{
    let p = planned(lfsr, span, max_len, width).0;
    let lanes = lane_count(width);
    lemma_twos_bound(lanes);
    let x1 = xorshift(lfsr);
    let x3 = xorshift(xorshift(x1));
    let x4 = if x1 % 3 == 1 {
        xorshift(x3)
    } else {
        x3
    };
    lemma_aligned_twice(xorshift(x4) % span, p.bytes());
    lemma_shift_is_pow2(p.size_log);
    let drawn = (x3 as int % (max_len + 1)) as u64;
    if p.kind == INCR {
        assert(p.len == clipped(p.base, drawn, p.bytes()));
        lemma_clipped_fits(p.base, drawn, p.bytes(), 0);
    }
}

/// The address of every beat of a sound plan can be computed and is a multiple
/// of the beat's size.
pub proof fn lemma_plan_fits(p: Plan, lanes: u64, n: u64)
    requires
        sound(p, lanes),
        n <= p.len,
    ensures
        p.size_log < 64,
        beat_fits(p.base, p.bytes(), p.kind, p.len, n),
        p.bytes() == pow2(p.size_log as nat),
        beat(p.base, p.bytes(), p.kind, p.len, n) % p.bytes() as int == 0,
        lanes as int % p.bytes() as int == 0,
{
    let s = p.size_log as nat;
    let t = twos(lanes);
    lemma_twos_bound(lanes);
    lemma_shift_is_pow2(p.size_log);
    let bytes = p.bytes();
    lemma_aligned_is_rounding(p.base, bytes, s);
    let base = p.base as int;
    // The beat size divides the lane count.
    lemma_pow2_adds(s, (t - s) as nat);
    let big = pow2(t) as int;
    let f = pow2((t - s) as nat) as int;
    lemma_pow2_pos((t - s) as nat);
    lemma_pow2_pos(t);
    lemma_fundamental_div_mod(lanes as int, big);
    let q = lanes as int / big;
    assert(lanes as int == (f * q) * bytes as int) by (nonlinear_arith)
        requires
            lanes as int == big * q,
            big == bytes as int * f,
    ;
    lemma_mod_multiples_basic(f * q, bytes as int);
    assert(bytes <= lanes) by (nonlinear_arith)
        requires
            bytes * f == big,
            big <= lanes,
            f >= 1,
            bytes > 0,
    ;
    if p.kind == INCR {
        let l = choose|l: u64| p.len == #[trigger] clipped(p.base, l, bytes);
        lemma_clipped_fits(p.base, l, bytes, n);
        lemma_mod_multiples_vanish(n as int, base, bytes as int);
        assert(bytes as int * n as int == n * bytes) by (nonlinear_arith);
    } else if p.kind == WRAP {
        lemma_wrap_fits(p.base, bytes, s, p.len, n);
    }
}

/// A wrapping burst of a power of two of beats lies within the address space.
proof fn lemma_wrap_fits(start: u64, bytes: u64, k: nat, len: u64, n: u64)
    requires
        bytes == pow2(k),
        bytes <= 0x2000_0000,
        len == 1 || len == 3 || len == 7 || len == 15,
        n <= len,
        start % bytes == 0,
        k < 64,
    ensures
        beat_fits(start, bytes, WRAP, len, n),
        beat(start, bytes, WRAP, len, n) % bytes as int == 0,
{
    lemma2_to64();
    let a: nat = if len == 1 {
        1
    } else if len == 3 {
        2
    } else if len == 7 {
        3
    } else {
        4
    };
    let beats = len + 1;
    assert(pow2(a) == beats);
    let block = block_size(bytes, len);
    lemma_pow2_adds(a, k);
    assert(block == pow2(a + k)) by (nonlinear_arith)
        requires
            block == beats * bytes,
            pow2(a) == beats,
            bytes == pow2(k),
            pow2(a) * pow2(k) == pow2(a + k),
    ;
    lemma_pow2_pos(k);
    assert(a + k < 64) by {
        if a + k >= 64 {
            lemma2_to64_rest();
            if a + k > 64 {
                lemma_pow2_strictly_increases(64, a + k);
            }
            assert(beats * bytes <= 16 * 0x2000_0000) by (nonlinear_arith)
                requires
                    0 <= beats <= 16,
                    0 <= bytes <= 0x2000_0000,
            ;
        }
    }
    lemma_pow2_adds(a + k, (64 - a - k) as nat);
    lemma2_to64_rest();
    lemma_pow2_pos(a + k);
    let rest = pow2((64 - a - k) as nat) as int;
    assert(block * rest == 0x1_0000_0000_0000_0000);
    let q = start as int / block;
    let off = start as int % block;
    lemma_fundamental_div_mod(start as int, block);
    assert(q * block + block <= 0x1_0000_0000_0000_0000) by (nonlinear_arith)
        requires
            block * q + off == start,
            0 <= off < block,
            start < 0x1_0000_0000_0000_0000,
            block * rest == 0x1_0000_0000_0000_0000,
            block > 0,
    ;
    let r = (start + n * bytes) % block;
    assert(0 <= n * bytes <= 15 * 0x2000_0000) by (nonlinear_arith)
        requires
            0 <= n <= 15,
            0 <= bytes <= 0x2000_0000,
    ;
    assert(beats * bytes <= 16 * 0x2000_0000) by (nonlinear_arith)
        requires
            0 <= beats <= 16,
            0 <= bytes <= 0x2000_0000,
    ;
    assert(q * block == block * q) by (nonlinear_arith);
    let total = start + n * bytes;
    let w = total / block;
    lemma_fundamental_div_mod(total, block);
    lemma_fundamental_div_mod(start as int, bytes as int);
    let u = start as int / bytes as int;
    let addr = start - off + r;
    // Every part of the address is a multiple of the beat size.
    let m = beats * q + (u + n) - beats * w;
    assert(addr == bytes as int * m) by (nonlinear_arith)
        requires
            addr == start - off + r,
            start == block * q + off,
            total == block * w + r,
            total == start + n * bytes,
            start == bytes as int * u,
            block == beats * bytes,
            m == beats * q + (u + n) - beats * w,
    ;
    lemma_mod_multiples_basic(m, bytes as int);
    assert(m * bytes as int == bytes as int * m) by (nonlinear_arith);
}

/// The first `n` beats of a planned burst: random data with the lanes of each
/// beat active, merged into the record.
pub open spec fn plan_beats(
    lfsr: u64,
    shadow: ShadowView,
    p: Plan,
    width: u32,
    n: nat,
) -> MadeView
    decreases n,
{
    if n == 0 {
        MadeView { lfsr, shadow, data: seq![], strb: seq![] }
    } else {
        let m = plan_beats(lfsr, shadow, p, width, (n - 1) as nat);
        let addr = beat(p.base, p.bytes(), p.kind, p.len, (n - 1) as u64) as u64;
        let d = random_data(m.lfsr, width);
        let s = narrow_strobe(addr, p.bytes(), width);
        MadeView {
            lfsr: after_data(m.lfsr, width),
            shadow: m.shadow.merged_in(addr, d, s, width),
            data: m.data.push(d),
            strb: m.strb.push(s),
        }
    }
}

/// The random burst drawn from generator state `lfsr`: its write, and what is
/// left of the generator and the record.
pub open spec fn random_burst(
    lfsr: u64,
    shadow: ShadowView,
    span: u64,
    max_len: u64,
    width: u32,
) -> (WriteOpView, u64, ShadowView) {
    let (p, x) = planned(lfsr, span, max_len, width);
    let m = plan_beats(x, shadow, p, width, (p.len + 1) as nat);
    (
        WriteOpView {
            addr: p.base,
            len: p.len,
            size_log: p.size_log,
            kind: p.kind,
            lock: 0,
            data: m.data,
            strb: m.strb,
            expect_ok: true,
        },
        m.lfsr,
        m.shadow,
    )
}

/// Makes up a random burst of any type and size and records it.
pub fn make_random_burst(
    lfsr: &mut u64,
    shadow: &mut Shadow,
    span: u64,
    max_len: u64,
    width: u32,
) -> (r: WriteOp)
    requires
        span > 0,
        max_len < u64::MAX,
        old(shadow)@.wf(width),
    ensures
        (r@, *final(lfsr), final(shadow)@) == random_burst(
            *old(lfsr),
            old(shadow)@,
            span,
            max_len,
            width,
        ),
        final(shadow)@.wf(width),
{
    let ghost s0 = shadow@;
    proof {
        lemma_planned_is_sound(*lfsr, span, max_len, width);
    }
    let p: Plan = plan(lfsr, span, max_len, width);
    let ghost x = *lfsr;
    let ghost lanes = lane_count(width);
    proof {
        lemma_plan_fits(p, lanes, 0);
    }
    let bytes: u64 = 1u64 << p.size_log;
    let mut data: Vec<Vec<u64>> = Vec::new();
    let mut strb: Vec<Vec<u64>> = Vec::new();
    let mut n: u64 = 0;
    assert(beat_words(data@) =~= seq![]);
    loop
        invariant_except_break
            n <= p.len,
            beat_words(data@) == plan_beats(x, s0, p, width, n as nat).data,
            beat_words(strb@) == plan_beats(x, s0, p, width, n as nat).strb,
            *lfsr == plan_beats(x, s0, p, width, n as nat).lfsr,
            shadow@ == plan_beats(x, s0, p, width, n as nat).shadow,
        invariant
            lanes == lane_count(width),
            sound(p, lanes),
            bytes == p.bytes(),
            shadow@.wf(width),
        ensures
            beat_words(data@) == plan_beats(x, s0, p, width, (p.len + 1) as nat).data,
            beat_words(strb@) == plan_beats(x, s0, p, width, (p.len + 1) as nat).strb,
            *lfsr == plan_beats(x, s0, p, width, (p.len + 1) as nat).lfsr,
            shadow@ == plan_beats(x, s0, p, width, (p.len + 1) as nat).shadow,
        decreases p.len - n,
    {
        let ghost next = plan_beats(x, s0, p, width, (n + 1) as nat);
        proof {
            lemma_plan_fits(p, lanes, n);
        }
        let addr: u64 = beat_addr(p.base, bytes, p.kind, p.len, n);
        let d: Vec<u64> = rand_data(lfsr, width);
        proof {
            lemma_beat_lanes(addr, lanes, p.size_log as nat);
        }
        let s: Vec<u64> = make_strobe(addr, bytes, width);
        shadow.merge(addr, &d, &s, width);
        data.push(d);
        strb.push(s);
        assert(beat_words(data@) =~= next.data);
        assert(beat_words(strb@) =~= next.strb);
        if n == p.len {
            break;
        }
        n = n + 1;
    }
    WriteOp {
        addr: p.base,
        len: p.len,
        size_log: p.size_log,
        kind: p.kind,
        lock: 0,
        data,
        strb,
        expect_ok: true,
    }
}

} // verus!
