//! What a made-up burst is, draw by draw.

use crate::axi4::burst::{beat, lemma_beat_is_in_range};
use crate::axi4::generate::{clipped, fitted, incr_beats, incr_burst, ShadowView};
use crate::axi4::narrow::{
    lane_of, lemma_beat_lanes, lemma_narrow_strobe_lanes, lemma_plan_fits, lemma_planned_is_sound,
    plan_beats, planned, random_burst, sound, Plan,
};
use crate::axi4::ops::{lemma_twos_bound, twos};
use crate::common::lanes::{lane_count, lemma_shift_is_pow2};
use crate::common::random::{lemma_rand_steps_add_up, xorshift, xorshift_nth};
use crate::common::stimulus::{full_strobe, placed, random_data};
use crate::common::storage::{bus_words, byte_lanes, lane_active, lemma_same_lane};
use crate::value::word_count;
use vstd::arithmetic::div_mod::lemma_fundamental_div_mod;
use vstd::arithmetic::power2::{lemma2_to64, lemma_pow2_pos, lemma_pow2_unfold, pow2};
use vstd::prelude::*;

verus! {

/// A burst is cut to end in its 4 KiB page, and no further than that takes: with more
/// than one beat it ends in the page, and where it was cut, another beat would not.
pub proof fn lemma_clipping_is_tight(base: u64, len: u64, bytes: u64)
    requires
        bytes > 0,
    ensures
        ({
            let k = clipped(base, len, bytes);
            let offset = base as int % 0x1000;
            &&& k <= len
            &&& k > 0 ==> offset + (k + 1) * bytes <= 0x1000
            &&& k < len ==> offset + (k + 2) * bytes > 0x1000
        }),
{
    let space = 0x1000 - base as int % 0x1000;
    lemma_cut_is_tight(space, len, bytes, clipped(base, len, bytes));
}

/// A burst is cut to end in its window, and no further than that takes.
pub proof fn lemma_fitting_is_tight(base: u64, len: u64, bytes: u64, span: u64)
    requires
        bytes > 0,
        base <= span,
    ensures
        ({
            let k = fitted(base, len, bytes, span);
            &&& k <= len
            &&& k > 0 ==> base + (k + 1) * bytes <= span
            &&& k < len ==> base + (k + 2) * bytes > span
        }),
{
    let room = (span - base) / bytes as int;
    assert(room >= 0) by (nonlinear_arith)
        requires
            room == (span - base) / bytes as int,
            bytes > 0,
            span >= base,
    ;
    lemma_cut_is_tight(span - base, len, bytes, fitted(base, len, bytes, span));
}

proof fn lemma_cut_is_tight(space: int, len: u64, bytes: u64, k: u64)
    requires
        bytes > 0,
        space >= 0,
        ({
            let room = space / bytes as int;
            k == (if len + 1 <= room {
                len as int
            } else if room == 0 {
                0
            } else {
                room - 1
            })
        }),
    ensures
        k <= len,
        k > 0 ==> (k + 1) * bytes <= space,
        k < len ==> (k + 2) * bytes > space,
{
    let room = space / bytes as int;
    let d = bytes as int;
    assert(0 <= room * d <= space && space < (room + 1) * d && room >= 0) by (nonlinear_arith)
        requires
            room == space / d,
            d > 0,
            space >= 0,
    ;
    if k > 0 {
        assert((k + 1) * d <= room * d) by (nonlinear_arith)
            requires
                k + 1 <= room,
                d > 0,
        ;
    }
    if k < len {
        assert((k + 2) * d >= (room + 1) * d) by (nonlinear_arith)
            requires
                k + 2 >= room + 1,
                d > 0,
        ;
    }
}

/// A random incrementing burst draws its base and then its length, which is cut to
/// its window and then to its page. It has to succeed, is not exclusive, and is of
/// full-width beats with all lanes active.
pub proof fn lemma_incr_burst_is_drawn(
    lfsr: u64,
    shadow: ShadowView,
    span: u64,
    max_len: u64,
    width: u32,
    mark: bool,
)
    requires
        max_len < u64::MAX,
    ensures
        ({
            let b = incr_burst(lfsr, shadow, span, max_len, width, mark);
            let lanes = byte_lanes(width);
            let x = xorshift(lfsr);
            let y = xorshift(x);
            let op = b.op(width);
            &&& op.addr == placed(x, span, lanes)
            &&& op.len == clipped(
                op.addr,
                fitted(op.addr, (y as int % (max_len + 1)) as u64, lanes, span),
                lanes,
            )
            &&& op.size_log == twos(lanes)
            &&& op.kind == 1 && op.lock == 0 && op.expect_ok
            &&& op.data.len() == op.len + 1 && op.strb.len() == op.len + 1
            &&& b.made.lfsr == xorshift_nth(y, ((op.len + 1) * bus_words(width)) as nat)
        }),
{
    let b = incr_burst(lfsr, shadow, span, max_len, width, mark);
    let y = xorshift(xorshift(lfsr));
    lemma_incr_beats_are_drawn(y, shadow, b.base, b.len, width, mark, (b.len + 1) as nat, 0);
    lemma_twos_bound(byte_lanes(width));
}

/// Each beat of such a burst is drawn from where the one before it left off, and is
/// recorded at its address.
pub proof fn lemma_incr_beats_are_drawn(
    lfsr: u64,
    shadow: ShadowView,
    base: u64,
    len: u64,
    width: u32,
    mark: bool,
    n: nat,
    i: int,
)
    requires
        n > 0 ==> 0 <= i < n,
        n <= u64::MAX + 1,
    ensures
        ({
            let m = incr_beats(lfsr, shadow, base, len, width, mark, n);
            let words = bus_words(width);
            let a = beat(base, byte_lanes(width), 1, len, i as u64) as u64;
            &&& m.data.len() == n && m.strb.len() == n
            &&& m.lfsr == xorshift_nth(lfsr, n * words)
            &&& n == 0 ==> m.shadow == shadow
            &&& n > 0 ==> {
                &&& m.data[i] == random_data(xorshift_nth(lfsr, (i * words) as nat), width)
                &&& m.strb[i] == full_strobe(width)
                &&& m.shadow.values.contains_key(a)
                &&& i == n - 1 ==> m.shadow.values[a] == m.data[i] && m.shadow == incr_beats(
                    lfsr,
                    shadow,
                    base,
                    len,
                    width,
                    mark,
                    (n - 1) as nat,
                ).shadow.noted(a, m.data[i], mark)
            }
        }),
    decreases n,
{
    let words = bus_words(width);
    if n == 0 {
        assert(0 * words == 0);
    } else {
        let k = (n - 1) as nat;
        let j = if i < k {
            i
        } else {
            0
        };
        lemma_incr_beats_are_drawn(lfsr, shadow, base, len, width, mark, k, j);
        lemma_rand_steps_add_up(lfsr, k * words, words);
        assert(k * words + words == n * words) by (nonlinear_arith)
            requires
                n == k + 1,
        ;
        assert((k as int) * (words as int) == k * words) by (nonlinear_arith);
    }
}

/// What is recorded of a word is what was written last; where that matters, an
/// address that is written again is marked.
pub proof fn lemma_notes_are_kept(s: ShadowView, addr: u64, data: Seq<u64>, mark: bool, b: u64)
    ensures
        ({
            let t = s.noted(addr, data, mark);
            &&& t.values.contains_key(b) <==> b == addr || s.values.contains_key(b)
            &&& t.values[addr] == data
            &&& b != addr && s.values.contains_key(b) ==> t.values[b] == s.values[b]
            &&& t.repeated.contains(b) <==> s.repeated.contains(b) || mark && b == addr
                && s.values.contains_key(b)
        }),
{
}

/// The wrapping lengths that do not exceed `max_len`: those of 2, 4, 8 and 16 beats.
pub open spec fn wraps_within(max_len: u64) -> nat {
    if max_len >= 15 {
        4
    } else if max_len >= 7 {
        3
    } else if max_len >= 3 {
        2
    } else if max_len >= 1 {
        1
    } else {
        0
    }
}

/// A random burst of any type draws, in order: its type, modulo 3 (0 fixed, 1
/// wrapping, 2 incrementing); the size of a beat, up to the width of the bus; its
/// length; for a wrapping one which of the wrapping lengths that are short enough it
/// has, and without any it is incrementing; and its base. An incrementing one is cut
/// to its page.
pub proof fn lemma_plan_is_drawn(lfsr: u64, span: u64, max_len: u64, width: u32)
    requires
        max_len < u64::MAX,
    ensures
        ({
            let (p, end) = planned(lfsr, span, max_len, width);
            let x1 = xorshift_nth(lfsr, 1);
            let x2 = xorshift_nth(lfsr, 2);
            let x3 = xorshift_nth(lfsr, 3);
            let x4 = xorshift_nth(lfsr, 4);
            let n = wraps_within(max_len);
            let drawn = (x3 as int % (max_len + 1)) as u64;
            let bytes = pow2(p.size_log as nat);
            &&& end == xorshift_nth(
                lfsr,
                if x1 % 3 == 1 {
                    5
                } else {
                    4
                },
            )
            &&& p.size_log == x2 as nat % (twos(byte_lanes(width)) + 1)
            &&& bytes <= u64::MAX && p.base == placed(end, span, bytes as u64)
            &&& p.kind == (if x1 % 3 == 0 {
                0u64
            } else if x1 % 3 == 1 && n > 0 {
                2
            } else {
                1
            })
            &&& p.kind == 0 ==> p.len == drawn
            &&& p.kind == 1 ==> p.len == clipped(p.base, drawn, bytes as u64)
            &&& p.kind == 2 ==> p.len + 1 == pow2((x4 as nat % n + 1) as nat)
        }),
{
    let (p, end) = planned(lfsr, span, max_len, width);
    let x1 = xorshift(lfsr);
    reveal_with_fuel(xorshift_nth, 6);
    lemma_twos_bound(byte_lanes(width));
    lemma_shift_is_pow2(p.size_log);
    lemma2_to64();
}

/// The burst is what the plan says: as many beats as announced, none of them
/// exclusive, each with the data drawn from where the one before it left off and with
/// the lanes active that its bytes fall on, and no others.
pub proof fn lemma_random_burst_is_drawn(
    lfsr: u64,
    shadow: ShadowView,
    span: u64,
    max_len: u64,
    width: u32,
    i: int,
    l: int,
)
    requires
        span > 0,
        max_len < u64::MAX,
        0 <= i <= random_burst(lfsr, shadow, span, max_len, width).0.len,
        0 <= l,
    ensures
        ({
            let (p, x) = planned(lfsr, span, max_len, width);
            let (op, end, _) = random_burst(lfsr, shadow, span, max_len, width);
            let words = bus_words(width);
            let bytes = pow2(p.size_log as nat) as u64;
            let a = beat(p.base, bytes, p.kind, p.len, i as u64) as u64;
            let from = a & ((byte_lanes(width) - 1) as u64);
            &&& op.addr == p.base && op.len == p.len && op.size_log == p.size_log
            &&& op.kind == p.kind && op.lock == 0 && op.expect_ok
            &&& op.data.len() == p.len + 1 && op.strb.len() == p.len + 1
            &&& op.data[i] == random_data(xorshift_nth(x, (i * words) as nat), width)
            &&& lane_active(op.strb[i], l) <==> from <= l < from + bytes
            &&& end == xorshift_nth(x, ((p.len + 1) * words) as nat)
        }),
{
    let (p, x) = planned(lfsr, span, max_len, width);
    lemma_planned_is_sound(lfsr, span, max_len, width);
    lemma_plan_beats_are_drawn(x, shadow, p, width, (p.len + 1) as nat, i, l);
}

/// Each beat of a planned burst is drawn from where the one before it left off, with
/// the lanes active that its bytes fall on, and no others, and is merged into the
/// record at its address.
pub proof fn lemma_plan_beats_are_drawn(
    x: u64,
    shadow: ShadowView,
    p: Plan,
    width: u32,
    n: nat,
    i: int,
    l: int,
)
    requires
        sound(p, lane_count(width)),
        n <= p.len + 1,
        n > 0 ==> 0 <= i < n,
        0 <= l,
    ensures
        ({
            let m = plan_beats(x, shadow, p, width, n);
            let words = bus_words(width);
            let bytes = pow2(p.size_log as nat) as u64;
            let a = beat(p.base, bytes, p.kind, p.len, i as u64) as u64;
            let from = a & ((byte_lanes(width) - 1) as u64);
            &&& m.data.len() == n && m.strb.len() == n
            &&& m.lfsr == xorshift_nth(x, n * words)
            &&& n == 0 ==> m.shadow == shadow
            &&& n > 0 ==> {
                &&& i == n - 1 ==> m.shadow == plan_beats(
                    x,
                    shadow,
                    p,
                    width,
                    (n - 1) as nat,
                ).shadow.merged_in(a, m.data[i], m.strb[i], width)
                &&& m.data[i] == random_data(xorshift_nth(x, (i * words) as nat), width)
                &&& lane_active(m.strb[i], l) <==> from <= l < from + bytes
            }
        }),
    decreases n,
{
    let words = bus_words(width);
    let lanes = lane_count(width);
    if n == 0 {
        assert(0 * words == 0);
    } else {
        let k = (n - 1) as nat;
        let j = if i < k {
            i
        } else {
            0
        };
        lemma_plan_beats_are_drawn(x, shadow, p, width, k, j, l);
        lemma_rand_steps_add_up(x, k * words, words);
        assert(k * words + words == n * words) by (nonlinear_arith)
            requires
                n == k + 1,
        ;
        assert((k as int) * (words as int) == k * words) by (nonlinear_arith);
        if i == k {
            lemma_plan_fits(p, lanes, i as u64);
            let a = beat(p.base, p.bytes(), p.kind, p.len, i as u64) as u64;
            lemma_beat_is_in_range(p.base, p.bytes(), p.kind, p.len, i as u64);
            lemma_beat_lanes(a, lanes, p.size_log as nat);
            let strb = plan_beats(x, shadow, p, width, n).strb[i];
            let w = word_count(lanes as u32);
            let from = lane_of(a, lanes) as int;
            lemma_narrow_strobe_lanes(w, from, p.bytes() as nat, 0);
            if l < 64 * w {
                lemma_narrow_strobe_lanes(w, from, p.bytes() as nat, l);
                lemma_same_lane(strb, l);
            }
        }
    }
}

/// What is left of a number after taking out its twos is odd.
pub proof fn lemma_twos_are_all(n: u64)
    requires
        n > 0,
    ensures
        n as int % pow2(twos(n)) as int == 0,
        (n as int / pow2(twos(n)) as int) % 2 == 1,
    decreases n,
{
    lemma_twos_bound(n);
    if n % 2 == 1 {
        lemma2_to64();
        assert(n as int / 1 == n);
    } else {
        lemma_twos_are_all(n / 2);
        let h = (n / 2) as int;
        let p = pow2(twos(n / 2)) as int;
        lemma_pow2_unfold(twos(n));
        assert(twos(n) - 1 == twos(n / 2));
        assert(pow2(twos(n)) == 2 * p);
        lemma_pow2_pos(twos(n / 2));
        lemma_fundamental_div_mod(h, p);
        let q = h / p;
        assert(n as int / (2 * p) == q) by (nonlinear_arith)
            requires
                n as int == 2 * h,
                h == p * q,
                p > 0,
        ;
    }
}

} // verus!
