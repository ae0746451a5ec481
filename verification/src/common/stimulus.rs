//! Write data, strobes and addresses that a master makes up.

use crate::common::lanes::{
    align, aligned, blend, byte_at, byte_mask, bytes_for, lane_count, lemma_merge_is_per_byte,
    lemma_merged_len, lemma_same_bytes_same_words, merged, strobed,
};
use crate::common::random::{next_rand, xorshift_nth};
use crate::common::words::{extended, mask_words, masked, words_for, zero_words, zeros};
use crate::value::{top_mask, word_at, word_count};
use vstd::prelude::*;

verus! {

/// The strobe with every lane of a `width`-bit bus active.
pub open spec fn full_strobe(width: u32) -> Seq<u64> {
    let lanes = lane_count(width) as u32;
    masked(Seq::new(word_count(lanes), |i: int| u64::MAX), lanes)
}

/// The strobe with every lane active.
pub fn full_strb(width: u32) -> (r: Vec<u64>)
    ensures
        r@ == full_strobe(width),
{
    let lanes: u32 = bytes_for(width) as u32;
    let n: usize = words_for(lanes);
    let mut r = vec![u64::MAX; n];
    assert(r@ =~= Seq::new(word_count(lanes), |i: int| u64::MAX));
    mask_words(&mut r, lanes);
    r
}

/// The random data word vector drawn from generator state `x`.
pub open spec fn random_data(x: u64, width: u32) -> Seq<u64> {
    masked(Seq::new(word_count(width), |i: int| xorshift_nth(x, (i + 1) as nat)), width)
}

/// The generator's state after such a draw.
pub open spec fn after_data(x: u64, width: u32) -> u64 {
    xorshift_nth(x, word_count(width))
}

/// Draws a random data word vector.
pub fn rand_data(lfsr: &mut u64, width: u32) -> (r: Vec<u64>)
    ensures
        r@ == random_data(*old(lfsr), width),
        *final(lfsr) == after_data(*old(lfsr), width),
{
    let n: usize = words_for(width);
    let mut r: Vec<u64> = Vec::new();
    let mut i: usize = 0;
    let ghost x = *lfsr;
    while i < n
        invariant
            i <= n,
            n == word_count(width),
            r.len() == i,
            *lfsr == xorshift_nth(x, i as nat),
            forall|j: int| 0 <= j < i ==> r[j] == xorshift_nth(x, (j + 1) as nat),
        decreases n - i,
    {
        let w: u64 = next_rand(lfsr);
        r.push(w);
        i = i + 1;
    }
    assert(r@ =~= Seq::new(word_count(width), |i: int| xorshift_nth(x, (i + 1) as nat)));
    mask_words(&mut r, width);
    r
}

/// A strobe of `words` words in which each of the first `n` lanes was drawn
/// from generator state `x`, one draw per lane.
pub open spec fn random_strobe(x: u64, words: nat, n: nat) -> Seq<u64>
    decreases n,
{
    if n == 0 {
        zeros(words)
    } else {
        let i = (n - 1) as int;
        let rest = random_strobe(x, words, (n - 1) as nat);
        if xorshift_nth(x, n) & 1 == 1 {
            rest.update(i / 64, rest[i / 64] | (1u64 << ((i % 64) as u64)))
        } else {
            rest
        }
    }
}

/// Draws a random strobe for the lanes of a `width`-bit bus.
pub fn rand_strobe(lfsr: &mut u64, width: u32) -> (r: Vec<u64>)
    ensures
        r@ == random_strobe(
            *old(lfsr),
            word_count(lane_count(width) as u32),
            lane_count(width) as nat,
        ),
        *final(lfsr) == xorshift_nth(*old(lfsr), lane_count(width) as nat),
{
    let bytes: u64 = bytes_for(width);
    let n: usize = words_for(bytes as u32);
    let mut r: Vec<u64> = zero_words(n);
    let mut i: u64 = 0;
    let ghost x = *lfsr;
    while i < bytes
        invariant
            i <= bytes <= u32::MAX,
            bytes <= 64 * n,
            n == word_count(bytes as u32),
            r.len() == n,
            *lfsr == xorshift_nth(x, i as nat),
            r@ == random_strobe(x, n as nat, i as nat),
        decreases bytes - i,
    {
        let w: u64 = next_rand(lfsr);
        if w & 1 == 1 {
            let k: usize = (i / 64) as usize;
            let word: u64 = r[k] | (1u64 << (i % 64));
            r.set(k, word);
        }
        i = i + 1;
    }
    r
}

/// The size of a `2^bits`-byte window, capped at the largest number.
pub open spec fn window(bits: u64) -> u64 {
    let n = (bits % 0x1_0000_0000) as u32;
    if n < 64 {
        1u64 << (n as u64)
    } else {
        u64::MAX
    }
}

/// The size of a `2^bits`-byte window.
pub fn span_of(bits: u64) -> (r: u64)
    ensures
        r == window(bits),
        r > 0,
{
    let n: u64 = bits % 0x1_0000_0000;
    if n < 64 {
        proof {
            crate::common::lanes::lemma_shift_is_pow2(n);
        }
        1u64 << n
    } else {
        u64::MAX
    }
}

/// A random address in a window, aligned to `bytes`, from a drawn number.
pub open spec fn placed(x: u64, span: u64, bytes: u64) -> u64 {
    aligned(x % span, bytes)
}

/// A random address in a window, aligned to `bytes`.
pub fn place(x: u64, span: u64, bytes: u64) -> (r: u64)
    requires
        span > 0,
        bytes > 0,
    ensures
        r == placed(x, span, bytes),
{
    align(x % span, bytes)
}

/// A data word vector that holds `v` in its low 64 bits.
pub open spec fn scalar(v: u64, width: u32) -> Seq<u64> {
    masked(zeros(word_count(width)).update(0, v), width)
}

/// A data word vector that holds `v` in its low 64 bits.
pub fn scalar_words(v: u64, width: u32) -> (r: Vec<u64>)
    ensures
        r@ == scalar(v, width),
{
    let n: usize = words_for(width);
    let mut r: Vec<u64> = zero_words(n);
    r.set(0, v);
    mask_words(&mut r, width);
    r
}

/// `words` cut or zero-extended to the words of a `width`-bit bus.
pub fn sized(words: &Vec<u64>, width: u32) -> (r: Vec<u64>)
    ensures
        r@ == extended(words@, word_count(width)),
{
    let n: usize = words_for(width);
    let mut r: Vec<u64> = Vec::new();
    let mut i: usize = 0;
    while i < n
        invariant
            i <= n,
            r.len() == i,
            forall|j: int| 0 <= j < i ==> r[j] == word_at(words@, j),
        decreases n - i,
    {
        r.push(crate::common::lanes::nth_word(words, i));
        i = i + 1;
    }
    assert(r@ =~= extended(words@, word_count(width)));
    r
}

/// A full strobe activates every lane of the bus and nothing else.
pub proof fn lemma_full_strobe_is_full(width: u32, i: int)
    requires
        0 <= i < 64 * word_count(lane_count(width) as u32),
    ensures
        strobed(full_strobe(width), i) <==> i < lane_count(width),
{
    let lanes = lane_count(width) as u32;
    let n = word_count(lanes);
    let k = i / 64;
    let b = (i % 64) as u64;
    let all = Seq::new(n, |i: int| u64::MAX);
    if lanes % 64 != 0 && k == n - 1 {
        let rem = (lanes % 64) as u64;
        let m = u64::MAX >> ((64 - rem) as u64);
        assert(((u64::MAX & (u64::MAX >> ((64 - rem) as u64))) >> b) & 1 != 0 <==> b < rem)
            by (bit_vector)
            requires
                0 < rem < 64,
                b < 64,
        ;
        assert(full_strobe(width)[k] == u64::MAX & m);
    } else {
        assert((u64::MAX >> b) & 1 != 0) by (bit_vector)
            requires
                b < 64,
        ;
        assert(full_strobe(width)[k] == u64::MAX);
    }
}

/// On a bus of whole bytes, a write with every lane active replaces the word:
/// what was there before does not matter.
pub proof fn lemma_full_write_replaces(old_words: Seq<u64>, data: Seq<u64>, width: u32)
    requires
        width > 0,
        width % 8 == 0,
        old_words.len() == word_count(width),
        data.len() == word_count(width),
        masked(old_words, width) == old_words,
        masked(data, width) == data,
    ensures
        merged(old_words, data, full_strobe(width), lane_count(width) as nat) == data,
{
    let lanes = lane_count(width);
    let strb = full_strobe(width);
    let m = merged(old_words, data, strb, lanes as nat);
    lemma_merged_len(old_words, data, strb, lanes as nat);
    assert forall|i: int| 0 <= i < 8 * data.len() implies byte_at(m, i) == byte_at(data, i) by {
        lemma_merge_is_per_byte(old_words, data, strb, lanes as nat, i);
        if i < lanes {
            lemma_full_strobe_is_full(width, i);
        } else {
            lemma_no_byte_above(old_words, width, i);
            lemma_no_byte_above(data, width, i);
        }
    }
    lemma_same_bytes_same_words(m, data);
}

/// A masked word vector stays masked where a word is replaced by one that
/// fits.
proof fn lemma_update_stays_masked(words: Seq<u64>, k: int, v: u64, width: u32)
    requires
        masked(words, width) == words,
        0 <= k < words.len(),
        width % 64 != 0 && k == words.len() - 1 ==> v & top_mask(width) == v,
    ensures
        masked(words.update(k, v), width) == words.update(k, v),
{
    let all = words.update(k, v);
    if width % 64 != 0 {
        assert(masked(words, width).last() == words.last() & top_mask(width));
        assert(all.last() & top_mask(width) == all.last());
    }
    assert(masked(all, width) =~= all);
}

/// A byte of a lane of the bus that is put into a masked top word leaves it
/// masked.
proof fn lemma_blend_stays_masked(w: u64, d: u64, width: u32, i: int)
    requires
        width % 8 == 0,
        width % 64 != 0,
        0 <= i % 8 * 8 + 8 <= width % 64,
        w & top_mask(width) == w,
    ensures
        blend(w, d, byte_mask(i)) & top_mask(width) == blend(w, d, byte_mask(i)),
{
    let rem = (width % 64) as u64;
    let q = (i % 8) as u64;
    let t = u64::MAX >> ((64 - rem) as u64);
    let b = 0xffu64 << ((q * 8) as u64);
    assert(b & t == b) by (bit_vector)
        requires
            q * 8 + 8 <= rem,
            0 < rem < 64,
            q < 8,
            t == u64::MAX >> ((64 - rem) as u64),
            b == 0xffu64 << ((q * 8) as u64),
    ;
    assert(((w & !b) | (d & b)) & t == (w & !b) | (d & b)) by (bit_vector)
        requires
            w & t == w,
            b & t == b,
    ;
}

/// On a bus of whole bytes, a merge sets no bit above the width.
pub proof fn lemma_merge_stays_masked(
    words: Seq<u64>,
    data: Seq<u64>,
    strb: Seq<u64>,
    width: u32,
    n: nat,
)
    requires
        width > 0,
        width % 8 == 0,
        words.len() == word_count(width),
        masked(words, width) == words,
        n <= lane_count(width),
    ensures
        masked(merged(words, data, strb, n), width) == merged(words, data, strb, n),
    decreases n,
{
    if n > 0 {
        let m = (n - 1) as nat;
        let rest = merged(words, data, strb, m);
        lemma_merge_stays_masked(words, data, strb, width, m);
        lemma_merged_len(words, data, strb, m);
        let i = m as int;
        if strobed(strb, i) {
            let v = blend(rest[i / 8], word_at(data, i / 8), byte_mask(i));
            if width % 64 != 0 && i / 8 == words.len() - 1 {
                assert(masked(rest, width).last() == rest.last() & top_mask(width));
                lemma_blend_stays_masked(rest[i / 8], word_at(data, i / 8), width, i);
            }
            lemma_update_stays_masked(rest, i / 8, v, width);
        }
    }
}

/// A masked word vector has no byte above its width.
proof fn lemma_no_byte_above(words: Seq<u64>, width: u32, i: int)
    requires
        width > 0,
        width % 8 == 0,
        words.len() == word_count(width),
        masked(words, width) == words,
        lane_count(width) <= i < 8 * words.len(),
    ensures
        byte_at(words, i) == 0,
{
    let rem = (width % 64) as u64;
    let q = (i % 8) as u64;
    let w = words.last();
    assert(i / 8 == words.len() - 1);
    assert(rem != 0);
    assert(masked(words, width).last() == w & top_mask(width));
    assert((w >> ((q * 8) as u64)) & 0xff == 0) by (bit_vector)
        requires
            0 < rem < 64,
            q < 8,
            rem <= q * 8,
            w & (u64::MAX >> ((64 - rem) as u64)) == w,
    ;
}

/// A lane of a random strobe is active exactly when its draw is odd.
pub proof fn lemma_random_strobe_lanes(x: u64, words: nat, n: nat, i: int)
    requires
        n <= 64 * words,
        0 <= i < 64 * words,
    ensures
        random_strobe(x, words, n).len() == words,
        strobed(random_strobe(x, words, n), i) <==> i < n && xorshift_nth(x, (i + 1) as nat) & 1
            == 1,
    decreases n,
{
    if n == 0 {
        let b = (i % 64) as u64;
        assert((0u64 >> b) & 1 == 0) by (bit_vector);
    } else {
        let m = (n - 1) as nat;
        lemma_random_strobe_lanes(x, words, m, i);
        let rest = random_strobe(x, words, m);
        let j = m as int;
        if xorshift_nth(x, n) & 1 == 1 && i / 64 == j / 64 {
            let w = rest[i / 64];
            let p = (j % 64) as u64;
            let q = (i % 64) as u64;
            assert((((w | (1u64 << p)) >> q) & 1 != 0) <==> (p == q || (w >> q) & 1 != 0))
                by (bit_vector)
                requires
                    p < 64,
                    q < 64,
            ;
        }
    }
}

/// A random address lies in its window.
pub proof fn lemma_placed_in_window(x: u64, span: u64, bytes: u64)
    requires
        span > 0,
    ensures
        placed(x, span, bytes) < span,
{
    crate::common::lanes::lemma_aligned_twice(x % span, bytes);
    assert(x % span < span);
}

} // verus!
