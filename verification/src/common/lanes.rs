//! Byte lanes: strobed merges and address alignment.

use crate::value::{word_at, word_count};
use vstd::arithmetic::power2::{lemma_pow2_pos, pow2};
use vstd::bits::{lemma_u64_low_bits_mask_is_mod, lemma_u64_pow2_no_overflow, lemma_u64_shl_is_mul};
use vstd::prelude::*;

verus! {

/// The number of byte lanes of a `width`-bit bus, at least one.
pub open spec fn lane_count(width: u32) -> u64 {
    if width < 8 {
        1
    } else {
        (width / 8) as u64
    }
}

/// The number of byte lanes of a `width`-bit bus.
pub fn bytes_for(width: u32) -> (r: u64)
    ensures
        r == lane_count(width),
        1 <= r <= u32::MAX / 8,
{
    if width < 8 {
        1
    } else {
        (width / 8) as u64
    }
}

/// `addr` rounded down to a multiple of `bytes`, a power of two.
pub open spec fn aligned(addr: u64, bytes: u64) -> u64 {
    addr & !((bytes - 1) as u64)
}

/// `addr` rounded down to a multiple of `bytes`.
pub fn align(addr: u64, bytes: u64) -> (r: u64)
    requires
        bytes > 0,
    ensures
        r == aligned(addr, bytes),
{
    addr & !(bytes - 1)
}

/// Whether lane `i` is strobed.
pub open spec fn strobed(strb: Seq<u64>, i: int) -> bool {
    (word_at(strb, i / 64) >> ((i % 64) as u64)) & 1 != 0
}

/// The bits of byte `i` of a word.
pub open spec fn byte_mask(i: int) -> u64 {
    0xffu64 << (((i % 8) * 8) as u64)
}

/// `word` with the bits of `mask` taken from `data`.
pub open spec fn blend(word: u64, data: u64, mask: u64) -> u64 {
    (word & !mask) | (data & mask)
}

/// `words` after the strobed lanes among the first `n` took their bytes from
/// `data`.
pub open spec fn merged(words: Seq<u64>, data: Seq<u64>, strb: Seq<u64>, n: nat) -> Seq<u64>
    decreases n,
{
    if n == 0 {
        words
    } else {
        let i = (n - 1) as int;
        let rest = merged(words, data, strb, (n - 1) as nat);
        if strobed(strb, i) {
            rest.update(i / 8, blend(rest[i / 8], word_at(data, i / 8), byte_mask(i)))
        } else {
            rest
        }
    }
}

/// The byte in lane `i`.
pub open spec fn byte_at(words: Seq<u64>, i: int) -> u64 {
    (word_at(words, i / 8) >> (((i % 8) * 8) as u64)) & 0xff
}

/// The word at `i`, or zero past the end.
pub fn nth_word(words: &Vec<u64>, i: usize) -> (r: u64)
    ensures
        r == word_at(words@, i as int),
{
    if i < words.len() {
        words[i]
    } else {
        0
    }
}

/// Takes the strobed bytes among the first `bytes` lanes from `data`.
pub fn merge_lanes(words: &mut Vec<u64>, data: &Vec<u64>, strb: &Vec<u64>, bytes: u64)
    requires
        bytes <= 8 * old(words).len(),
        bytes <= u32::MAX,
    ensures
        final(words)@ == merged(old(words)@, data@, strb@, bytes as nat),
{
    let mut i: u64 = 0;
    while i < bytes
        invariant
            i <= bytes <= u32::MAX,
            bytes <= 8 * words.len(),
            words.len() == old(words).len(),
            words@ == merged(old(words)@, data@, strb@, i as nat),
        decreases bytes - i,
    {
        if (nth_word(strb, (i / 64) as usize) >> (i % 64)) & 1 != 0 {
            let n: usize = (i / 8) as usize;
            let mask: u64 = 0xffu64 << ((i % 8) * 8);
            let w: u64 = (words[n] & !mask) | (nth_word(data, n) & mask);
            words.set(n, w);
        }
        i = i + 1;
    }
}

/// A merge keeps the number of words.
pub proof fn lemma_merged_len(words: Seq<u64>, data: Seq<u64>, strb: Seq<u64>, n: nat)
    requires
        n <= 8 * words.len(),
    ensures
        merged(words, data, strb, n).len() == words.len(),
    decreases n,
{
    if n > 0 {
        lemma_merged_len(words, data, strb, (n - 1) as nat);
    }
}

/// A merge takes each strobed byte from the data and leaves every other byte
/// as it was.
pub proof fn lemma_merge_is_per_byte(
    words: Seq<u64>,
    data: Seq<u64>,
    strb: Seq<u64>,
    n: nat,
    i: int,
)
    requires
        n <= 8 * words.len(),
        0 <= i < 8 * words.len(),
    ensures
        byte_at(merged(words, data, strb, n), i) == byte_at(
            if i < n && strobed(strb, i) {
                data
            } else {
                words
            },
            i,
        ),
    decreases n,
{
    if n > 0 {
        let m = (n - 1) as nat;
        lemma_merge_is_per_byte(words, data, strb, m, i);
        lemma_merged_len(words, data, strb, m);
        let rest = merged(words, data, strb, m);
        if strobed(strb, m as int) && i / 8 == m as int / 8 {
            let w = rest[i / 8];
            let d = word_at(data, i / 8);
            let p = (m % 8) as u64;
            let q = (i % 8) as u64;
            assert((((w & !(0xffu64 << ((p * 8) as u64))) | (d & (0xffu64 << ((p * 8) as u64))))
                >> ((q * 8) as u64)) & 0xff == (if p == q {
                (d >> ((q * 8) as u64)) & 0xff
            } else {
                (w >> ((q * 8) as u64)) & 0xff
            })) by (bit_vector)
                requires
                    p < 8,
                    q < 8,
            ;
            assert(blend(w, d, byte_mask(m as int)) == ((w & !(0xffu64 << ((p * 8) as u64))) | (d
                & (0xffu64 << ((p * 8) as u64)))));
        }
    }
}

/// Byte `q` of word `k`, where the vectors have the same bytes.
proof fn lemma_byte(a: Seq<u64>, b: Seq<u64>, k: int, q: int)
    requires
        a.len() == b.len(),
        forall|i: int| 0 <= i < 8 * a.len() ==> #[trigger] byte_at(a, i) == byte_at(b, i),
        0 <= k < a.len(),
        0 <= q < 8,
    ensures
        (a[k] >> ((q * 8) as u64)) & 0xff == (b[k] >> ((q * 8) as u64)) & 0xff,
{
    let i = 8 * k + q;
    assert(i / 8 == k && i % 8 == q);
    assert(byte_at(a, i) == byte_at(b, i));
}

/// Word vectors of equal length with the same bytes are the same.
pub proof fn lemma_same_bytes_same_words(a: Seq<u64>, b: Seq<u64>)
    requires
        a.len() == b.len(),
        forall|i: int| 0 <= i < 8 * a.len() ==> #[trigger] byte_at(a, i) == byte_at(b, i),
    ensures
        a == b,
{
    assert forall|k: int| 0 <= k < a.len() implies a[k] == b[k] by {
        let (x, y) = (a[k], b[k]);
        lemma_byte(a, b, k, 0);
        lemma_byte(a, b, k, 1);
        lemma_byte(a, b, k, 2);
        lemma_byte(a, b, k, 3);
        lemma_byte(a, b, k, 4);
        lemma_byte(a, b, k, 5);
        lemma_byte(a, b, k, 6);
        lemma_byte(a, b, k, 7);
        assert(x == y) by (bit_vector)
            requires
                (x >> 0u64) & 0xff == (y >> 0u64) & 0xff,
                (x >> 8u64) & 0xff == (y >> 8u64) & 0xff,
                (x >> 16u64) & 0xff == (y >> 16u64) & 0xff,
                (x >> 24u64) & 0xff == (y >> 24u64) & 0xff,
                (x >> 32u64) & 0xff == (y >> 32u64) & 0xff,
                (x >> 40u64) & 0xff == (y >> 40u64) & 0xff,
                (x >> 48u64) & 0xff == (y >> 48u64) & 0xff,
                (x >> 56u64) & 0xff == (y >> 56u64) & 0xff,
        ;
    }
    assert(a =~= b);
}

/// For a power of two, alignment takes the remainder off.
pub proof fn lemma_aligned_is_rounding(addr: u64, bytes: u64, k: nat)
    requires
        k < 64,
        bytes == pow2(k),
    ensures
        aligned(addr, bytes) == addr - addr % bytes,
        aligned(addr, bytes) % bytes == 0,
{
    lemma_u64_low_bits_mask_is_mod(addr, k);
    let m = (bytes - 1) as u64;
    assert((addr & !m) + (addr & m) == addr) by (bit_vector);
    lemma_pow2_pos(k);
    assert((addr - addr % bytes) % (bytes as int) == 0) by (nonlinear_arith)
        requires
            bytes > 0,
    ;
}

/// A shifted one is a power of two.
pub proof fn lemma_shift_is_pow2(k: u64)
    requires
        k < 64,
    ensures
        (1u64 << k) == pow2(k as nat),
        (1u64 << k) > 0,
{
    lemma_u64_pow2_no_overflow(k as nat);
    lemma_u64_shl_is_mul(1, k);
    lemma_pow2_pos(k as nat);
}

/// Alignment is idempotent for any lane count.
pub proof fn lemma_aligned_twice(addr: u64, bytes: u64)
    ensures
        aligned(aligned(addr, bytes), bytes) == aligned(addr, bytes),
        aligned(addr, bytes) <= addr,
{
    let m = !((bytes - 1) as u64);
    assert((addr & m) & m == addr & m && addr & m <= addr) by (bit_vector);
}

/// The lanes of a bus lie within its words.
pub proof fn lemma_lanes_fit(width: u32)
    ensures
        lane_count(width) <= 8 * word_count(width),
{
}

} // verus!
