//! What a memory holds and answers, word by word and byte by byte.

use crate::common::lanes::{
    byte_at, lane_count, lemma_lanes_fit, lemma_merge_is_per_byte, lemma_merged_len, strobed,
};
use crate::common::memory::MemoryView;
use crate::common::stimulus::scalar;
use crate::common::words::zeros;
use crate::value::{top_mask, word_count};
use vstd::prelude::*;

verus! {

/// The bytes of a word of a `width`-bit bus.
pub open spec fn byte_lanes(width: u32) -> u64 {
    if width < 8 {
        1
    } else {
        (width / 8) as u64
    }
}

/// The 64-bit words that hold a word of a `width`-bit bus.
pub open spec fn bus_words(width: u32) -> nat {
    if width == 0 {
        1
    } else {
        ((width + 63) / 64) as nat
    }
}

/// The address of the word that holds byte `a`.
pub open spec fn word_start(a: u64, width: u32) -> u64 {
    a & !((byte_lanes(width) - 1) as u64)
}

/// Whether two bytes lie in the same word.
pub open spec fn same_word(a: u64, b: u64, width: u32) -> bool {
    word_start(a, width) == word_start(b, width)
}

/// The code that an access to `a` owes: 3 at or above the size, else the one
/// injected for its word, else 0.
pub open spec fn code_due(m: MemoryView, a: u64) -> u64 {
    if m.size matches Some(s) && a >= s {
        3
    } else if m.errors.contains_key(word_start(a, m.width)) {
        m.errors[word_start(a, m.width)]
    } else {
        0
    }
}

/// The word that a read of `a` owes: what was stored last, or zeros.
pub open spec fn word_due(m: MemoryView, a: u64) -> Seq<u64> {
    if m.words.contains_key(word_start(a, m.width)) {
        m.words[word_start(a, m.width)]
    } else {
        Seq::new(bus_words(m.width), |i: int| 0u64)
    }
}

/// Byte `i` of a word, counted from the lowest.
pub open spec fn byte_of(words: Seq<u64>, i: int) -> u64 {
    if 0 <= i < 8 * words.len() {
        (words[i / 8] >> (((i % 8) * 8) as u64)) & 0xff
    } else {
        0
    }
}

/// Whether bit `i` of a strobe is set.
pub open spec fn lane_active(strb: Seq<u64>, i: int) -> bool {
    0 <= i < 64 * strb.len() && (strb[i / 64] >> ((i % 64) as u64)) & 1 != 0
}

/// A memory answers with the code and the word that it owes.
pub proof fn lemma_memory_answers(m: MemoryView, a: u64)
    ensures
        m.response(a) == code_due(m, a),
        m.at(a) == word_due(m, a),
        m.key(a) == word_start(a, m.width),
        lane_count(m.width) == byte_lanes(m.width),
        word_count(m.width) == bus_words(m.width),
{
    assert(zeros(word_count(m.width)) =~= Seq::new(bus_words(m.width), |i: int| 0u64));
}

/// A memory that was never written holds zeros and answers below its size with 0
/// and from it on with 3.
pub proof fn lemma_empty_memory(width: u32, size: Option<u64>, a: u64)
    ensures
        ({
            let m = MemoryView::empty(width, size);
            &&& m.width == width && m.size == size
            &&& forall|i: int| 0 <= i < m.at(a).len() ==> m.at(a)[i] == 0
            &&& m.response(a) == (if size matches Some(s) && a >= s {
                3u64
            } else {
                0
            })
        }),
{
    lemma_memory_answers(MemoryView::empty(width, size), a);
}

/// A word that is stored is read back from every byte of it and from no other,
/// and no code changes.
pub proof fn lemma_store_is_local(m: MemoryView, a: u64, word: Seq<u64>, b: u64)
    ensures
        ({
            let t = m.stored(a, word);
            &&& t.at(b) == (if same_word(a, b, m.width) {
                word
            } else {
                m.at(b)
            })
            &&& t.response(b) == m.response(b)
            &&& t.width == m.width && t.size == m.size
        }),
{
    lemma_memory_answers(m, a);
    lemma_memory_answers(m, b);
    lemma_memory_answers(m.stored(a, word), b);
}

/// A code that is injected is answered by every byte of its word below the size
/// and by no other, and no word changes.
pub proof fn lemma_injection_is_local(m: MemoryView, a: u64, code: u64, b: u64)
    ensures
        ({
            let t = m.answering(a, code);
            &&& t.response(b) == (if m.size matches Some(s) && b >= s {
                3
            } else if same_word(a, b, m.width) {
                code
            } else {
                m.response(b)
            })
            &&& t.at(b) == m.at(b)
            &&& t.width == m.width && t.size == m.size
        }),
{
    lemma_memory_answers(m, a);
    lemma_memory_answers(m, b);
    lemma_memory_answers(m.answering(a, code), b);
}

/// Whether `t` is `m` after a strobed write at `a`: each byte of the word whose
/// lane is active is that of the data, every other byte of it, every other word
/// and every code is as it was.
pub open spec fn is_written(
    m: MemoryView,
    t: MemoryView,
    a: u64,
    data: Seq<u64>,
    strb: Seq<u64>,
) -> bool {
    &&& t.width == m.width && t.size == m.size
    &&& word_due(t, a).len() == bus_words(m.width)
    &&& forall|i: int|
        0 <= i < 8 * bus_words(m.width) ==> #[trigger] byte_of(word_due(t, a), i) == (if i
            < byte_lanes(m.width) && lane_active(strb, i) {
            byte_of(data, i)
        } else {
            byte_of(word_due(m, a), i)
        })
    &&& forall|b: u64|
        !same_word(a, b, m.width) ==> #[trigger] word_due(t, b) == word_due(m, b)
    &&& forall|b: u64| #[trigger] code_due(t, b) == code_due(m, b)
}

/// A strobed write changes exactly the bytes of its active lanes.
pub proof fn lemma_write_is_local(m: MemoryView, a: u64, data: Seq<u64>, strb: Seq<u64>)
    requires
        m.wf(),
    ensures
        is_written(m, m.written(a, data, strb), a, data, strb),
{
    let t = m.written(a, data, strb);
    let lanes = lane_count(m.width) as nat;
    lemma_memory_answers(m, a);
    lemma_memory_answers(t, a);
    lemma_lanes_fit(m.width);
    lemma_merged_len(m.at(a), data, strb, lanes);
    assert forall|i: int| 0 <= i < 8 * bus_words(m.width) implies #[trigger] byte_of(
        word_due(t, a),
        i,
    ) == (if i < byte_lanes(m.width) && lane_active(strb, i) {
        byte_of(data, i)
    } else {
        byte_of(word_due(m, a), i)
    }) by {
        lemma_merge_is_per_byte(m.at(a), data, strb, lanes, i);
        lemma_same_byte(data, i);
        lemma_same_byte(word_due(t, a), i);
        lemma_same_byte(word_due(m, a), i);
        lemma_same_lane(strb, i);
    }
    assert forall|b: u64| !same_word(a, b, m.width) implies #[trigger] word_due(t, b) == word_due(
        m,
        b,
    ) by {
        lemma_memory_answers(m, b);
        lemma_memory_answers(t, b);
    }
    assert forall|b: u64| #[trigger] code_due(t, b) == code_due(m, b) by {
        lemma_memory_answers(m, b);
        lemma_memory_answers(t, b);
    }
}

/// Byte `i`, where there is one, is the one in lane `i`.
pub proof fn lemma_same_byte(words: Seq<u64>, i: int)
    requires
        0 <= i,
    ensures
        byte_of(words, i) == byte_at(words, i),
{
    let k = ((i % 8) * 8) as u64;
    if i >= 8 * words.len() {
        assert((0u64 >> k) & 0xff == 0) by (bit_vector);
    }
}

/// Lane `i` is active where its strobe is set.
pub proof fn lemma_same_lane(strb: Seq<u64>, i: int)
    requires
        0 <= i,
    ensures
        lane_active(strb, i) == strobed(strb, i),
{
    if i >= 64 * strb.len() {
        let b = (i % 64) as u64;
        vstd::bits::lemma_u64_shr_is_div(0, b);
        assert(0u64 >> b == 0) by {
            vstd::arithmetic::power2::lemma_pow2_pos(b as nat);
        }
        vstd::bits::lemma_u64_low_bits_mask_is_mod(0, 1);
        vstd::bits::lemma_low_bits_mask_values();
        vstd::arithmetic::power2::lemma2_to64();
    }
}

/// Filling sets each word from `base` on to its own address, as many as asked
/// for, and leaves every other word and every code.
pub proof fn lemma_fill_is_local(m: MemoryView, base: u64, n: nat, b: u64)
    requires
        forall|k: int|
            0 <= k < n ==> #[trigger] m.nth_addr(base, k) <= u64::MAX && m.nth_addr(base, k)
                != word_start(b, m.width),
    ensures
        m.filled(base, n).at(b) == m.at(b),
        m.filled(base, n).response(b) == m.response(b),
        m.filled(base, n).width == m.width,
        m.filled(base, n).size == m.size,
        m.filled(base, n).errors == m.errors,
    decreases n,
{
    if n > 0 {
        lemma_fill_is_local(m, base, (n - 1) as nat, b);
        assert(m.nth_addr(base, n - 1) != word_start(b, m.width));
        lemma_memory_answers(m, b);
    }
}

/// Where the words to fill lie: one after another, from the word of `base` on.
pub proof fn lemma_fill_steps(m: MemoryView, base: u64, k: int)
    ensures
        m.nth_addr(base, 0) == word_start(base, m.width),
        m.nth_addr(base, k + 1) == m.nth_addr(base, k) + byte_lanes(m.width),
{
    let lanes = byte_lanes(m.width) as int;
    lemma_memory_answers(m, base);
    assert((k + 1) * lanes == k * lanes + lanes) by (nonlinear_arith);
}

/// A number as a word of the bus: its bits below the width in the lowest 64-bit
/// word, and nothing else.
pub proof fn lemma_scalar_is_the_number(v: u64, width: u32, i: int)
    requires
        0 <= i < bus_words(width),
    ensures
        scalar(v, width).len() == bus_words(width),
        i > 0 ==> scalar(v, width)[i] == 0,
        width >= 64 ==> scalar(v, width)[0] == v,
        width < 64 ==> scalar(v, width)[0] == v & top_mask(width) || width == 0,
{
    let t = top_mask(width);
    assert(0u64 & t == 0) by (bit_vector);
}

} // verus!
