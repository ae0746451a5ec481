//! A sparse memory behind a bus, with injected error responses.

use crate::collections::Table;
use crate::common::lanes::{
    align, aligned, byte_at, bytes_for, lane_count, lemma_aligned_is_rounding, lemma_lanes_fit,
    lemma_merge_is_per_byte, lemma_merged_len, merge_lanes, merged, nth_word, strobed,
};
use crate::common::resp::{DECERR, OKAY};
use crate::common::stimulus::{
    full_strobe, lemma_full_write_replaces, lemma_merge_stays_masked, scalar, scalar_words,
};
use crate::common::words::{
    answers, arg_result, arg_words, data_value, data_view, lemma_data_round_trips, masked,
    words_for, zero_words, zeros, ArgError, ArgFault,
};
use crate::value::{copy_words, top_mask, word_at, word_count, Value, ValueView};
use vstd::arithmetic::power2::pow2;
use vstd::prelude::*;

verus! {

/// What a [`Memory`] holds.
#[verifier::ext_equal]
pub ghost struct MemoryView {
    /// The data width of the bus.
    pub width: u32,
    /// The size in bytes; no size means no end.
    pub size: Option<u64>,
    /// The words written, by aligned address.
    pub words: Map<u64, Seq<u64>>,
    /// The injected responses, by aligned address.
    pub errors: Map<u64, u64>,
}

impl MemoryView {
    /// Every word is as wide as the bus.
    pub open spec fn wf(self) -> bool {
        forall|k: u64| #[trigger]
            self.words.contains_key(k) ==> self.words[k].len() == word_count(self.width)
    }

    /// No word has a bit above the width of the bus.
    pub open spec fn clean(self) -> bool {
        forall|k: u64| #[trigger]
            self.words.contains_key(k) ==> masked(self.words[k], self.width) == self.words[k]
    }

    /// A memory that was never written.
    pub open spec fn empty(width: u32, size: Option<u64>) -> MemoryView {
        MemoryView { width, size, words: Map::empty(), errors: Map::empty() }
    }

    /// The aligned address of the word that holds `addr`.
    pub open spec fn key(self, addr: u64) -> u64 {
        aligned(addr, lane_count(self.width))
    }

    /// The word that holds `addr`; zero where none was written.
    pub open spec fn at(self, addr: u64) -> Seq<u64> {
        if self.words.contains_key(self.key(addr)) {
            self.words[self.key(addr)]
        } else {
            zeros(word_count(self.width))
        }
    }

    /// The response to an access: DECERR at or above the size, else one
    /// injected for its word, else OKAY.
    pub open spec fn response(self, addr: u64) -> u64 {
        let k = self.key(addr);
        if self.size matches Some(s) && addr >= s {
            DECERR
        } else if self.errors.contains_key(k) {
            self.errors[k]
        } else {
            OKAY
        }
    }

    /// With the word that holds `addr` replaced.
    pub open spec fn stored(self, addr: u64, word: Seq<u64>) -> MemoryView {
        MemoryView { words: self.words.insert(self.key(addr), word), ..self }
    }

    /// After a strobed write.
    pub open spec fn written(self, addr: u64, data: Seq<u64>, strb: Seq<u64>) -> MemoryView {
        self.stored(addr, merged(self.at(addr), data, strb, lane_count(self.width) as nat))
    }

    /// With a response injected, or, for OKAY, none.
    pub open spec fn answering(self, addr: u64, code: u64) -> MemoryView {
        MemoryView {
            errors: if code == OKAY {
                self.errors.remove(self.key(addr))
            } else {
                self.errors.insert(self.key(addr), code)
            },
            ..self
        }
    }

    /// The address of word `n` from `base` on.
    pub open spec fn nth_addr(self, base: u64, n: int) -> int {
        self.key(base) + n * lane_count(self.width)
    }

    /// Whether the addresses of `count` words from `base` on fit in 64 bits.
    pub open spec fn fill_fits(self, base: u64, count: u64) -> bool {
        count > 0 ==> self.nth_addr(base, count - 1) <= u64::MAX
    }

    /// With `n` words from `base` on set to their own addresses.
    pub open spec fn filled(self, base: u64, n: nat) -> MemoryView
        decreases n,
    {
        if n == 0 {
            self
        } else {
            let s = self.filled(base, (n - 1) as nat);
            let addr = self.nth_addr(base, n - 1) as u64;
            MemoryView { words: s.words.insert(addr, scalar(addr, self.width)), ..s }
        }
    }
}

/// A sparse memory behind a bus.
pub struct Memory {
    width: u32,
    size: Option<u64>,
    words: Table<Vec<u64>>,
    errors: Table<u64>,
}

impl View for Memory {
    type V = MemoryView;

    closed spec fn view(&self) -> MemoryView {
        MemoryView {
            width: self.width,
            size: self.size,
            words: self.words@,
            errors: self.errors@,
        }
    }
}

impl Memory {
    /// A memory that was never written.
    pub fn new(width: u32, size: Option<u64>) -> (r: Memory)
        ensures
            r@ == MemoryView::empty(width, size),
            r@.wf(),
    {
        Memory { width, size, words: Table::new(), errors: Table::new() }
    }

    /// The data width of the bus.
    pub fn width(&self) -> (r: u32)
        ensures
            r == self@.width,
    {
        self.width
    }

    /// The aligned address of the word that holds `addr`.
    pub fn key(&self, addr: u64) -> (r: u64)
        ensures
            r == self@.key(addr),
    {
        align(addr, bytes_for(self.width))
    }

    /// The word that holds `addr`.
    pub fn read_mem(&self, addr: u64) -> (r: Vec<u64>)
        ensures
            r@ == self@.at(addr),
    {
        match self.words.get(self.key(addr)) {
            Some(w) => copy_words(w),
            None => zero_words(words_for(self.width)),
        }
    }

    /// The response to an access.
    pub fn resp_for(&self, addr: u64) -> (r: u64)
        ensures
            r == self@.response(addr),
    {
        if let Some(s) = self.size {
            if addr >= s {
                return DECERR;
            }
        }
        match self.errors.get(self.key(addr)) {
            Some(code) => *code,
            None => OKAY,
        }
    }

    /// Writes the strobed bytes.
    pub fn write_mem(&mut self, addr: u64, data: &Vec<u64>, strb: &Vec<u64>)
        requires
            old(self)@.wf(),
        ensures
            final(self)@ == old(self)@.written(addr, data@, strb@),
            final(self)@.wf(),
    {
        let ghost s = self@;
        let key: u64 = self.key(addr);
        let mut word: Vec<u64> = self.read_mem(addr);
        proof {
            lemma_lanes_fit(self.width);
            lemma_merged_len(s.at(addr), data@, strb@, lane_count(s.width) as nat);
        }
        merge_lanes(&mut word, data, strb, bytes_for(self.width));
        let _ = self.words.insert(key, word);
    }

    /// Replaces the word that holds `addr`, where `data` fits the bus.
    pub fn poke(&mut self, addr: u64, data: &Value) -> (r: Result<(), ArgError>)
        requires
            old(self)@.wf(),
        ensures
            final(self)@.wf(),
            match r {
                Ok(_) => arg_result(data@, old(self)@.width) is Ok && final(self)@
                    == old(self)@.stored(addr, arg_result(data@, old(self)@.width)->Ok_0),
                Err(e) => final(self)@ == old(self)@ && answers(
                    Err(e),
                    data@,
                    old(self)@.width,
                    "poke data"@,
                ),
            },
    {
        let key: u64 = self.key(addr);
        match arg_words(data, self.width, "poke data") {
            Ok(words) => {
                let _ = self.words.insert(key, words);
                Ok(())
            },
            Err(e) => Err(e),
        }
    }

    /// Replaces the word that holds `addr` by one with `low` in its low 64
    /// bits.
    pub fn poke_scalar(&mut self, addr: u64, low: u64)
        requires
            old(self)@.wf(),
        ensures
            final(self)@.wf(),
            final(self)@ == old(self)@.stored(addr, scalar(low, old(self)@.width)),
    {
        let key: u64 = self.key(addr);
        let _ = self.words.insert(key, scalar_words(low, self.width));
    }

    /// The word that holds `addr`, at full bus width.
    pub fn peek(&self, addr: u64) -> (r: Value)
        ensures
            r@ == data_view(self@.at(addr), self@.width),
    {
        data_value(&self.read_mem(addr), self.width)
    }

    /// Makes accesses to the word that holds `addr` answer `code`; OKAY takes
    /// an injected response away.
    pub fn set_resp(&mut self, addr: u64, code: u64)
        requires
            old(self)@.wf(),
        ensures
            final(self)@ == old(self)@.answering(addr, code),
            final(self)@.wf(),
    {
        let key: u64 = self.key(addr);
        if code == OKAY {
            let _ = self.errors.remove(key);
        } else {
            let _ = self.errors.insert(key, code);
        }
        assert(self@.words == old(self)@.words);
    }

    /// Whether the addresses of `count` words from `base` on fit in 64 bits.
    pub fn fill_in_range(&self, base: u64, count: u64) -> (r: bool)
        ensures
            r == self@.fill_fits(base, count),
    {
        if count == 0 {
            return true;
        }
        let bytes: u64 = bytes_for(self.width);
        assert((count - 1) * bytes >= 0) by (nonlinear_arith)
            requires
                count > 0,
        ;
        match (count - 1).checked_mul(bytes) {
            Some(step) => self.key(base).checked_add(step).is_some(),
            None => false,
        }
    }

    /// Sets `count` consecutive words from `base` on to their own addresses.
    pub fn fill(&mut self, base: u64, count: u64)
        requires
            old(self)@.wf(),
            old(self)@.fill_fits(base, count),
        ensures
            final(self)@ == old(self)@.filled(base, count as nat),
            final(self)@.wf(),
            final(self)@.width == old(self)@.width,
    {
        let bytes: u64 = bytes_for(self.width);
        let first: u64 = self.key(base);
        let mut n: u64 = 0;
        while n < count
            invariant
                n <= count,
                bytes == lane_count(old(self)@.width),
                first == old(self)@.key(base),
                old(self)@.fill_fits(base, count),
                self@.wf(),
                self@.width == old(self)@.width,
                self@ == old(self)@.filled(base, n as nat),
            decreases count - n,
        {
            assert(0 <= n * bytes <= (count - 1) * bytes) by (nonlinear_arith)
                requires
                    0 <= n <= count - 1,
                    bytes >= 0,
            ;
            let addr: u64 = first + n * bytes;
            let _ = self.words.insert(addr, scalar_words(addr, self.width));
            n = n + 1;
        }
    }

    /// The low 64 bits of the word at an aligned address that was written.
    pub fn low_word(&self, key: u64) -> (r: u64)
        requires
            self@.words.contains_key(key),
        ensures
            r == word_at(self@.words[key], 0),
    {
        match self.words.get(key) {
            Some(w) => nth_word(w, 0),
            None => 0,
        }
    }

    /// The aligned addresses of the words written, in increasing order.
    pub fn keys(&self) -> (r: Vec<u64>)
        ensures
            crate::collections::lists_keys(r@, self@.words),
    {
        self.words.sorted_keys()
    }
}

/// Two addresses of different words.
pub open spec fn apart(m: MemoryView, a: u64, b: u64) -> bool {
    m.key(a) != m.key(b)
}

/// A write changes the strobed bytes of its own word to those of the data and
/// nothing else: not another byte, not another word, not a response.
pub proof fn lemma_write_is_per_byte(
    m: MemoryView,
    addr: u64,
    data: Seq<u64>,
    strb: Seq<u64>,
    other: u64,
    i: int,
)
    requires
        m.wf(),
        0 <= i < 8 * word_count(m.width),
    ensures
        ({
            let t = m.written(addr, data, strb);
            &&& byte_at(t.at(addr), i) == byte_at(
                if i < lane_count(m.width) && strobed(strb, i) {
                    data
                } else {
                    m.at(addr)
                },
                i,
            )
            &&& apart(m, addr, other) ==> t.at(other) == m.at(other)
            &&& t.response(other) == m.response(other)
        }),
{
    lemma_lanes_fit(m.width);
    lemma_merge_is_per_byte(m.at(addr), data, strb, lane_count(m.width) as nat, i);
}

proof fn lemma_clean_at(m: MemoryView, addr: u64)
    requires
        m.clean(),
    ensures
        masked(m.at(addr), m.width) == m.at(addr),
{
    let t = top_mask(m.width);
    assert(0u64 & t == 0) by (bit_vector);
    let z = zeros(word_count(m.width));
    assert(masked(z, m.width) =~= z);
}

/// On a bus of whole bytes, no write, poke or load sets a bit above the width
/// of the bus.
pub proof fn lemma_memory_stays_clean(
    m: MemoryView,
    addr: u64,
    data: Seq<u64>,
    strb: Seq<u64>,
    v: ValueView,
    low: u64,
)
    requires
        m.width > 0,
        m.width % 8 == 0,
        m.wf(),
        m.clean(),
    ensures
        m.written(addr, data, strb).clean(),
        arg_result(v, m.width) is Ok ==> m.stored(addr, arg_result(v, m.width)->Ok_0).clean(),
        m.stored(addr, scalar(low, m.width)).clean(),
{
    lemma_clean_at(m, addr);
    lemma_merge_stays_masked(m.at(addr), data, strb, m.width, lane_count(m.width) as nat);
    let t = top_mask(m.width);
    let z = zeros(word_count(m.width)).update(0, low);
    let w = z.last();
    assert((w & t) & t == w & t) by (bit_vector);
    assert(masked(masked(z, m.width), m.width) =~= masked(z, m.width));
}

/// On a bus of whole bytes, a read gives back what a write with every lane
/// active wrote.
pub proof fn lemma_read_gives_back_write(m: MemoryView, addr: u64, data: Seq<u64>, near: u64)
    requires
        m.wf(),
        m.width > 0,
        m.width % 8 == 0,
        data.len() == word_count(m.width),
        masked(data, m.width) == data,
        m.clean(),
        m.key(near) == m.key(addr),
    ensures
        m.written(addr, data, full_strobe(m.width)).at(near) == data,
{
    lemma_clean_at(m, addr);
    lemma_full_write_replaces(m.at(addr), data, m.width);
}

/// A peek gives back what a poke put there, at any address of the same word.
pub proof fn lemma_peek_gives_back_poke(m: MemoryView, addr: u64, near: u64, v: ValueView)
    requires
        m.width > 0,
        m.key(near) == m.key(addr),
        arg_result(v, m.width) is Ok,
    ensures
        ({
            let words = arg_result(v, m.width)->Ok_0;
            let t = m.stored(addr, words);
            &&& t.at(near) == words
            &&& arg_result(data_view(t.at(near), m.width), m.width) == Ok::<Seq<u64>, ArgFault>(
                words,
            )
        }),
{
    let words = arg_result(v, m.width)->Ok_0;
    lemma_data_round_trips(words, m.width);
}

/// An injected response answers every access to its word below the size, and
/// injecting OKAY takes it away. At or above the size every access answers
/// DECERR.
pub proof fn lemma_injected_response_answers(m: MemoryView, addr: u64, near: u64, code: u64)
    requires
        m.key(near) == m.key(addr),
    ensures
        ({
            let t = m.answering(addr, code);
            let past_end = m.size matches Some(s) && near >= s;
            &&& t.response(near) == (if past_end {
                DECERR
            } else {
                code
            })
            &&& t.answering(addr, OKAY).response(near) == (if past_end {
                DECERR
            } else {
                OKAY
            })
            &&& t.words == m.words
        }),
{
}

/// A filled word holds its own address, on a bus with a power of two of byte
/// lanes.
pub proof fn lemma_fill_is_predictable(m: MemoryView, base: u64, count: u64, n: u64, lanes_log: nat)
    requires
        m.fill_fits(base, count),
        n < count,
        lanes_log < 64,
        lane_count(m.width) == pow2(lanes_log),
    ensures
        ({
            let addr = m.nth_addr(base, n as int) as u64;
            m.filled(base, count as nat).at(addr) == scalar(addr, m.width)
        }),
{
    let addr = m.nth_addr(base, n as int) as u64;
    let bytes = lane_count(m.width);
    assert(0 <= n * bytes <= (count - 1) * bytes) by (nonlinear_arith)
        requires
            0 <= n <= count - 1,
            bytes >= 0,
    ;
    lemma_aligned_is_rounding(base, bytes, lanes_log);
    lemma_aligned_is_rounding(addr, bytes, lanes_log);
    let k = m.key(base) as int;
    vstd::arithmetic::div_mod::lemma_mod_multiples_vanish(n as int, k, bytes as int);
    assert(bytes as int * n as int == n * bytes) by (nonlinear_arith);
    assert(m.key(addr) == addr);
    lemma_filled_at(m, base, count as nat, count, n);
    lemma_filled_keeps_width(m, base, count as nat);
}

proof fn lemma_filled_keeps_width(m: MemoryView, base: u64, n: nat)
    ensures
        m.filled(base, n).width == m.width,
    decreases n,
{
    if n > 0 {
        lemma_filled_keeps_width(m, base, (n - 1) as nat);
    }
}

proof fn lemma_filled_at(m: MemoryView, base: u64, k: nat, count: u64, n: u64)
    requires
        m.fill_fits(base, count),
        n < k <= count,
    ensures
        ({
            let addr = m.nth_addr(base, n as int) as u64;
            &&& m.filled(base, k).words.contains_key(addr)
            &&& m.filled(base, k).words[addr] == scalar(addr, m.width)
        }),
    decreases k,
{
    let addr = m.nth_addr(base, n as int) as u64;
    let last = m.nth_addr(base, k - 1) as u64;
    if last != addr {
        lemma_filled_at(m, base, (k - 1) as nat, count, n);
    }
}

} // verus!
