//! Bus data as LSB-first word vectors, so that any bus width works.

use crate::text::{dec, push_dec};
use crate::value::{copy_words, resized, same_words, some_bit, top_mask, word_at, word_count};
use crate::value::{Value, ValueView};
use vstd::prelude::*;
use vstd::string::*;

verus! {

/// `n` zero words.
pub open spec fn zeros(n: nat) -> Seq<u64> {
    Seq::new(n, |i: int| 0u64)
}

/// `words` cut or zero-extended to `n` words.
pub open spec fn extended(words: Seq<u64>, n: nat) -> Seq<u64> {
    Seq::new(n, |i: int| word_at(words, i))
}

/// `words` with the bits above `width` in the top word cleared.
pub open spec fn masked(words: Seq<u64>, width: u32) -> Seq<u64> {
    if width % 64 != 0 && words.len() > 0 {
        words.update(words.len() - 1, words.last() & top_mask(width))
    } else {
        words
    }
}

/// Whether the set bits of `words` fit a `width`-bit bus.
pub open spec fn fits(words: Seq<u64>, width: u32) -> bool {
    let kept = extended(words, word_count(width));
    &&& forall|i: int| word_count(width) <= i < words.len() ==> words[i] == 0
    &&& masked(kept, width) == kept
}

/// The words of a bits value; none for another value.
pub open spec fn words_of(v: ValueView) -> Seq<u64> {
    match v {
        ValueView::Bits { words, .. } => words,
        _ => seq![],
    }
}

/// The OR of all words.
pub open spec fn or_all(words: Seq<u64>) -> u64
    decreases words.len(),
{
    if words.len() == 0 {
        0
    } else {
        or_all(words.drop_last()) | words.last()
    }
}

/// Bit `n` of a word vector.
pub open spec fn bit(words: Seq<u64>, n: int) -> bool {
    (word_at(words, n / 64) >> ((n % 64) as u64)) & 1 != 0
}

/// Why a data argument was refused.
#[derive(Clone, Copy, Debug, PartialEq, Eq, Structural)]
pub enum ArgFault {
    Unknown,
    NotBits,
    DoesNotFit,
}

/// A refused data argument: the reason, what the argument is for, and the
/// width it has to fit.
#[derive(Clone, Copy, Debug, PartialEq, Eq)]
pub struct ArgError {
    pub fault: ArgFault,
    pub what: &'static str,
    pub width: u32,
}

/// The bus words of a data argument, or why it is refused.
pub open spec fn arg_result(v: ValueView, width: u32) -> Result<Seq<u64>, ArgFault> {
    match v {
        ValueView::Bits { words, mask_xz, .. } => if some_bit(mask_xz) {
            Err(ArgFault::Unknown)
        } else if !fits(words, width) {
            Err(ArgFault::DoesNotFit)
        } else {
            Ok(extended(words, word_count(width)))
        },
        _ => Err(ArgFault::NotBits),
    }
}

/// Whether `r` is what [`arg_words`] owes for `v`.
pub open spec fn answers(
    r: Result<Vec<u64>, ArgError>,
    v: ValueView,
    width: u32,
    what: Seq<char>,
) -> bool {
    match r {
        Ok(words) => arg_result(v, width) == Ok::<Seq<u64>, ArgFault>(words@),
        Err(e) => arg_result(v, width) == Err::<Seq<u64>, ArgFault>(e.fault) && e.what@ == what
            && e.width == width,
    }
}

impl ArgError {
    /// The text of the refusal.
    pub open spec fn text(self) -> Seq<char> {
        match self.fault {
            ArgFault::Unknown => self.what@ + " contains X/Z bits"@,
            ArgFault::NotBits => self.what@ + " is not a bit value"@,
            ArgFault::DoesNotFit => self.what@ + " does not fit the "@ + dec(self.width as u64)
                + "-bit bus"@,
        }
    }

    /// The refusal in words.
    pub fn message(&self) -> (r: String)
        ensures
            r@ == self.text(),
    {
        let mut r = String::new();
        r.append(self.what);
        match self.fault {
            ArgFault::Unknown => r.append(" contains X/Z bits"),
            ArgFault::NotBits => r.append(" is not a bit value"),
            ArgFault::DoesNotFit => {
                r.append(" does not fit the ");
                push_dec(&mut r, self.width as u64);
                r.append("-bit bus");
            },
        }
        assert(r@ =~= self.text());
        r
    }
}

/// The number of 64-bit words that span `width` bits.
pub fn words_for(width: u32) -> (r: usize)
    ensures
        r == word_count(width),
        1 <= r <= width + 1,
{
    if width == 0 {
        1
    } else {
        ((width - 1) / 64 + 1) as usize
    }
}

/// `n` zero words.
pub fn zero_words(n: usize) -> (r: Vec<u64>)
    ensures
        r@ == zeros(n as nat),
{
    let r = vec![0u64; n];
    assert(r@ =~= zeros(n as nat));
    r
}

/// Clears the bits above `width` in the top word.
pub fn mask_words(words: &mut Vec<u64>, width: u32)
    ensures
        final(words)@ == masked(old(words)@, width),
{
    let rem: u32 = width % 64;
    let n: usize = words.len();
    if rem != 0 && n > 0 {
        let top: u64 = words[n - 1] & (u64::MAX >> ((64 - rem) as u64));
        words.set(n - 1, top);
    }
}

/// True when some bit of a signal is set.
pub fn is_set(v: &Value) -> (r: bool)
    ensures
        r == v@.truth(),
{
    v.as_bool()
}

/// True when a signal reads as a definite logic 1, so not where it is X or Z.
pub fn high(v: &Value) -> (r: bool)
    ensures
        r == v@.high(),
{
    v.as_bool() && !v.has_unknown()
}

/// The number a value holds, or zero where it holds none.
pub fn number(v: &Value) -> (r: u64)
    ensures
        r == v@.number_or_zero(),
{
    match v.as_u64() {
        Some(n) => n,
        None => 0,
    }
}

/// A full-width data argument as bus words: the value's own words
/// zero-extended to `width`. Refuses X/Z bits, values that are not bits, and
/// values whose set bits do not fit the bus.
pub fn arg_words(v: &Value, width: u32, what: &'static str) -> (r: Result<Vec<u64>, ArgError>)
    ensures
        answers(r, v@, width, what@),
{
    if v.has_unknown() {
        return Err(ArgError { fault: ArgFault::Unknown, what, width });
    }
    match v {
        Value::Bits { words, .. } => {
            let n: usize = words_for(width);
            let mut out: Vec<u64> = zero_words(n);
            let mut i: usize = 0;
            while i < words.len()
                invariant
                    i <= words.len(),
                    n == word_count(width),
                    out.len() == n,
                    forall|j: int| 0 <= j < n ==> out[j] == (if j < i {
                        word_at(words@, j)
                    } else {
                        0
                    }),
                    forall|j: int| n <= j < i ==> words[j] == 0,
                    v@ matches ValueView::Bits { words: w, mask_xz, .. } && w == words@
                        && !some_bit(mask_xz),
                decreases words.len() - i,
            {
                if i < n {
                    out.set(i, words[i]);
                } else if words[i] != 0 {
                    return Err(ArgError { fault: ArgFault::DoesNotFit, what, width });
                }
                i = i + 1;
            }
            assert(out@ =~= extended(words@, word_count(width)));
            let mut cut: Vec<u64> = copy_words(&out);
            mask_words(&mut cut, width);
            if !same_words(&cut, &out) {
                return Err(ArgError { fault: ArgFault::DoesNotFit, what, width });
            }
            Ok(out)
        },
        _ => Err(ArgError { fault: ArgFault::NotBits, what, width }),
    }
}

/// What a full-width return value holds.
pub open spec fn data_view(words: Seq<u64>, width: u32) -> ValueView {
    ValueView::Bits {
        words: resized(words, width),
        mask_xz: zeros(word_count(width)),
        width,
    }
}

/// A full-width return value from bus data words.
pub fn data_value(words: &Vec<u64>, width: u32) -> (r: Value)
    ensures
        r@ == data_view(words@, width),
{
    let none: Vec<u64> = Vec::new();
    let r = Value::from_bits(words, &none, width);
    proof {
        let m = top_mask(width);
        assert(0u64 & m == 0) by (bit_vector);
        assert(resized(none@, width) =~= zeros(word_count(width)));
    }
    r
}

/// ORs the words of a value into one, so that a mask of active lanes stays
/// meaningful past 64 lanes.
pub fn fold_words(v: &Value) -> (r: u64)
    ensures
        r == or_all(words_of(v@)),
{
    match v {
        Value::Bits { words, .. } => {
            let mut acc: u64 = 0;
            let mut i: usize = 0;
            assert(words@.take(0) =~= seq![]);
            while i < words.len()
                invariant
                    i <= words.len(),
                    acc == or_all(words@.take(i as int)),
                decreases words.len() - i,
            {
                assert(words@.take(i + 1).drop_last() =~= words@.take(i as int));
                acc = acc | words[i];
                i = i + 1;
            }
            assert(words@.take(words.len() as int) =~= words@);
            acc
        },
        _ => 0,
    }
}

/// A bus word vector survives the way out to a return value and back in as
/// an argument.
pub proof fn lemma_data_round_trips(words: Seq<u64>, width: u32)
    requires
        width > 0,
        words.len() == word_count(width),
        masked(words, width) == words,
    ensures
        arg_result(data_view(words, width), width) == Ok::<Seq<u64>, ArgFault>(words),
{
    lemma_resized_when_masked(words, width);
    assert(extended(words, word_count(width)) =~= words);
    let m = zeros(word_count(width));
    assert(!some_bit(m));
}

/// A known value of the bus width survives the way in as an argument and back
/// out.
pub proof fn lemma_argument_round_trips(v: ValueView, width: u32)
    requires
        width > 0,
        v matches ValueView::Bits { words, mask_xz, width: w } && w == width && words.len()
            == word_count(width) && masked(words, width) == words && mask_xz == zeros(
            word_count(width),
        ),
    ensures
        arg_result(v, width) is Ok,
        data_view(arg_result(v, width)->Ok_0, width) == v,
{
    let words = words_of(v);
    lemma_resized_when_masked(words, width);
    assert(extended(words, word_count(width)) =~= words);
    assert(!some_bit(zeros(word_count(width))));
}

/// Words that fit the bus are kept as they are.
pub proof fn lemma_resized_when_masked(words: Seq<u64>, width: u32)
    requires
        width > 0,
        words.len() == word_count(width),
        masked(words, width) == words,
    ensures
        resized(words, width) == words,
{
    let top = words.last();
    assert(top & u64::MAX == top) by (bit_vector);
    if width % 64 != 0 {
        assert(masked(words, width).last() == top & top_mask(width));
    }
    assert(resized(words, width) =~= words);
}

/// A nonzero word has a set bit.
pub proof fn lemma_nonzero_has_a_bit(x: u64) -> (b: u64)
    requires
        x != 0,
    ensures
        b < 64,
        (x >> b) & 1 != 0,
    decreases x,
{
    if x & 1 != 0 {
        assert((x >> 0u64) & 1 == x & 1) by (bit_vector);
        0
    } else {
        assert((x >> 1u64) < x && (x >> 1u64) != 0) by (bit_vector)
            requires
                x != 0,
                x & 1 == 0,
        ;
        let c = lemma_nonzero_has_a_bit(x >> 1u64);
        assert(c < 63 && (x >> ((c + 1) as u64)) & 1 != 0) by (bit_vector)
            requires
                c < 64,
                ((x >> 1u64) >> c) & 1 != 0,
        ;
        (c + 1) as u64
    }
}

/// A value fits the bus exactly when none of its set bits lies at or above
/// the bus width.
pub proof fn lemma_fits_is_about_bits(words: Seq<u64>, width: u32)
    requires
        width > 0,
    ensures
        fits(words, width) <==> forall|n: int| n >= width ==> !bit(words, n),
{
    let count = word_count(width);
    let kept = extended(words, count);
    let top = kept.last();
    let rem = (width % 64) as u64;
    if rem != 0 {
        assert((top & (u64::MAX >> ((64 - rem) as u64)) == top) <==> (top >> rem) == 0)
            by (bit_vector)
            requires
                0 < rem < 64,
        ;
    }
    if fits(words, width) {
        assert forall|n: int| n >= width implies !bit(words, n) by {
            let i = n / 64;
            let b = (n % 64) as u64;
            let w = word_at(words, i);
            if i >= count {
                assert((0u64 >> b) & 1 == 0) by (bit_vector);
            } else {
                assert(i == count - 1 && rem != 0 && b >= rem);
                assert(masked(kept, width).last() == top & top_mask(width));
                assert((w >> b) & 1 == 0) by (bit_vector)
                    requires
                        (w >> rem) == 0,
                        rem <= b < 64,
                ;
            }
        }
    } else {
        if forall|i: int| count <= i < words.len() ==> words[i] == 0 {
            assert(rem != 0) by {
                if rem == 0 {
                    assert(masked(kept, width) == kept);
                }
            }
            assert(masked(kept, width).last() == top & top_mask(width));
            if top & top_mask(width) == top {
                assert(masked(kept, width) =~= kept);
            }
            let c = lemma_nonzero_has_a_bit(top >> rem);
            assert(rem + c < 64 && (top >> ((rem + c) as u64)) & 1 != 0) by (bit_vector)
                requires
                    0 < rem < 64,
                    c < 64,
                    ((top >> rem) >> c) & 1 != 0,
            ;
            let n = (count - 1) * 64 + rem + c;
            assert(n / 64 == count - 1 && n % 64 == rem + c);
            assert(bit(words, n));
        } else {
            let i = choose|i: int| count <= i < words.len() && words[i] != 0;
            let c = lemma_nonzero_has_a_bit(words[i]);
            let n = i * 64 + c;
            assert(n / 64 == i && n % 64 == c);
            assert(bit(words, n));
        }
    }
}

/// A bit is set in an OR exactly where it is set in one of the two.
pub proof fn lemma_or_has_bits_of_both(x: u64, y: u64, b: u64)
    requires
        b < 64,
    ensures
        (((x | y) >> b) & 1 != 0) == ((x >> b) & 1 != 0 || (y >> b) & 1 != 0),
{
    assert((((x | y) >> b) & 1 != 0) <==> ((x >> b) & 1 != 0 || (y >> b) & 1 != 0))
        by (bit_vector);
}

/// A lane is active in the fold exactly when some word has it active.
pub proof fn lemma_fold_covers_lanes(words: Seq<u64>, b: u64)
    requires
        b < 64,
    ensures
        ((or_all(words) >> b) & 1 != 0) <==> exists|i: int|
            0 <= i < words.len() && (#[trigger] words[i] >> b) & 1 != 0,
    decreases words.len(),
{
    if words.len() == 0 {
        assert((0u64 >> b) & 1 == 0) by (bit_vector);
    } else {
        let s = words.drop_last();
        lemma_fold_covers_lanes(s, b);
        let (x, y) = (or_all(s), words.last());
        lemma_or_has_bits_of_both(x, y, b);
        if (y >> b) & 1 != 0 {
            assert((words[words.len() - 1] >> b) & 1 != 0);
        }
        if (x >> b) & 1 != 0 {
            let i = choose|i: int| 0 <= i < s.len() && (#[trigger] s[i] >> b) & 1 != 0;
            assert((words[i] >> b) & 1 != 0);
        }
        if exists|i: int| 0 <= i < words.len() && (#[trigger] words[i] >> b) & 1 != 0 {
            let i = choose|i: int|
                0 <= i < words.len() && (#[trigger] words[i] >> b) & 1 != 0;
            if i < s.len() {
                assert((s[i] >> b) & 1 != 0);
            }
        }
    }
}

} // verus!
