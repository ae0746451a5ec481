//! What values, arguments and made-up stimulus are, bit by bit and draw by draw.

use crate::common::lanes::{lane_count, lemma_shift_is_pow2};
use crate::common::random::xorshift_nth;
use crate::common::stimulus::{
    after_data, full_strobe, lemma_full_strobe_is_full, lemma_random_strobe_lanes, placed,
    random_data, random_strobe, scalar, window,
};
use crate::common::storage::{bus_words, byte_lanes, lane_active, lemma_same_lane};
use crate::common::words::{
    answers, arg_result, data_view, extended, lemma_resized_when_masked, masked, words_of, ArgError,
    ArgFault,
};
use crate::value::{resized, some_bit, top_mask, word_count, ValueView};
use vstd::arithmetic::power2::{lemma_pow2_pos, pow2};
use vstd::bits::{lemma_u64_low_bits_mask_is_mod, low_bits_mask};
use vstd::prelude::*;

verus! {

/// Word `i`, or zero where there is none.
pub open spec fn nth(words: Seq<u64>, i: int) -> u64 {
    if i < words.len() {
        words[i]
    } else {
        0
    }
}

/// Word `i` of what a `width`-bit bus keeps of a word vector: the bits from the
/// width on are dropped.
pub open spec fn bus_word(w: u64, i: int, width: u32) -> u64 {
    if i == bus_words(width) - 1 && width % 64 != 0 {
        (w as nat % pow2((width % 64) as nat)) as u64
    } else {
        w
    }
}

/// Whether a word vector has no bit that a `width`-bit bus cannot carry.
pub open spec fn carried(words: Seq<u64>, width: u32) -> bool {
    forall|i: int|
        0 <= i < words.len() ==> {
            &&& i >= bus_words(width) ==> #[trigger] words[i] == 0
            &&& i == bus_words(width) - 1 && width % 64 != 0 ==> words[i] < pow2(
                (width % 64) as nat,
            )
        }
}

/// The top mask keeps a word modulo the power of two of the bits it has left.
pub proof fn lemma_top_mask_is_modulo(w: u64, width: u32)
    requires
        width % 64 != 0,
    ensures
        w & top_mask(width) == w as nat % pow2((width % 64) as nat),
{
    let rem = (width % 64) as u64;
    lemma_shift_is_pow2(rem);
    assert(u64::MAX >> ((64 - rem) as u64) == (1u64 << rem) - 1) by (bit_vector)
        requires
            0 < rem < 64,
    ;
    lemma_u64_low_bits_mask_is_mod(w, rem as nat);
    assert(low_bits_mask(rem as nat) == pow2(rem as nat) - 1);
}

/// A signal is set where some word of its bits is not zero, unknown where some word
/// of its X/Z mask is not, and high where it is set and not unknown. A string and a
/// unit are none of these.
pub proof fn lemma_signal_reads(v: ValueView)
    ensures
        match v {
            ValueView::Bits { words, mask_xz, .. } => {
                &&& v.truth() <==> exists|i: int| 0 <= i < words.len() && #[trigger] words[i] != 0
                &&& v.unknown() <==> exists|i: int|
                    0 <= i < mask_xz.len() && #[trigger] mask_xz[i] != 0
                &&& v.high() <==> v.truth() && !v.unknown()
            },
            _ => !v.truth() && !v.unknown() && !v.high(),
        },
{
}

/// A value of at most 64 bits is the number of its first word, and zero without one.
/// A wider one, a string and a unit are no number and count as zero.
pub proof fn lemma_number_reads(v: ValueView)
    ensures
        match v {
            ValueView::Bits { words, width, .. } => if width <= 64 {
                v.number() == Some(nth(words, 0)) && v.number_or_zero() == nth(words, 0)
            } else {
                v.number() is None && v.number_or_zero() == 0
            },
            _ => v.number() is None && v.number_or_zero() == 0,
        },
{
}

/// A data argument is taken exactly where it is bits, none of them X or Z and none of
/// them set beyond the bus, and is then its own words, as many as the bus has. A
/// value with an X or a Z is refused as unknown, one with a set bit beyond the bus as
/// not fitting, and a string or a unit as no bits.
pub proof fn lemma_arguments_are_taken(v: ValueView, width: u32)
    ensures
        match v {
            ValueView::Bits { words, mask_xz, .. } => match arg_result(v, width) {
                Ok(data) => {
                    &&& forall|i: int| 0 <= i < mask_xz.len() ==> #[trigger] mask_xz[i] == 0
                    &&& carried(words, width)
                    &&& data.len() == bus_words(width)
                    &&& forall|i: int|
                        0 <= i < bus_words(width) ==> #[trigger] data[i] == nth(words, i)
                },
                Err(ArgFault::Unknown) => exists|i: int|
                    0 <= i < mask_xz.len() && #[trigger] mask_xz[i] != 0,
                Err(ArgFault::DoesNotFit) => !carried(words, width) && forall|i: int|
                    0 <= i < mask_xz.len() ==> #[trigger] mask_xz[i] == 0,
                Err(ArgFault::NotBits) => false,
            },
            _ => arg_result(v, width) == Err::<Seq<u64>, ArgFault>(ArgFault::NotBits),
        },
{
    if let ValueView::Bits { words, mask_xz, .. } = v {
        let n = word_count(width);
        let kept = extended(words, n);
        if width % 64 != 0 {
            lemma_top_mask_is_modulo(kept.last(), width);
            let p = pow2((width % 64) as nat);
            lemma_pow2_pos((width % 64) as nat);
            let w = kept.last() as nat;
            if w < p {
                vstd::arithmetic::div_mod::lemma_small_mod(w, p);
            }
            assert(w % p < p);
            assert(masked(kept, width).last() == kept.last() & top_mask(width));
            if kept.last() & top_mask(width) == kept.last() {
                assert(masked(kept, width) =~= kept);
            }
        }
        if carried(words, width) {
            if width % 64 != 0 && n <= words.len() {
                assert(words[n - 1] < pow2((width % 64) as nat));
            }
        }
    }
}

/// A value handed out has the words of the bus with the bits from its width on
/// dropped, and no X or Z.
pub proof fn lemma_data_is_handed_out(words: Seq<u64>, width: u32, i: int)
    requires
        width > 0,
        0 <= i < bus_words(width),
    ensures
        data_view(words, width) matches ValueView::Bits { words: out, mask_xz, width: w } && w
            == width && out.len() == bus_words(width) && out[i] == bus_word(
            nth(words, i),
            i,
            width,
        ) && !some_bit(mask_xz),
{
    if width % 64 != 0 {
        lemma_top_mask_is_modulo(nth(words, i), width);
    } else {
        let kept = extended(words, word_count(width));
        lemma_resized_when_masked(kept, width);
        assert(resized(words, width) =~= resized(kept, width));
    }
}

/// Words are cut or zero-extended to the length asked for.
pub proof fn lemma_extension_keeps_words(words: Seq<u64>, n: nat, i: int)
    requires
        0 <= i < n,
    ensures
        extended(words, n).len() == n,
        extended(words, n)[i] == nth(words, i),
{
}

/// The words of a value are those of its bits; another value has none.
pub proof fn lemma_words_are_the_bits(v: ValueView)
    ensures
        match v {
            ValueView::Bits { words, .. } => words_of(v) == words,
            _ => words_of(v).len() == 0,
        },
{
}

/// A window of `bits` address bits has `2^bits` bytes, by the low 32 bits of the
/// number, and from 64 bits on as many as a number holds.
pub proof fn lemma_window_is_a_power(bits: u64)
    ensures
        bits % 0x1_0000_0000 < 64 ==> window(bits) == pow2((bits % 0x1_0000_0000) as nat),
        bits % 0x1_0000_0000 >= 64 ==> window(bits) == u64::MAX,
        window(bits) > 0,
{
    let n = bits % 0x1_0000_0000;
    if n < 64 {
        lemma_shift_is_pow2(n);
    }
}

/// A made-up address is the number drawn, modulo the window, with the low bits of a
/// word cleared.
pub proof fn lemma_placed_is_drawn(x: u64, span: u64, bytes: u64)
    ensures
        placed(x, span, bytes) == (x % span) & !((bytes - 1) as u64),
{
}

/// Made-up data is one draw for each word of the bus, in order, with the bits from
/// its width on dropped.
pub proof fn lemma_data_is_drawn(x: u64, width: u32, i: int)
    requires
        0 <= i < bus_words(width),
    ensures
        random_data(x, width).len() == bus_words(width),
        random_data(x, width)[i] == bus_word(xorshift_nth(x, (i + 1) as nat), i, width),
        after_data(x, width) == xorshift_nth(x, bus_words(width)),
{
    if width % 64 != 0 {
        lemma_top_mask_is_modulo(xorshift_nth(x, (i + 1) as nat), width);
    }
}

/// A made-up strobe is one draw for each lane of the bus, in order: the lane is
/// active where the draw is odd.
pub proof fn lemma_strobe_is_drawn(x: u64, width: u32, i: int)
    requires
        0 <= i,
    ensures
        ({
            let strb = random_strobe(
                x,
                word_count(lane_count(width) as u32),
                lane_count(width) as nat,
            );
            lane_active(strb, i) <==> i < byte_lanes(width) && xorshift_nth(x, (i + 1) as nat) % 2
                == 1
        }),
{
    let words = word_count(lane_count(width) as u32);
    let n = lane_count(width) as nat;
    let strb = random_strobe(x, words, n);
    let w = xorshift_nth(x, (i + 1) as nat);
    lemma_u64_low_bits_mask_is_mod(w, 1);
    vstd::bits::lemma_low_bits_mask_values();
    vstd::arithmetic::power2::lemma2_to64();
    lemma_random_strobe_lanes(x, words, n, 0);
    if i < 64 * words {
        lemma_random_strobe_lanes(x, words, n, i);
        lemma_same_lane(strb, i);
    }
}

/// A full strobe has every lane of the bus active, and no other.
pub proof fn lemma_full_strobe_has_every_lane(width: u32, i: int)
    requires
        0 <= i,
    ensures
        lane_active(full_strobe(width), i) <==> i < byte_lanes(width),
{
    if i < 64 * word_count(lane_count(width) as u32) {
        lemma_full_strobe_is_full(width, i);
        lemma_same_lane(full_strobe(width), i);
    }
}

/// A number as a word of the bus: its bits below the width in the first word.
pub proof fn lemma_scalar_is_kept(v: u64, width: u32, i: int)
    requires
        0 <= i < bus_words(width),
    ensures
        scalar(v, width).len() == bus_words(width),
        scalar(v, width)[i] == (if i == 0 {
            bus_word(v, 0, width)
        } else {
            0
        }),
{
    if width % 64 != 0 {
        lemma_top_mask_is_modulo(v, width);
        lemma_top_mask_is_modulo(0, width);
        lemma_pow2_pos((width % 64) as nat);
        vstd::arithmetic::div_mod::lemma_small_mod(0, pow2((width % 64) as nat));
    }
}

/// An argument is answered with its data where it is taken, and else with the reason,
/// what it is for and the width it has to fit.
pub proof fn lemma_arguments_are_answered(
    r: Result<Vec<u64>, ArgError>,
    v: ValueView,
    width: u32,
    what: Seq<char>,
)
    requires
        answers(r, v, width, what),
    ensures
        match (r, arg_result(v, width)) {
            (Ok(words), Ok(data)) => words@ == data,
            (Err(e), Err(fault)) => e.fault == fault && e.what@ == what && e.width == width,
            _ => false,
        },
{
}

} // verus!
