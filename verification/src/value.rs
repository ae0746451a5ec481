//! Signal values: what a port carries and what a method takes or returns.

use vstd::prelude::*;

verus! {

/// A value that crosses the simulator boundary.
#[derive(Clone, Debug, PartialEq, Eq)]
pub enum Value {
    /// LSB-first 64-bit words holding `width` bits. A set bit of `mask_xz`
    /// marks the bit at the same place as unknown (X or Z).
    Bits { words: Vec<u64>, mask_xz: Vec<u64>, width: u32 },
    Str(String),
    Unit,
}

/// What a [`Value`] holds.
#[verifier::ext_equal]
pub ghost enum ValueView {
    Bits { words: Seq<u64>, mask_xz: Seq<u64>, width: u32 },
    Str(Seq<char>),
    Unit,
}

impl View for Value {
    type V = ValueView;

    open spec fn view(&self) -> ValueView {
        match self {
            Value::Bits { words, mask_xz, width } => ValueView::Bits {
                words: words@,
                mask_xz: mask_xz@,
                width: *width,
            },
            Value::Str(s) => ValueView::Str(s@),
            Value::Unit => ValueView::Unit,
        }
    }
}

/// Whether some word has a set bit.
pub open spec fn some_bit(words: Seq<u64>) -> bool {
    exists|i: int| 0 <= i < words.len() && words[i] != 0
}

/// The number of 64-bit words that span `width` bits, at least one.
pub open spec fn word_count(width: u32) -> nat {
    if width == 0 {
        1
    } else {
        ((width + 63) / 64) as nat
    }
}

/// The bits of the top word that a `width`-bit value uses.
pub open spec fn top_mask(width: u32) -> u64 {
    if width == 0 {
        0
    } else if width % 64 == 0 {
        u64::MAX
    } else {
        u64::MAX >> ((64 - width % 64) as u64)
    }
}

/// The word at `i`, or zero past the end.
pub open spec fn word_at(words: Seq<u64>, i: int) -> u64 {
    if 0 <= i < words.len() {
        words[i]
    } else {
        0
    }
}

/// `words` cut or zero-extended to exactly `width` bits.
pub open spec fn resized(words: Seq<u64>, width: u32) -> Seq<u64> {
    Seq::new(
        word_count(width),
        |i: int|
            if i == word_count(width) - 1 {
                word_at(words, i) & top_mask(width)
            } else {
                word_at(words, i)
            },
    )
}

impl ValueView {
    /// Whether some bit is set; a string or a unit has none.
    pub open spec fn truth(self) -> bool {
        self matches ValueView::Bits { words, .. } && some_bit(words)
    }

    /// Whether a signal reads as a definite logic 1: set, and neither X nor Z.
    pub open spec fn high(self) -> bool {
        self.truth() && !self.unknown()
    }

    /// Whether some bit is X or Z.
    pub open spec fn unknown(self) -> bool {
        self matches ValueView::Bits { mask_xz, .. } && some_bit(mask_xz)
    }

    /// The value as a number, where it is bits and at most 64 of them.
    pub open spec fn number(self) -> Option<u64> {
        match self {
            ValueView::Bits { words, width, .. } => if width > 64 {
                None
            } else {
                Some(word_at(words, 0))
            },
            _ => None,
        }
    }

    /// The number, or zero where there is none.
    pub open spec fn number_or_zero(self) -> u64 {
        match self.number() {
            Some(n) => n,
            None => 0,
        }
    }
}

impl Value {
    /// `veryl_component::Value::as_bool`: true when some word of a bits value
    /// is not zero, false for a string and for a unit.
    #[verifier::external_body]
    pub(crate) fn as_bool(&self) -> (r: bool)
        ensures
            r == self@.truth(),
    {
        let v = match self {
            Value::Bits { words, mask_xz, width } => veryl_component::Value::Bits {
                words: words.iter().copied().collect(),
                mask_xz: mask_xz.iter().copied().collect(),
                width: *width,
            },
            Value::Str(s) => veryl_component::Value::Str(s.clone()),
            Value::Unit => veryl_component::Value::Unit,
        };
        v.as_bool()
    }

    /// `veryl_component::Value::has_unknown`: true when some word of the X/Z
    /// mask of a bits value is not zero, false for a string and for a unit.
    #[verifier::external_body]
    pub(crate) fn has_unknown(&self) -> (r: bool)
        ensures
            r == self@.unknown(),
    {
        let v = match self {
            Value::Bits { words, mask_xz, width } => veryl_component::Value::Bits {
                words: words.iter().copied().collect(),
                mask_xz: mask_xz.iter().copied().collect(),
                width: *width,
            },
            Value::Str(s) => veryl_component::Value::Str(s.clone()),
            Value::Unit => veryl_component::Value::Unit,
        };
        v.has_unknown()
    }

    /// `veryl_component::Value::as_u64`, with its error dropped: the first
    /// word (zero where there is no word) of a bits value of at most 64 bits;
    /// nothing for a wider one, a string or a unit.
    #[verifier::external_body]
    pub(crate) fn as_u64(&self) -> (r: Option<u64>)
        ensures
            r == self@.number(),
    {
        let v = match self {
            Value::Bits { words, mask_xz, width } => veryl_component::Value::Bits {
                words: words.iter().copied().collect(),
                mask_xz: mask_xz.iter().copied().collect(),
                width: *width,
            },
            Value::Str(s) => veryl_component::Value::Str(s.clone()),
            Value::Unit => veryl_component::Value::Unit,
        };
        v.as_u64().ok()
    }

    /// `veryl_component::Value::from_bits`: a bits value of `width` bits with
    /// the words and the mask cut or zero-extended to that width.
    #[verifier::external_body]
    pub(crate) fn from_bits(words: &Vec<u64>, mask_xz: &Vec<u64>, width: u32) -> (r: Value)
        ensures
            r@ == (ValueView::Bits {
                words: resized(words@, width),
                mask_xz: resized(mask_xz@, width),
                width,
            }),
    {
        let w = words.iter().copied().collect();
        let m = mask_xz.iter().copied().collect();
        match veryl_component::Value::from_bits(w, m, width) {
            veryl_component::Value::Bits { words, mask_xz, width } => Value::Bits {
                words: words.to_vec(),
                mask_xz: mask_xz.to_vec(),
                width,
            },
            veryl_component::Value::Str(s) => Value::Str(s),
            veryl_component::Value::Unit => Value::Unit,
        }
    }

    /// Whether two values hold the same.
    pub fn same(&self, other: &Value) -> (r: bool)
        ensures
            r == (self@ == other@),
    {
        match (self, other) {
            (
                Value::Bits { words: w1, mask_xz: m1, width: n1 },
                Value::Bits { words: w2, mask_xz: m2, width: n2 },
            ) => *n1 == *n2 && same_words(w1, w2) && same_words(m1, m2),
            (Value::Str(a), Value::Str(b)) => *a == *b,
            (Value::Unit, Value::Unit) => true,
            _ => false,
        }
    }

    /// A copy of the value.
    pub fn copy(&self) -> (r: Value)
        ensures
            r@ == self@,
    {
        match self {
            Value::Bits { words, mask_xz, width } => Value::Bits {
                words: copy_words(words),
                mask_xz: copy_words(mask_xz),
                width: *width,
            },
            Value::Str(s) => Value::Str(s.clone()),
            Value::Unit => Value::Unit,
        }
    }
}

/// Whether two word vectors are equal.
pub fn same_words(a: &Vec<u64>, b: &Vec<u64>) -> (r: bool)
    ensures
        r == (a@ == b@),
{
    if a.len() != b.len() {
        return false;
    }
    let mut i: usize = 0;
    while i < a.len()
        invariant
            a.len() == b.len(),
            i <= a.len(),
            forall|j: int| 0 <= j < i ==> a[j] == b[j],
        decreases a.len() - i,
    {
        if a[i] != b[i] {
            return false;
        }
        i = i + 1;
    }
    assert(a@ =~= b@);
    true
}

/// A copy of a word vector.
pub fn copy_words(words: &Vec<u64>) -> (r: Vec<u64>)
    ensures
        r@ == words@,
{
    let r = words.clone();
    assert(r@ =~= words@);
    r
}

} // verus!
