//! How a memory image is read: line by line, field by field, digit by digit.

use crate::axi4_lite::hex::{
    all_digits, digit_value, dumped, field_end, field_start, first_bad, hex_nat, hex_number,
    is_space, lemma_line_end, line_end, loaded, said, Line,
};
use crate::common::memory::MemoryView;
use crate::common::stimulus::scalar;
use crate::text::hex;
use vstd::arithmetic::power::{lemma_pow0, lemma_pow1, lemma_pow_adds, pow};
use vstd::prelude::*;

verus! {

/// The value of a hexadecimal digit.
pub open spec fn digit_of(c: char) -> int {
    match c {
        '0' => 0,
        '1' => 1,
        '2' => 2,
        '3' => 3,
        '4' => 4,
        '5' => 5,
        '6' => 6,
        '7' => 7,
        '8' => 8,
        '9' => 9,
        'a' => 10,
        'A' => 10,
        'b' => 11,
        'B' => 11,
        'c' => 12,
        'C' => 12,
        'd' => 13,
        'D' => 13,
        'e' => 14,
        'E' => 14,
        'f' => 15,
        'F' => 15,
        _ => -1,
    }
}

/// The number that digits stand for: each counts sixteen to the power of the digits
/// behind it.
pub open spec fn places(s: Seq<char>) -> int
    decreases s.len(),
{
    if s.len() == 0 {
        0
    } else {
        digit_of(s[0]) * pow(16, (s.len() - 1) as nat) + places(s.drop_first())
    }
}

/// Whether `a..b` is the first field of `s` from `i` on: spaces up to `a`, none up to
/// `b`, and then the end or another.
pub open spec fn is_field(s: Seq<char>, i: int, a: int, b: int) -> bool {
    &&& i <= a <= b <= s.len()
    &&& forall|j: int| i <= j < a ==> is_space(#[trigger] s[j])
    &&& forall|j: int| a <= j < b ==> !is_space(#[trigger] s[j])
    &&& b < s.len() ==> is_space(s[b])
    &&& a == b ==> a == s.len()
}

/// The white space that separates fields, character by character. No visible ASCII
/// character is any.
pub proof fn lemma_spaces(c: char)
    ensures
        is_space(c) <==> {
            ||| c == ' ' || c == '\t' || c == '\n' || c == '\u{b}' || c == '\u{c}' || c == '\r'
            ||| c == '\u{85}' || c == '\u{a0}' || c == '\u{1680}' || '\u{2000}' <= c <= '\u{200a}'
            ||| c == '\u{2028}' || c == '\u{2029}' || c == '\u{202f}' || c == '\u{205f}'
            ||| c == '\u{3000}'
        },
        '!' <= c <= '~' ==> !is_space(c),
{
}

/// The value of a digit, and of nothing else.
pub proof fn lemma_digits(c: char)
    ensures
        digit_value(c) is Some <==> digit_of(c) >= 0,
        digit_value(c) is Some ==> digit_value(c)->0 == digit_of(c),
{
}

/// Digits stand for the number of their places.
pub proof fn lemma_places(s: Seq<char>)
    requires
        all_digits(s),
    ensures
        hex_nat(s) == places(s),
    decreases s.len(),
{
    if s.len() > 0 {
        let rest = s.drop_last();
        assert forall|i: int| 0 <= i < rest.len() implies digit_value(#[trigger] rest[i]) is Some by {
            assert(rest[i] == s[i]);
        }
        lemma_places(rest);
        lemma_last_place(s);
        lemma_digits(s.last());
        assert(digit_value(s[s.len() - 1]) is Some);
    }
}

proof fn lemma_last_place(s: Seq<char>)
    requires
        s.len() > 0,
    ensures
        places(s) == 16 * places(s.drop_last()) + digit_of(s.last()),
    decreases s.len(),
{
    if s.len() == 1 {
        lemma_pow0(16);
        assert(places(s.drop_first()) == 0);
        assert(places(s.drop_last()) == 0);
        assert(digit_of(s[0]) * 1 == digit_of(s[0]));
    } else {
        let tail = s.drop_first();
        lemma_last_place(tail);
        assert(tail.drop_last() =~= s.drop_last().drop_first());
        assert(tail.last() == s.last());
        let n = (s.len() - 2) as nat;
        lemma_pow_adds(16, n, 1);
        lemma_pow1(16);
        let d = digit_of(s[0]);
        let p = pow(16, n);
        assert(d * (p * 16) == 16 * (d * p)) by (nonlinear_arith);
        assert(s.drop_last()[0] == s[0]);
    }
}

/// A field without the plus sign that it may start with.
pub open spec fn unsigned(field: Seq<char>) -> Seq<char> {
    if field.len() > 0 && field[0] == '+' {
        field.drop_first()
    } else {
        field
    }
}

/// Whether there are digits and nothing else.
pub open spec fn only_digits(s: Seq<char>) -> bool {
    s.len() > 0 && forall|i: int| 0 <= i < s.len() ==> digit_of(#[trigger] s[i]) >= 0
}

/// A field stands for a number exactly where it is digits, with or without one plus
/// sign in front, and their number fits in 64 bits.
pub proof fn lemma_field_stands_for_number(field: Seq<char>)
    ensures
        match hex_number(field) {
            Some(n) => only_digits(unsigned(field)) && n == places(unsigned(field)),
            None => !only_digits(unsigned(field)) || places(unsigned(field)) > u64::MAX,
        },
{
    let digits = unsigned(field);
    if only_digits(digits) {
        assert forall|i: int| 0 <= i < digits.len() implies digit_value(
            #[trigger] digits[i],
        ) is Some by {
            assert(digit_of(digits[i]) >= 0);
            lemma_digits(digits[i]);
        }
    }
    if all_digits(digits) {
        assert forall|i: int| 0 <= i < digits.len() implies digit_of(#[trigger] digits[i]) >= 0 by {
            assert(digit_value(digits[i]) is Some);
            lemma_digits(digits[i]);
        }
        lemma_places(digits);
    }
}

proof fn lemma_next_field(s: Seq<char>, i: int)
    requires
        0 <= i <= s.len(),
    ensures
        is_field(s, i, field_start(s, i), field_end(s, field_start(s, i))),
{
    lemma_field_start(s, i);
    lemma_field_end(s, field_start(s, i));
}

proof fn lemma_field_start(s: Seq<char>, i: int)
    requires
        0 <= i <= s.len(),
    ensures
        i <= field_start(s, i) <= s.len(),
        forall|j: int| i <= j < field_start(s, i) ==> is_space(#[trigger] s[j]),
        field_start(s, i) < s.len() ==> !is_space(s[field_start(s, i)]),
    decreases s.len() - i,
{
    if i < s.len() && is_space(s[i]) {
        lemma_field_start(s, i + 1);
    }
}

proof fn lemma_field_end(s: Seq<char>, i: int)
    requires
        0 <= i <= s.len(),
    ensures
        i <= field_end(s, i) <= s.len(),
        forall|j: int| i <= j < field_end(s, i) ==> !is_space(#[trigger] s[j]),
        field_end(s, i) < s.len() ==> is_space(s[field_end(s, i)]),
        i < s.len() && !is_space(s[i]) ==> field_end(s, i) > i,
    decreases s.len() - i,
{
    if i < s.len() && !is_space(s[i]) {
        lemma_field_end(s, i + 1);
    }
}

proof fn lemma_field_is_unique(s: Seq<char>, i: int, a: int, b: int)
    requires
        0 <= i <= s.len(),
        is_field(s, i, a, b),
    ensures
        a == field_start(s, i),
        b == field_end(s, a),
{
    lemma_next_field(s, i);
    let x = field_start(s, i);
    let y = field_end(s, x);
    if a < x {
        assert(is_space(s[a]));
        assert(!is_space(s[a]));
    }
    if x < a {
        assert(is_space(s[x]));
        assert(!is_space(s[x]));
    }
    if b < y {
        assert(!is_space(s[b]));
    }
    if y < b {
        assert(!is_space(s[y]));
    }
}

/// What a line says, by its first two fields: nothing where there is none or the first
/// starts with `#`; an entry where both stand for numbers; and otherwise it is bad.
pub proof fn lemma_line_says(line: Seq<char>, a: int, b: int, c: int, d: int)
    requires
        is_field(line, 0, a, b),
        is_field(line, b, c, d),
    ensures
        match said(line) {
            Line::Nothing => a == line.len() || line[a] == '#',
            Line::Entry { addr, data } => a < line.len() && line[a] != '#' && hex_number(
                line.subrange(a, b),
            ) == Some(addr) && hex_number(line.subrange(c, d)) == Some(data),
            Line::Bad => a < line.len() && line[a] != '#' && (hex_number(line.subrange(a, b))
                is None || hex_number(line.subrange(c, d)) is None),
        },
{
    lemma_field_is_unique(line, 0, a, b);
    lemma_field_is_unique(line, b, c, d);
}

/// The text of an image whose first line is `line`.
pub open spec fn after_line(line: Seq<char>, rest: Seq<char>) -> Seq<char> {
    line.push('\n') + rest
}

proof fn lemma_first_line_ends(line: Seq<char>, rest: Seq<char>)
    requires
        forall|i: int| 0 <= i < line.len() ==> line[i] != '\n',
    ensures
        line_end(after_line(line, rest), 0) == line.len(),
        line_end(line, 0) == line.len(),
        after_line(line, rest).subrange(0, line.len() as int) == line,
        line.subrange(0, line.len() as int) == line,
{
    let s = after_line(line, rest);
    lemma_line_end(s, 0);
    lemma_line_end(line, 0);
    let e = line_end(s, 0);
    if e < line.len() {
        assert(s[e] == line[e]);
    }
    if e > line.len() {
        assert(s[line.len() as int] == '\n');
    }
    assert(s.subrange(0, line.len() as int) =~= line);
    assert(line.subrange(0, line.len() as int) =~= line);
}

proof fn lemma_line_end_moves(front: Seq<char>, s: Seq<char>, i: int)
    requires
        0 <= i <= s.len(),
    ensures
        line_end(front + s, front.len() + i) == front.len() + line_end(s, i),
    decreases s.len() - i,
{
    if i < s.len() {
        assert((front + s)[front.len() + i] == s[i]);
        if s[i] != '\n' {
            lemma_line_end_moves(front, s, i + 1);
        }
    }
}

proof fn lemma_reading_moves(front: Seq<char>, s: Seq<char>, m: MemoryView, i: int, n: nat)
    requires
        0 <= i,
    ensures
        loaded(m, front + s, front.len() + i) == loaded(m, s, i),
        first_bad(front + s, front.len() + i, n) == first_bad(s, i, n),
    decreases s.len() + 1 - i,
{
    if i < s.len() {
        lemma_line_end_moves(front, s, i);
        lemma_line_end(s, i);
        let e = line_end(s, i);
        assert((front + s).subrange(front.len() + i, front.len() + e) =~= s.subrange(i, e));
        lemma_reading_moves(front, s, m, e + 1, n + 1);
        if let Line::Entry { addr, data } = said(s.subrange(i, e)) {
            lemma_reading_moves(front, s, m.stored(addr, scalar(data, m.width)), e + 1, n + 1);
        }
    }
}

/// An image is read line by line. A line that says nothing changes nothing; an entry
/// stores its data at its address; and a bad line ends the reading and is the first
/// bad one, by its number.
pub proof fn lemma_lines_are_read(line: Seq<char>, rest: Seq<char>, m: MemoryView, n: nat)
    requires
        forall|i: int| 0 <= i < line.len() ==> line[i] != '\n',
    ensures
        ({
            let s = after_line(line, rest);
            match said(line) {
                Line::Nothing => loaded(m, s, 0) == loaded(m, rest, 0) && first_bad(s, 0, n)
                    == first_bad(rest, 0, n + 1),
                Line::Entry { addr, data } => loaded(m, s, 0) == loaded(
                    m.stored(addr, scalar(data, m.width)),
                    rest,
                    0,
                ) && first_bad(s, 0, n) == first_bad(rest, 0, n + 1),
                Line::Bad => loaded(m, s, 0) == m && first_bad(s, 0, n) == Some(n + 1),
            }
        }),
{
    let s = after_line(line, rest);
    lemma_first_line_ends(line, rest);
    lemma_reading_moves(line.push('\n'), rest, m, 0, n + 1);
    if let Line::Entry { addr, data } = said(line) {
        lemma_reading_moves(
            line.push('\n'),
            rest,
            m.stored(addr, scalar(data, m.width)),
            0,
            n + 1,
        );
    }
}

/// The last line needs no newline, and an empty image says nothing.
pub proof fn lemma_last_line_is_read(line: Seq<char>, m: MemoryView, n: nat)
    requires
        forall|i: int| 0 <= i < line.len() ==> line[i] != '\n',
    ensures
        loaded(m, Seq::empty(), 0) == m,
        first_bad(Seq::empty(), 0, n) is None,
        match said(line) {
            Line::Nothing => loaded(m, line, 0) == m && first_bad(line, 0, n) is None,
            Line::Entry { addr, data } => loaded(m, line, 0) == m.stored(
                addr,
                scalar(data, m.width),
            ) && first_bad(line, 0, n) is None,
            Line::Bad => loaded(m, line, 0) == m && (line.len() > 0 ==> first_bad(line, 0, n)
                == Some(n + 1)),
        },
{
    lemma_first_line_ends(line, Seq::empty());
    reveal_with_fuel(loaded, 2);
    reveal_with_fuel(first_bad, 2);
    if line.len() == 0 {
        lemma_next_field(line, 0);
    }
}

/// An image has one line for each word, in order: its address and the low 64 bits of
/// its data, with a space between.
pub proof fn lemma_words_are_listed(words: Map<u64, Seq<u64>>, addrs: Seq<u64>)
    requires
        addrs.len() > 0,
        words[addrs[0]].len() > 0,
    ensures
        dumped(words, addrs) == after_line(
            hex(addrs[0]).push(' ') + hex(words[addrs[0]][0]),
            dumped(words, addrs.drop_first()),
        ),
        dumped(words, Seq::empty()).len() == 0,
{
    reveal_strlit(" ");
    reveal_strlit("\n");
    assert(" "@ =~= seq![' ']);
    assert("\n"@ =~= seq!['\n']);
    assert(dumped(words, addrs) =~= after_line(
        hex(addrs[0]).push(' ') + hex(words[addrs[0]][0]),
        dumped(words, addrs.drop_first()),
    ));
}

} // verus!
