//! Memory images in text: an address and a data word in hexadecimal per line.

use crate::common::memory::{Memory, MemoryView};
use crate::common::stimulus::scalar;
use crate::collections::lists_keys;
use crate::text::{dec, digit, hex, numeral, push_dec, push_hex};
use crate::common::words::{data_view, masked, zeros};
use crate::value::{word_at, word_count};
use vstd::prelude::*;
use vstd::string::*;

verus! {

/// Whether a character separates fields: the Unicode white space.
pub open spec fn is_space(c: char) -> bool {
    let n = c as u32;
    ||| 0x9 <= n <= 0xd
    ||| n == 0x20
    ||| n == 0x85
    ||| n == 0xa0
    ||| n == 0x1680
    ||| 0x2000 <= n <= 0x200a
    ||| n == 0x2028
    ||| n == 0x2029
    ||| n == 0x202f
    ||| n == 0x205f
    ||| n == 0x3000
}

/// Whether a character separates fields.
pub fn space(c: char) -> (r: bool)
    ensures
        r == is_space(c),
{
    let n: u32 = c as u32;
    (0x9 <= n && n <= 0xd) || n == 0x20 || n == 0x85 || n == 0xa0 || n == 0x1680 || (0x2000 <= n
        && n <= 0x200a) || n == 0x2028 || n == 0x2029 || n == 0x202f || n == 0x205f || n == 0x3000
}

/// The first position from `i` on that is not a space.
pub open spec fn field_start(s: Seq<char>, i: int) -> int
    decreases s.len() - i,
{
    if 0 <= i < s.len() && is_space(s[i]) {
        field_start(s, i + 1)
    } else {
        i
    }
}

/// The first position from `i` on that is a space, or the end.
pub open spec fn field_end(s: Seq<char>, i: int) -> int
    decreases s.len() - i,
{
    if 0 <= i < s.len() && !is_space(s[i]) {
        field_end(s, i + 1)
    } else {
        i
    }
}

/// The value of a hexadecimal digit of either case.
pub open spec fn digit_value(c: char) -> Option<nat> {
    if '0' <= c <= '9' {
        Some((c as nat - '0' as nat) as nat)
    } else if 'a' <= c <= 'f' {
        Some((c as nat - 'a' as nat + 10) as nat)
    } else if 'A' <= c <= 'F' {
        Some((c as nat - 'A' as nat + 10) as nat)
    } else {
        None
    }
}

/// Whether every character is a hexadecimal digit.
pub open spec fn all_digits(s: Seq<char>) -> bool {
    forall|i: int| 0 <= i < s.len() ==> digit_value(#[trigger] s[i]) is Some
}

/// The number that hexadecimal digits stand for.
pub open spec fn hex_nat(s: Seq<char>) -> nat
    decreases s.len(),
{
    if s.len() == 0 {
        0
    } else {
        16 * hex_nat(s.drop_last()) + digit_value(s.last())->0
    }
}

/// The 64-bit number that a field stands for: one or more hexadecimal digits,
/// with or without a plus sign in front.
pub open spec fn hex_number(field: Seq<char>) -> Option<u64> {
    let digits = if field.len() > 0 && field[0] == '+' {
        field.drop_first()
    } else {
        field
    };
    if digits.len() > 0 && all_digits(digits) && hex_nat(digits) <= u64::MAX {
        Some(hex_nat(digits) as u64)
    } else {
        None
    }
}

/// What a line says.
pub enum Line {
    /// Nothing: it is blank or starts with `#`.
    Nothing,
    /// An address and its data.
    Entry { addr: u64, data: u64 },
    /// Something else.
    Bad,
}

/// What a line says. Fields after the second are ignored.
pub open spec fn said(line: Seq<char>) -> Line {
    let a = field_start(line, 0);
    let b = field_end(line, a);
    let c = field_start(line, b);
    let d = field_end(line, c);
    if a >= line.len() || line[a] == '#' {
        Line::Nothing
    } else {
        match (hex_number(line.subrange(a, b)), hex_number(line.subrange(c, d))) {
            (Some(addr), Some(data)) => Line::Entry { addr, data },
            _ => Line::Bad,
        }
    }
}

/// The position of the first newline from `i` on, or the end.
pub open spec fn line_end(s: Seq<char>, i: int) -> int
    decreases s.len() - i,
{
    if 0 <= i < s.len() && s[i] != '\n' {
        line_end(s, i + 1)
    } else {
        i
    }
}

/// The number of the first bad line from position `i` on, where `n` lines lie
/// before it.
pub open spec fn first_bad(s: Seq<char>, i: int, n: nat) -> Option<nat>
    decreases s.len() + 1 - i,
    when 0 <= i
    via first_bad_decreases
{
    if i >= s.len() {
        None
    } else {
        let e = line_end(s, i);
        if said(s.subrange(i, e)) is Bad {
            Some(n + 1)
        } else {
            first_bad(s, e + 1, n + 1)
        }
    }
}

#[via_fn]
proof fn first_bad_decreases(s: Seq<char>, i: int, n: nat) {
    if i < s.len() {
        lemma_line_end(s, i);
    }
}

/// A line ends at its newline, or at the end.
pub proof fn lemma_line_end(s: Seq<char>, i: int)
    requires
        0 <= i <= s.len(),
    ensures
        i <= line_end(s, i) <= s.len(),
        line_end(s, i) < s.len() ==> s[line_end(s, i)] == '\n',
        forall|j: int| i <= j < line_end(s, i) ==> s[j] != '\n',
    decreases s.len() - i,
{
    if i < s.len() && s[i] != '\n' {
        lemma_line_end(s, i + 1);
    }
}

/// The memory after the entries of the lines from position `i` on, up to the
/// first bad one.
pub open spec fn loaded(m: MemoryView, s: Seq<char>, i: int) -> MemoryView
    decreases s.len() + 1 - i,
    when 0 <= i
    via loaded_decreases
{
    if i >= s.len() {
        m
    } else {
        let e = line_end(s, i);
        match said(s.subrange(i, e)) {
            Line::Nothing => loaded(m, s, e + 1),
            Line::Entry { addr, data } => loaded(m.stored(addr, scalar(data, m.width)), s, e + 1),
            Line::Bad => m,
        }
    }
}

#[via_fn]
proof fn loaded_decreases(m: MemoryView, s: Seq<char>, i: int) {
    if i < s.len() {
        lemma_line_end(s, i);
    }
}

/// The refusal of an image: the number of its first bad line.
#[derive(Clone, Copy, Debug, PartialEq, Eq, Structural)]
pub struct HexError {
    pub line: u64,
}

impl HexError {
    /// The refusal of the image called `path`, in words.
    pub open spec fn text(self, path: Seq<char>) -> Seq<char> {
        path + ":"@ + dec(self.line) + ": expected two hex fields"@
    }

    /// The refusal of the image called `path`, in words.
    pub fn message(&self, path: &str) -> (r: String)
        ensures
            r@ == self.text(path@),
    {
        let mut r = String::new();
        r.append(path);
        r.append(":");
        push_dec(&mut r, self.line);
        r.append(": expected two hex fields");
        assert(r@ =~= self.text(path@));
        r
    }
}

fn characters(s: &str) -> (r: Vec<char>)
    ensures
        r@ == s@,
{
    let mut r: Vec<char> = Vec::new();
    for c in it: s.chars()
        invariant
            it.seq() == s@,
            r@ == s@.take(it.index() as int),
    {
        r.push(c);
        assert(r@ =~= s@.take(it.index() + 1));
    }
    assert(s@.take(s@.len() as int) =~= s@);
    r
}

fn find_line_end(s: &Vec<char>, from: usize) -> (r: usize)
    requires
        from <= s.len(),
    ensures
        r == line_end(s@, from as int),
        from <= r <= s.len(),
{
    let mut i: usize = from;
    while i < s.len() && s[i] != '\n'
        invariant
            from <= i <= s.len(),
            line_end(s@, i as int) == line_end(s@, from as int),
        decreases s.len() - i,
    {
        i = i + 1;
    }
    i
}

fn find_field_start(s: &Vec<char>, from: usize) -> (r: usize)
    requires
        from <= s.len(),
    ensures
        r == field_start(s@, from as int),
        from <= r <= s.len(),
{
    let mut i: usize = from;
    while i < s.len() && space(s[i])
        invariant
            from <= i <= s.len(),
            field_start(s@, i as int) == field_start(s@, from as int),
        decreases s.len() - i,
    {
        i = i + 1;
    }
    i
}

fn find_field_end(s: &Vec<char>, from: usize) -> (r: usize)
    requires
        from <= s.len(),
    ensures
        r == field_end(s@, from as int),
        from <= r <= s.len(),
{
    let mut i: usize = from;
    while i < s.len() && !space(s[i])
        invariant
            from <= i <= s.len(),
            field_end(s@, i as int) == field_end(s@, from as int),
        decreases s.len() - i,
    {
        i = i + 1;
    }
    i
}

fn digit_of(c: char) -> (r: Option<u64>)
    ensures
        r is Some <==> digit_value(c) is Some,
        r matches Some(d) ==> d == digit_value(c)->0 && d < 16,
{
    let n: u32 = c as u32;
    if '0' <= c && c <= '9' {
        Some((n - 0x30) as u64)
    } else if 'a' <= c && c <= 'f' {
        Some((n - 0x61 + 10) as u64)
    } else if 'A' <= c && c <= 'F' {
        Some((n - 0x41 + 10) as u64)
    } else {
        None
    }
}

proof fn lemma_hex_nat_grows(s: Seq<char>, n: int)
    requires
        0 <= n <= s.len(),
        all_digits(s),
    ensures
        hex_nat(s.take(n)) <= hex_nat(s),
    decreases s.len(),
{
    if n == s.len() {
        assert(s.take(n) =~= s);
    } else {
        let p = s.drop_last();
        assert forall|i: int| 0 <= i < p.len() implies digit_value(#[trigger] p[i]) is Some by {
            assert(p[i] == s[i]);
        }
        lemma_hex_nat_grows(p, n);
        assert(p.take(n) =~= s.take(n));
        assert(digit_value(s[s.len() - 1]) is Some);
    }
}

fn parse_hex(s: &Vec<char>, from: usize, to: usize) -> (r: Option<u64>)
    requires
        from <= to <= s.len(),
    ensures
        r == hex_number(s@.subrange(from as int, to as int)),
{
    let ghost field = s@.subrange(from as int, to as int);
    let mut i: usize = from;
    if i < to && s[i] == '+' {
        i = i + 1;
    }
    let first: usize = i;
    let ghost digits = if field.len() > 0 && field[0] == '+' {
        field.drop_first()
    } else {
        field
    };
    assert(digits =~= s@.subrange(first as int, to as int));
    if first == to {
        return None;
    }
    let mut value: u64 = 0;
    assert(digits.take(0) =~= seq![]);
    while i < to
        invariant
            from <= first <= i <= to <= s.len(),
            first < to,
            field == s@.subrange(from as int, to as int),
            digits == s@.subrange(first as int, to as int),
            digits == (if field.len() > 0 && field[0] == '+' {
                field.drop_first()
            } else {
                field
            }),
            value == hex_nat(digits.take(i - first)),
            forall|j: int| 0 <= j < i - first ==> digit_value(#[trigger] digits[j]) is Some,
        decreases to - i,
    {
        let ghost n = i - first;
        let ghost next = digits.take(n + 1);
        assert(digits[n] == s[i as int]);
        assert(next.drop_last() =~= digits.take(n));
        assert(next.last() == digits[n]);
        match digit_of(s[i]) {
            Some(d) => {
                if value > (u64::MAX - d) / 16 {
                    proof {
                        assert(hex_nat(next) > u64::MAX);
                        if all_digits(digits) {
                            lemma_hex_nat_grows(digits, n + 1);
                        }
                    }
                    return None;
                }
                value = value * 16 + d;
            },
            None => {
                assert(digit_value(digits[n]) is None);
                return None;
            },
        }
        i = i + 1;
    }
    assert(digits.take(to - first) =~= digits);
    Some(value)
}

fn parse_line(line: &Vec<char>) -> (r: Line)
    ensures
        r == said(line@),
{
    let a: usize = find_field_start(line, 0);
    if a >= line.len() || line[a] == '#' {
        return Line::Nothing;
    }
    let b: usize = find_field_end(line, a);
    let c: usize = find_field_start(line, b);
    let d: usize = find_field_end(line, c);
    match (parse_hex(line, a, b), parse_hex(line, c, d)) {
        (Some(addr), Some(data)) => Line::Entry { addr, data },
        _ => Line::Bad,
    }
}

fn slice(s: &Vec<char>, from: usize, to: usize) -> (r: Vec<char>)
    requires
        from <= to <= s.len(),
    ensures
        r@ == s@.subrange(from as int, to as int),
{
    let mut r: Vec<char> = Vec::new();
    let mut i: usize = from;
    while i < to
        invariant
            from <= i <= to <= s.len(),
            r@ == s@.subrange(from as int, i as int),
        decreases to - i,
    {
        r.push(s[i]);
        i = i + 1;
        assert(r@ =~= s@.subrange(from as int, i as int));
    }
    r
}

/// Stores the entries of an image. Blank lines and those that start with `#`
/// are ignored. At the first other line without two hexadecimal fields the
/// image is refused; the entries before it stay.
pub fn load(m: &mut Memory, image: &str) -> (r: Result<(), HexError>)
    requires
        old(m)@.wf(),
    ensures
        final(m)@ == loaded(old(m)@, image@, 0),
        final(m)@.wf(),
        final(m)@.width == old(m)@.width,
        match r {
            Ok(_) => first_bad(image@, 0, 0) is None,
            Err(e) => first_bad(image@, 0, 0) == Some(e.line as nat),
        },
{
    let s: Vec<char> = characters(image);
    let mut i: usize = 0;
    let mut n: usize = 0;
    while i < s.len()
        invariant
            i <= s.len(),
            n <= i,
            s@ == image@,
            m@.wf(),
            m@.width == old(m)@.width,
            loaded(old(m)@, image@, 0) == loaded(m@, image@, i as int),
            first_bad(image@, 0, 0) == first_bad(image@, i as int, n as nat),
        decreases s.len() - i,
    {
        let e: usize = find_line_end(&s, i);
        let line: Vec<char> = slice(&s, i, e);
        match parse_line(&line) {
            Line::Nothing => {},
            Line::Entry { addr, data } => m.poke_scalar(addr, data),
            Line::Bad => {
                return Err(HexError { line: n as u64 + 1 });
            },
        }
        n = n + 1;
        if e < s.len() {
            i = e + 1;
        } else {
            i = e;
            assert(loaded(m@, image@, e + 1) == m@);
            assert(loaded(m@, image@, e as int) == m@);
            assert(first_bad(image@, e + 1, n as nat) is None);
            assert(first_bad(image@, e as int, n as nat) is None);
        }
    }
    Ok(())
}

/// An entry of an image.
pub open spec fn entry(addr: u64, low: u64) -> Seq<char> {
    hex(addr) + " "@ + hex(low) + "\n"@
}

/// The image of the words at some addresses: the low 64 bits of each.
pub open spec fn dumped(words: Map<u64, Seq<u64>>, addrs: Seq<u64>) -> Seq<char>
    decreases addrs.len(),
{
    if addrs.len() == 0 {
        seq![]
    } else {
        entry(addrs[0], word_at(words[addrs[0]], 0)) + dumped(words, addrs.drop_first())
    }
}

/// The image of a memory, in increasing order of the addresses.
pub fn dump(m: &Memory) -> (r: String)
    ensures
        exists|addrs: Seq<u64>|
            lists_keys(addrs, m@.words) && r@ == #[trigger] dumped(m@.words, addrs),
{
    let addrs = m.keys();
    let mut out = String::new();
    let mut i: usize = 0;
    assert(addrs@.skip(0) =~= addrs@);
    assert(out@ + dumped(m@.words, addrs@.skip(0)) =~= dumped(m@.words, addrs@));
    while i < addrs.len()
        invariant
            i <= addrs.len(),
            lists_keys(addrs@, m@.words),
            out@ + dumped(m@.words, addrs@.skip(i as int)) == dumped(m@.words, addrs@),
        decreases addrs.len() - i,
    {
        let addr: u64 = addrs[i];
        assert(addrs@.contains(addrs@[i as int]));
        let ghost rest = addrs@.skip(i as int);
        let ghost before = out@;
        assert(rest.drop_first() =~= addrs@.skip(i + 1));
        push_hex(&mut out, addr);
        out.append(" ");
        push_hex(&mut out, m.low_word(addr));
        out.append("\n");
        assert(out@ =~= before + entry(addr, word_at(m@.words[addr], 0)));
        assert(out@ + dumped(m@.words, addrs@.skip(i + 1)) =~= before + dumped(m@.words, rest));
        i = i + 1;
    }
    assert(addrs@.skip(i as int) =~= seq![]);
    assert(out@ =~= dumped(m@.words, addrs@));
    out
}

/// Whether a character can stand in a written hexadecimal number.
spec fn plain(c: char) -> bool {
    !is_space(c) && c != '\n' && c != '#' && c != '+' && digit_value(c) is Some
}

proof fn lemma_digit(d: nat)
    requires
        d < 16,
    ensures
        digit_value(digit(d)) == Some(d),
        plain(digit(d)),
{
}

proof fn lemma_written_number(n: nat)
    ensures
        ({
            let s = numeral(n, 16);
            &&& s.len() > 0
            &&& hex_nat(s) == n
            &&& forall|i: int| 0 <= i < s.len() ==> plain(#[trigger] s[i])
        }),
    decreases n,
{
    let s = numeral(n, 16);
    if n < 16 {
        lemma_digit(n);
        assert(s =~= seq![digit(n)]);
        assert(s.drop_last() =~= seq![]);
        assert(hex_nat(s.drop_last()) == 0);
        assert(s.last() == digit(n));
    } else {
        lemma_written_number(n / 16);
        lemma_digit(n % 16);
        let p = numeral(n / 16, 16);
        assert(s =~= p.push(digit(n % 16)));
        assert(s.drop_last() =~= p);
        assert forall|i: int| 0 <= i < s.len() implies plain(#[trigger] s[i]) by {
            if i < p.len() {
                assert(s[i] == p[i]);
            }
        }
    }
}

proof fn lemma_number_reads_back(n: u64)
    ensures
        hex_number(hex(n)) == Some(n),
{
    lemma_written_number(n as nat);
    let s = hex(n);
    assert(plain(s[0]));
    assert(all_digits(s)) by {
        assert forall|i: int| 0 <= i < s.len() implies digit_value(#[trigger] s[i]) is Some by {
            assert(plain(s[i]));
        }
    }
}

proof fn lemma_field_end_at(s: Seq<char>, i: int, e: int)
    requires
        0 <= i <= e <= s.len(),
        forall|j: int| i <= j < e ==> !is_space(#[trigger] s[j]),
        e < s.len() ==> is_space(s[e]),
    ensures
        field_end(s, i) == e,
    decreases e - i,
{
    if i < e {
        lemma_field_end_at(s, i + 1, e);
    }
}

proof fn lemma_line_end_at(s: Seq<char>, i: int, e: int)
    requires
        0 <= i <= e < s.len(),
        forall|j: int| i <= j < e ==> #[trigger] s[j] != '\n',
        s[e] == '\n',
    ensures
        line_end(s, i) == e,
    decreases e - i,
{
    if i < e {
        lemma_line_end_at(s, i + 1, e);
    }
}

/// The line of an entry, without its newline.
spec fn entry_line(addr: u64, low: u64) -> Seq<char> {
    hex(addr) + " "@ + hex(low)
}

proof fn lemma_entry_line(addr: u64, low: u64)
    ensures
        said(entry_line(addr, low)) == (Line::Entry { addr, data: low }),
        forall|i: int|
            0 <= i < entry_line(addr, low).len() ==> #[trigger] entry_line(addr, low)[i] != '\n',
{
    reveal_strlit(" ");
    lemma_written_number(addr as nat);
    lemma_written_number(low as nat);
    lemma_number_reads_back(addr);
    lemma_number_reads_back(low);
    let a = hex(addr);
    let b = hex(low);
    let s = entry_line(addr, low);
    let n = a.len() as int;
    assert(s.len() == n + 1 + b.len());
    assert forall|i: int| 0 <= i < n implies s[i] == a[i] && plain(s[i]) by {
        assert(plain(a[i]));
    }
    assert(s[n] == ' ');
    assert forall|i: int| n + 1 <= i < s.len() implies s[i] == b[i - n - 1] && plain(s[i]) by {
        assert(plain(b[i - n - 1]));
    }
    assert(plain(s[0]));
    assert(field_start(s, 0) == 0);
    lemma_field_end_at(s, 0, n);
    assert(plain(s[n + 1]));
    assert(field_start(s, n + 1) == n + 1);
    assert(field_start(s, n) == n + 1);
    lemma_field_end_at(s, n + 1, s.len() as int);
    assert(s.subrange(0, n) =~= a);
    assert(s.subrange(n + 1, s.len() as int) =~= b);
}

/// A memory with the low 64 bits of some words of another stored in it.
pub open spec fn restored(m: MemoryView, words: Map<u64, Seq<u64>>, addrs: Seq<u64>) -> MemoryView
    decreases addrs.len(),
{
    if addrs.len() == 0 {
        m
    } else {
        let a = addrs[0];
        restored(
            m.stored(a, scalar(word_at(words[a], 0), m.width)),
            words,
            addrs.drop_first(),
        )
    }
}

proof fn lemma_image_loads(
    before: Seq<char>,
    words: Map<u64, Seq<u64>>,
    addrs: Seq<u64>,
    m: MemoryView,
    n: nat,
)
    ensures
        ({
            let s = before + dumped(words, addrs);
            &&& first_bad(s, before.len() as int, n) is None
            &&& loaded(m, s, before.len() as int) == restored(m, words, addrs)
        }),
    decreases addrs.len(),
{
    let s = before + dumped(words, addrs);
    let i = before.len() as int;
    if addrs.len() > 0 {
        reveal_strlit("\n");
        let a = addrs[0];
        let low = word_at(words[a], 0);
        let line = entry_line(a, low);
        let e = i + line.len();
        let rest = dumped(words, addrs.drop_first());
        lemma_entry_line(a, low);
        assert(entry(a, low) =~= line + "\n"@);
        assert(s =~= before + line + "\n"@ + rest);
        assert forall|j: int| i <= j < e implies #[trigger] s[j] != '\n' by {
            assert(s[j] == line[j - i]);
        }
        assert(s[e] == '\n');
        lemma_line_end_at(s, i, e);
        assert(s.subrange(i, e) =~= line);
        let next = before + entry(a, low);
        assert(s =~= next + rest);
        assert(next.len() == e + 1);
        lemma_image_loads(
            next,
            words,
            addrs.drop_first(),
            m.stored(a, scalar(low, m.width)),
            n + 1,
        );
    } else {
        assert(s =~= before);
    }
}

proof fn lemma_restored(m: MemoryView, words: Map<u64, Seq<u64>>, addrs: Seq<u64>, k: u64)
    requires
        forall|i: int, j: int| 0 <= i < j < addrs.len() ==> addrs[i] < addrs[j],
        forall|i: int| 0 <= i < addrs.len() ==> m.key(#[trigger] addrs[i]) == addrs[i],
    ensures
        ({
            let t = restored(m, words, addrs);
            &&& t.width == m.width
            &&& addrs.contains(k) ==> t.words.contains_key(k) && t.words[k] == scalar(
                word_at(words[k], 0),
                m.width,
            )
            &&& !addrs.contains(k) ==> (t.words.contains_key(k) <==> m.words.contains_key(k)) && (
            m.words.contains_key(k) ==> t.words[k] == m.words[k])
        }),
    decreases addrs.len(),
{
    if addrs.len() > 0 {
        let a = addrs[0];
        let rest = addrs.drop_first();
        let u = m.stored(a, scalar(word_at(words[a], 0), m.width));
        assert(m.key(addrs[0]) == a);
        assert forall|i: int| 0 <= i < rest.len() implies u.key(#[trigger] rest[i]) == rest[i] by {
            assert(rest[i] == addrs[i + 1]);
            assert(m.key(addrs[i + 1]) == addrs[i + 1]);
        }
        lemma_restored(u, words, rest, k);
        assert(addrs.contains(k) <==> k == a || rest.contains(k)) by {
            if addrs.contains(k) && k != a {
                let i = choose|i: int| 0 <= i < addrs.len() && addrs[i] == k;
                assert(rest[i - 1] == k);
            }
            if rest.contains(k) {
                let i = choose|i: int| 0 <= i < rest.len() && rest[i] == k;
                assert(addrs[i + 1] == k);
            }
        }
        if rest.contains(a) {
            let i = choose|i: int| 0 <= i < rest.len() && rest[i] == a;
            assert(addrs[0] < addrs[i + 1]);
        }
    }
}

/// Loading a dump restores it: every line is accepted, each word of the
/// dumped memory comes back with its low 64 bits, and no other word changes.
pub proof fn lemma_load_restores_dump(
    from: MemoryView,
    to: MemoryView,
    addrs: Seq<u64>,
    k: u64,
)
    requires
        lists_keys(addrs, from.words),
        forall|a: u64| #[trigger] from.words.contains_key(a) ==> to.key(a) == a,
    ensures
        ({
            let image = dumped(from.words, addrs);
            let t = loaded(to, image, 0);
            &&& first_bad(image, 0, 0) is None
            &&& from.words.contains_key(k) ==> t.words.contains_key(k) && t.words[k] == scalar(
                word_at(from.words[k], 0),
                to.width,
            )
            &&& !from.words.contains_key(k) ==> (t.words.contains_key(k)
                <==> to.words.contains_key(k)) && (to.words.contains_key(k) ==> t.words[k]
                == to.words[k])
        }),
{
    let none = Seq::<char>::empty();
    assert(none + dumped(from.words, addrs) =~= dumped(from.words, addrs));
    lemma_image_loads(none, from.words, addrs, to, 0);
    assert forall|i: int| 0 <= i < addrs.len() implies to.key(#[trigger] addrs[i]) == addrs[i] by {
        assert(addrs.contains(addrs[i]));
    }
    lemma_restored(to, from.words, addrs, k);
    assert(addrs.contains(k) <==> from.words.contains_key(k));
}

/// Loading a dump into a fresh memory restores everything, on a bus of at most
/// 64 bits: every peek of the one agrees with that of the other.
pub proof fn lemma_loaded_dump_reads_alike(
    from: MemoryView,
    size: Option<u64>,
    addrs: Seq<u64>,
    addr: u64,
)
    requires
        lists_keys(addrs, from.words),
        from.wf(),
        from.clean(),
        0 < from.width <= 64,
        forall|a: u64| #[trigger] from.words.contains_key(a) ==> from.key(a) == a,
    ensures
        ({
            let image = dumped(from.words, addrs);
            let t = loaded(MemoryView::empty(from.width, size), image, 0);
            &&& first_bad(image, 0, 0) is None
            &&& t.width == from.width
            &&& data_view(t.at(addr), t.width) == data_view(from.at(addr), from.width)
        }),
{
    let to = MemoryView::empty(from.width, size);
    let image = dumped(from.words, addrs);
    let k = from.key(addr);
    assert forall|a: u64| #[trigger] from.words.contains_key(a) implies to.key(a) == a by {
        assert(from.key(a) == a);
    }
    lemma_load_restores_dump(from, to, addrs, k);
    lemma_loaded_keeps_width(to, image, 0);
    if from.words.contains_key(k) {
        let w = from.words[k];
        assert(masked(w, from.width) == w && w.len() == 1);
        assert(zeros(word_count(from.width)).update(0, w[0]) =~= w);
        assert(scalar(w[0], from.width) =~= w);
    }
}

proof fn lemma_loaded_keeps_width(m: MemoryView, s: Seq<char>, i: int)
    requires
        0 <= i,
    ensures
        loaded(m, s, i).width == m.width,
    decreases s.len() + 1 - i,
{
    if i < s.len() {
        lemma_line_end(s, i);
        let e = line_end(s, i);
        match said(s.subrange(i, e)) {
            Line::Nothing => lemma_loaded_keeps_width(m, s, e + 1),
            Line::Entry { addr, data } => lemma_loaded_keeps_width(
                m.stored(addr, scalar(data, m.width)),
                s,
                e + 1,
            ),
            Line::Bad => {},
        }
    }
}

} // verus!
