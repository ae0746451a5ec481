//! Text of failure messages and reports: numerals, hex lists and lines.

use vstd::prelude::*;
use vstd::string::*;

verus! {

/// The digit of value `d` (below sixteen), lower case.
pub open spec fn digit(d: nat) -> char {
    if d < 10 {
        ('0' as nat + d) as char
    } else {
        ('a' as nat + (d - 10) as nat) as char
    }
}

/// `n` written in `base`, without leading zeros.
pub open spec fn numeral(n: nat, base: nat) -> Seq<char>
    decreases n,
{
    if n < base || base < 2 {
        seq![digit(n)]
    } else {
        proof {
            vstd::arithmetic::div_mod::lemma_div_decreases(n as int, base as int);
        }
        numeral(n / base, base).push(digit(n % base))
    }
}

/// `n` in decimal.
pub open spec fn dec(n: u64) -> Seq<char> {
    numeral(n as nat, 10)
}

/// `n` in hexadecimal, without a prefix.
pub open spec fn hex(n: u64) -> Seq<char> {
    numeral(n as nat, 16)
}

/// The hexadecimal words separated by a comma and a space.
pub open spec fn hex_items(words: Seq<u64>) -> Seq<char>
    decreases words.len(),
{
    if words.len() == 0 {
        seq![]
    } else if words.len() == 1 {
        hex(words[0])
    } else {
        hex_items(words.drop_last()) + ", "@ + hex(words.last())
    }
}

/// A word vector as a bracketed list of hexadecimal words.
pub open spec fn hex_list(words: Seq<u64>) -> Seq<char> {
    "["@ + hex_items(words) + "]"@
}

/// The digit as a string.
fn digit_str(d: u64) -> (r: &'static str)
    requires
        d < 16,
    ensures
        r@ == seq![digit(d as nat)],
{
    proof {
        reveal_strlit("0");
        reveal_strlit("1");
        reveal_strlit("2");
        reveal_strlit("3");
        reveal_strlit("4");
        reveal_strlit("5");
        reveal_strlit("6");
        reveal_strlit("7");
        reveal_strlit("8");
        reveal_strlit("9");
        reveal_strlit("a");
        reveal_strlit("b");
        reveal_strlit("c");
        reveal_strlit("d");
        reveal_strlit("e");
        reveal_strlit("f");
    }
    let r = match d {
        0 => "0",
        1 => "1",
        2 => "2",
        3 => "3",
        4 => "4",
        5 => "5",
        6 => "6",
        7 => "7",
        8 => "8",
        9 => "9",
        10 => "a",
        11 => "b",
        12 => "c",
        13 => "d",
        14 => "e",
        _ => "f",
    };
    assert(r@ =~= seq![digit(d as nat)]);
    r
}

/// Appends `n` written in `base`.
fn push_numeral(out: &mut String, n: u64, base: u64)
    requires
        2 <= base <= 16,
    ensures
        final(out)@ == old(out)@ + numeral(n as nat, base as nat),
    decreases n,
{
    if n < base {
        out.append(digit_str(n));
    } else {
        proof {
            vstd::arithmetic::div_mod::lemma_div_decreases(n as int, base as int);
        }
        push_numeral(out, n / base, base);
        out.append(digit_str(n % base));
        assert(out@ =~= old(out)@ + numeral(n as nat, base as nat));
    }
}

/// Appends `n` in decimal.
pub fn push_dec(out: &mut String, n: u64)
    ensures
        final(out)@ == old(out)@ + dec(n),
{
    push_numeral(out, n, 10)
}

/// Appends `n` in hexadecimal.
pub fn push_hex(out: &mut String, n: u64)
    ensures
        final(out)@ == old(out)@ + hex(n),
{
    push_numeral(out, n, 16)
}

/// Appends a word vector as a bracketed list of hexadecimal words.
pub fn push_hex_list(out: &mut String, words: &Vec<u64>)
    ensures
        final(out)@ == old(out)@ + hex_list(words@),
{
    out.append("[");
    let ghost start = out@;
    let mut i: usize = 0;
    assert(words@.take(0) =~= seq![]);
    assert(out@ =~= start + hex_items(words@.take(0)));
    while i < words.len()
        invariant
            i <= words.len(),
            out@ == start + hex_items(words@.take(i as int)),
        decreases words.len() - i,
    {
        let ghost done = words@.take(i as int);
        let ghost next = words@.take(i + 1);
        assert(next.drop_last() =~= done);
        assert(next.last() == words[i as int]);
        if i > 0 {
            out.append(", ");
        }
        push_hex(out, words[i]);
        assert(out@ =~= start + hex_items(next));
        i = i + 1;
    }
    assert(words@.take(words.len() as int) =~= words@);
    out.append("]");
    assert(out@ =~= old(out)@ + hex_list(words@));
}

/// The value of a digit.
pub open spec fn digit_worth(c: char) -> nat {
    if '0' <= c <= '9' {
        (c as nat - '0' as nat) as nat
    } else {
        (c as nat - 'a' as nat + 10) as nat
    }
}

/// The number that digits stand for, the first of them the most significant.
pub open spec fn worth(s: Seq<char>, base: nat) -> nat
    decreases s.len(),
{
    if s.len() == 0 {
        0
    } else {
        worth(s.drop_last(), base) * base + digit_worth(s.last())
    }
}

/// A numeral stands for its number, and has no leading zero but for zero itself. All
/// its characters are decimal digits or, in a base above ten, also letters from `a`.
pub proof fn lemma_numeral_stands_for_its_number(n: nat, base: nat, i: int)
    requires
        2 <= base <= 16,
        0 <= i < numeral(n, base).len(),
    ensures
        worth(numeral(n, base), base) == n,
        numeral(n, base)[0] == '0' ==> n == 0 && numeral(n, base).len() == 1,
        '0' <= numeral(n, base)[i] <= '9' || 'a' <= numeral(n, base)[i] <= 'f',
        digit_worth(numeral(n, base)[i]) < base,
    decreases n,
{
    let s = numeral(n, base);
    if n < base {
        assert(s.drop_last() =~= seq![]);
        assert(worth(s.drop_last(), base) == 0);
        assert(0 * base == 0);
    } else {
        vstd::arithmetic::div_mod::lemma_div_decreases(n as int, base as int);
        vstd::arithmetic::div_mod::lemma_fundamental_div_mod(n as int, base as int);
        let q = n / base;
        let r = n % base;
        assert(r < base);
        assert(q >= 1) by (nonlinear_arith)
            requires
                n >= base,
                base > 0,
                q == n / base,
        ;
        let head = numeral(q, base);
        assert(s.drop_last() =~= head);
        let j = if i < head.len() {
            i
        } else {
            0
        };
        lemma_numeral_stands_for_its_number(q, base, j);
        assert(q * base == base * q) by (nonlinear_arith);
        assert(digit_worth(digit(r)) == r);
    }
}

} // verus!
