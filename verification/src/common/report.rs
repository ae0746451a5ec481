//! How a component reports failures.

use crate::text::{dec, push_dec};
use vstd::prelude::*;
use vstd::string::*;

verus! {

/// The failure `f`, if `c` holds.
pub open spec fn only_if<F>(c: bool, f: F) -> Seq<F> {
    if c {
        seq![f]
    } else {
        seq![]
    }
}

/// Adds the failure `f` to `fails` if `c` holds.
pub fn report<F>(fails: &mut Vec<F>, c: bool, f: F)
    ensures
        final(fails)@ == old(fails)@ + only_if(c, f),
{
    if c {
        fails.push(f);
    }
    assert(fails@ =~= old(fails)@ + only_if(c, f));
}

/// Adds several failures to `fails`.
pub fn report_all<F>(fails: &mut Vec<F>, more: Vec<F>)
    ensures
        final(fails)@ == old(fails)@ + more@,
{
    let mut more = more;
    fails.append(&mut more);
}

/// How often `x` is among the failures.
#[verifier::opaque]
pub open spec fn times<F>(fails: Seq<F>, x: F) -> nat
    decreases fails.len(),
{
    if fails.len() == 0 {
        0
    } else {
        times(fails.drop_last(), x) + once(fails.last() == x)
    }
}

/// One where something holds, none where it does not.
pub open spec fn once(c: bool) -> nat {
    if c {
        1
    } else {
        0
    }
}

/// What is reported together is reported as often as in its parts.
pub broadcast proof fn lemma_times_together<F>(a: Seq<F>, b: Seq<F>, x: F)
    ensures
        #[trigger] times(a + b, x) == times(a, x) + times(b, x),
    decreases b.len(),
{
    reveal(times);
    if b.len() == 0 {
        assert(a + b =~= a);
    } else {
        lemma_times_together(a, b.drop_last(), x);
        assert((a + b).drop_last() =~= a + b.drop_last());
        assert((a + b).last() == b.last());
    }
}

/// A failure that depends on a condition is reported once where it holds.
pub broadcast proof fn lemma_times_only_if<F>(c: bool, f: F, x: F)
    ensures
        #[trigger] times(only_if(c, f), x) == once(c && f == x),
{
    lemma_times_one(f, x);
    lemma_times_none(x);
}

/// One failure is reported once.
pub proof fn lemma_times_one<F>(f: F, x: F)
    ensures
        times(seq![f], x) == once(f == x),
{
    reveal(times);
    lemma_times_none(x);
    assert(seq![f].drop_last() =~= seq![]);
}

/// Nothing is reported where there is no failure.
pub proof fn lemma_times_none<F>(x: F)
    ensures
        times(Seq::<F>::empty(), x) == 0,
{
    reveal(times);
}

/// What is reported in ten parts is reported as often as in each of them.
pub proof fn lemma_times_in_ten<F>(
    a: Seq<F>,
    b: Seq<F>,
    c: Seq<F>,
    d: Seq<F>,
    e: Seq<F>,
    f: Seq<F>,
    g: Seq<F>,
    h: Seq<F>,
    i: Seq<F>,
    j: Seq<F>,
    x: F,
)
    ensures
        times(a + b + c + d + e + f + g + h + i + j, x) == times(a, x) + times(b, x) + times(c, x) + times(d, x) + times(e, x) + times(f, x) + times(g, x) + times(h, x) + times(i, x) + times(j, x),
{
    lemma_times_together(a, b, x);
    lemma_times_together(a + b, c, x);
    lemma_times_together(a + b + c, d, x);
    lemma_times_together(a + b + c + d, e, x);
    lemma_times_together(a + b + c + d + e, f, x);
    lemma_times_together(a + b + c + d + e + f, g, x);
    lemma_times_together(a + b + c + d + e + f + g, h, x);
    lemma_times_together(a + b + c + d + e + f + g + h, i, x);
    lemma_times_together(a + b + c + d + e + f + g + h + i, j, x);
}

/// A failure is among others exactly where it is reported at least once.
pub proof fn lemma_times_is_membership<F>(fails: Seq<F>, x: F)
    ensures
        times(fails, x) > 0 <==> fails.contains(x),
    decreases fails.len(),
{
    reveal(times);
    if fails.len() > 0 {
        let rest = fails.drop_last();
        lemma_times_is_membership(rest, x);
        if rest.contains(x) {
            let i = choose|i: int| 0 <= i < rest.len() && rest[i] == x;
            assert(fails[i] == x);
        }
        if fails.contains(x) && fails.last() != x {
            let i = choose|i: int| 0 <= i < fails.len() && fails[i] == x;
            assert(rest[i] == x);
        }
        if fails.last() == x {
            assert(fails[fails.len() - 1] == x);
        }
    }
}

/// A failure message with the cycle in front.
pub open spec fn at_cycle(cycle: u64, msg: Seq<char>) -> Seq<char> {
    "cycle "@ + dec(cycle) + ": "@ + msg
}

/// The failure message with the current cycle number in front, so that a
/// violation says when it happened.
pub fn fail_at(cycle: u64, msg: &str) -> (r: String)
    ensures
        r@ == at_cycle(cycle, msg@),
{
    let mut r = String::new();
    r.append("cycle ");
    push_dec(&mut r, cycle);
    r.append(": ");
    r.append(msg);
    assert(r@ =~= at_cycle(cycle, msg@));
    r
}

} // verus!
