//! Counters and limits.

use vstd::prelude::*;

verus! {

/// `n`, one more if `c` holds.
pub open spec fn bumped(n: u64, c: bool) -> u64 {
    if c {
        (n + 1) as u64
    } else {
        n
    }
}

/// `n`, one more if `c` holds.
pub fn bump(n: u64, c: bool) -> (r: u64)
    requires
        c ==> n < u64::MAX,
    ensures
        r == bumped(n, c),
{
    if c {
        n + 1
    } else {
        n
    }
}

/// The larger of two numbers.
pub open spec fn larger(a: u64, b: u64) -> u64 {
    if a < b {
        b
    } else {
        a
    }
}

/// The larger of two numbers.
pub fn max_of(a: u64, b: u64) -> (r: u64)
    ensures
        r == larger(a, b),
{
    if a < b {
        b
    } else {
        a
    }
}

/// One past `limit`, or the largest number.
pub open spec fn past(limit: u64) -> u64 {
    if limit == u64::MAX {
        limit
    } else {
        (limit + 1) as u64
    }
}

/// One past `limit`, or the largest number.
pub fn just_past(limit: u64) -> (r: u64)
    ensures
        r == past(limit),
{
    limit.saturating_add(1)
}

} // verus!
