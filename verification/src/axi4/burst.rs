//! Bursts: the `AxBURST` encodings and the address of each beat.

use crate::common::lanes::{align, aligned};
use vstd::arithmetic::div_mod::{lemma_fundamental_div_mod, lemma_mod_multiples_vanish};
use vstd::prelude::*;

verus! {

/// Every beat goes to the start address.
pub const FIXED: u64 = 0;

/// Each beat goes to the address after the one before.
pub const INCR: u64 = 1;

/// As `INCR`, but within a block that holds the whole burst.
pub const WRAP: u64 = 2;

/// The number of bytes a burst of `len + 1` beats of `bytes` each spans.
pub open spec fn block_size(bytes: u64, len: u64) -> int {
    (len + 1) * bytes
}

/// The byte address of beat `n` (from 0) of a burst of `len + 1` beats, each
/// `bytes` wide, starting at `start`.
pub open spec fn beat(start: u64, bytes: u64, kind: u64, len: u64, n: u64) -> int {
    if kind == FIXED {
        start as int
    } else if kind == WRAP {
        let block = block_size(bytes, len);
        start - start as int % block + (start + n * bytes) % block
    } else {
        aligned(start, bytes) + n * bytes
    }
}

/// Whether a beat's address can be computed in 64 bits.
pub open spec fn beat_fits(start: u64, bytes: u64, kind: u64, len: u64, n: u64) -> bool {
    if kind == FIXED {
        true
    } else if kind == WRAP {
        let block = block_size(bytes, len);
        &&& bytes > 0
        &&& len < u64::MAX
        &&& block <= u64::MAX
        &&& start as int % block + n * bytes <= u64::MAX
        &&& beat(start, bytes, kind, len, n) <= u64::MAX
    } else {
        &&& bytes > 0
        &&& beat(start, bytes, kind, len, n) <= u64::MAX
    }
}

proof fn lemma_wrap_parts(start: u64, bytes: u64, len: u64, n: u64)
    requires
        bytes > 0,
    ensures
        ({
            let block = block_size(bytes, len);
            let offset = start as int % block;
            &&& block > 0
            &&& 0 <= offset < block
            &&& offset <= start
            &&& (start as int / block) * block == start - offset
            &&& (start + n * bytes) % block == (offset + n * bytes) % block
            &&& 0 <= (start + n * bytes) % block < block
            &&& 0 <= n * bytes
        }),
{
    let block = block_size(bytes, len);
    assert(block > 0) by (nonlinear_arith)
        requires
            bytes > 0,
            block == (len + 1) * bytes,
    ;
    let q = start as int / block;
    let offset = start as int % block;
    lemma_fundamental_div_mod(start as int, block);
    assert(q * block == block * q) by (nonlinear_arith);
    assert(q * block >= 0) by (nonlinear_arith)
        requires
            q >= 0,
            block > 0,
    ;
    lemma_mod_multiples_vanish(q, offset + n * bytes, block);
    assert(n * bytes >= 0) by (nonlinear_arith);
}

/// The byte address of beat `n` (from 0) of a burst of `len + 1` beats, each
/// `bytes` wide, starting at `start`.
pub fn beat_addr(start: u64, bytes: u64, kind: u64, len: u64, n: u64) -> (r: u64)
    requires
        beat_fits(start, bytes, kind, len, n),
    ensures
        r == beat(start, bytes, kind, len, n),
{
    if kind == FIXED {
        start
    } else if kind == WRAP {
        proof {
            lemma_wrap_parts(start, bytes, len, n);
        }
        let block: u64 = (len + 1) * bytes;
        let base: u64 = (start / block) * block;
        base + (start - base + n * bytes) % block
    } else {
        assert(n * bytes >= 0) by (nonlinear_arith);
        let first: u64 = align(start, bytes);
        first + n * bytes
    }
}

/// Whether [`beat_addr`] can compute the address of a beat.
pub fn beat_in_range(start: u64, bytes: u64, kind: u64, len: u64, n: u64) -> (r: bool)
    ensures
        r == beat_fits(start, bytes, kind, len, n),
{
    if kind == FIXED {
        return true;
    }
    if bytes == 0 {
        return false;
    }
    assert(n * bytes >= 0) by (nonlinear_arith);
    if kind == WRAP {
        proof {
            lemma_wrap_parts(start, bytes, len, n);
        }
        if len == u64::MAX {
            return false;
        }
        match ((len + 1).checked_mul(bytes), n.checked_mul(bytes)) {
            (Some(block), Some(step)) => {
                let offset: u64 = start % block;
                match offset.checked_add(step) {
                    Some(sum) => (start - offset).checked_add(sum % block).is_some(),
                    None => false,
                }
            },
            _ => false,
        }
    } else {
        match n.checked_mul(bytes) {
            Some(step) => align(start, bytes).checked_add(step).is_some(),
            None => false,
        }
    }
}

/// A fixed burst stays at its start address.
pub proof fn lemma_fixed_stays(start: u64, bytes: u64, len: u64, n: u64)
    ensures
        beat(start, bytes, FIXED, len, n) == start,
{
}

/// The beats of an incrementing burst lie `bytes` apart, from the aligned
/// start address on.
pub proof fn lemma_incr_steps(start: u64, bytes: u64, len: u64, n: u64)
    requires
        n < u64::MAX,
    ensures
        beat(start, bytes, INCR, len, 0) == aligned(start, bytes),
        beat(start, bytes, INCR, len, (n + 1) as u64) == beat(start, bytes, INCR, len, n) + bytes,
{
    assert((n + 1) * bytes == n * bytes + bytes) by (nonlinear_arith);
}

/// A wrapping burst starts at its start address and never leaves the block of
/// its own size that holds that address.
pub proof fn lemma_wrap_stays_in_block(start: u64, bytes: u64, len: u64, n: u64)
    requires
        bytes > 0,
    ensures
        ({
            let block = block_size(bytes, len);
            &&& beat(start, bytes, WRAP, len, 0) == start
            &&& beat(start, bytes, WRAP, len, n) / block == start as int / block
        }),
{
    let block = block_size(bytes, len);
    lemma_wrap_parts(start, bytes, len, 0);
    lemma_wrap_parts(start, bytes, len, n);
    assert(0 * bytes == 0);
    let q = start as int / block;
    let r = (start + n * bytes) % block;
    assert((q * block + r) / block == q) by (nonlinear_arith)
        requires
            block > 0,
            0 <= r < block,
    ;
}

/// No two beats of a wrapping burst go to the same address.
pub proof fn lemma_wrap_visits_distinct(start: u64, bytes: u64, len: u64, i: u64, j: u64)
    requires
        bytes > 0,
        i < j <= len,
    ensures
        beat(start, bytes, WRAP, len, i) != beat(start, bytes, WRAP, len, j),
{
    let block = block_size(bytes, len);
    lemma_wrap_parts(start, bytes, len, i);
    lemma_wrap_parts(start, bytes, len, j);
    let a = start + i * bytes;
    let b = start + j * bytes;
    lemma_fundamental_div_mod(a, block);
    lemma_fundamental_div_mod(b, block);
    let (qa, qb) = (a / block, b / block);
    let d = j - i;
    assert(b - a == d * bytes) by (nonlinear_arith)
        requires
            a == start + i * bytes,
            b == start + j * bytes,
            d == j - i,
    ;
    assert(0 < d * bytes < block) by (nonlinear_arith)
        requires
            0 < d <= len,
            bytes > 0,
            block == (len + 1) * bytes,
    ;
    if a % block == b % block {
        let q = qb - qa;
        assert(b - a == block * q) by (nonlinear_arith)
            requires
                a == block * qa + a % block,
                b == block * qb + b % block,
                a % block == b % block,
                q == qb - qa,
        ;
        assert(false) by (nonlinear_arith)
            requires
                0 < block * q < block,
                block > 0,
        ;
    }
}

/// The address of beat `n` by the burst code: 0 stays at the start address, 2 goes
/// on by `bytes` within the block of `(len + 1) * bytes` that holds the start
/// address, and any other code goes on by `bytes` from the start address with its
/// low bits cleared.
pub proof fn lemma_beat_by_code(start: u64, bytes: u64, code: u64, len: u64, n: u64)
    requires
        bytes > 0,
    ensures
        ({
            let a = beat(start, bytes, code, len, n);
            let block = (len + 1) * bytes;
            &&& code == 0 ==> a == start
            &&& code == 2 ==> a / block == start as int / block && a % block == (start + n * bytes)
                % block
            &&& code != 0 && code != 2 ==> a == (start & !((bytes - 1) as u64)) + n * bytes
        }),
{
    let block = block_size(bytes, len);
    lemma_wrap_parts(start, bytes, len, n);
    let q = start as int / block;
    let r = (start + n * bytes) % block;
    assert((q * block + r) / block == q && (q * block + r) % block == r) by (nonlinear_arith)
        requires
            block > 0,
            0 <= r < block,
    ;
}

/// The address of a beat of a burst that stays is always computed; that of one
/// that goes on, where it fits in 64 bits; and that of one that wraps, where the
/// block, the way from its start and the address fit.
pub proof fn lemma_fits_by_code(start: u64, bytes: u64, code: u64, len: u64, n: u64)
    requires
        bytes > 0,
    ensures
        ({
            let block = (len + 1) * bytes;
            &&& code == 0 ==> beat_fits(start, bytes, code, len, n)
            &&& code != 0 && code != 2 ==> (beat_fits(start, bytes, code, len, n) <==> (start & !((
            bytes - 1) as u64)) + n * bytes <= u64::MAX)
            &&& code == 2 && len < u64::MAX && block <= u64::MAX && start as int % block + n * bytes
                <= u64::MAX && start - start as int % block + block <= u64::MAX ==> beat_fits(
                start,
                bytes,
                code,
                len,
                n,
            )
        }),
{
    lemma_wrap_parts(start, bytes, len, n);
}

/// An address that is computed is a number of 64 bits.
pub proof fn lemma_beat_is_in_range(start: u64, bytes: u64, kind: u64, len: u64, n: u64)
    requires
        beat_fits(start, bytes, kind, len, n),
    ensures
        0 <= beat(start, bytes, kind, len, n) <= u64::MAX,
{
    if kind == WRAP {
        lemma_wrap_parts(start, bytes, len, n);
    }
    assert(n * bytes >= 0) by (nonlinear_arith);
}

} // verus!
