//! A deterministic random sequence and the backpressure drawn from it.

use vstd::prelude::*;

verus! {

/// The state after `x` in the xorshift64 sequence.
pub open spec fn xorshift(x: u64) -> u64 {
    let a = x ^ (x << 13u64);
    let b = a ^ (a >> 7u64);
    b ^ (b << 17u64)
}

/// The state after `n` steps from `x`.
pub open spec fn xorshift_nth(x: u64, n: nat) -> u64
    decreases n,
{
    if n == 0 {
        x
    } else {
        xorshift(xorshift_nth(x, (n - 1) as nat))
    }
}

/// Advances the state and returns the new one.
pub fn next_rand(state: &mut u64) -> (r: u64)
    ensures
        *final(state) == xorshift(*old(state)),
        r == xorshift(*old(state)),
{
    let mut x: u64 = *state;
    x = x ^ (x << 13u64);
    x = x ^ (x >> 7u64);
    x = x ^ (x << 17u64);
    *state = x;
    x
}

/// Whether a cycle that draws from state `lfsr` is stalled under `weight`.
pub open spec fn stalls(lfsr: u64, weight: Option<u64>) -> bool {
    weight matches Some(w) && (xorshift(lfsr) & 0xff) < w
}

/// The generator's state after such a cycle.
pub open spec fn after_stall(lfsr: u64, weight: Option<u64>) -> u64 {
    match weight {
        Some(_) => xorshift(lfsr),
        None => lfsr,
    }
}

/// Reports whether to stall this cycle: with probability `weight / 256`.
/// An unset weight never stalls and leaves the generator alone.
pub fn stall_now(lfsr: &mut u64, weight: Option<u64>) -> (r: bool)
    ensures
        r == stalls(*old(lfsr), weight),
        *final(lfsr) == after_stall(*old(lfsr), weight),
{
    match weight {
        Some(w) => {
            let x: u64 = next_rand(lfsr);
            (x & 0xff) < w
        },
        None => false,
    }
}

/// The generator's state from a seed: never zero, where it would stick.
pub open spec fn seeded(seed: u64) -> u64 {
    seed | 1
}

/// The state of the traffic generator: the seed with its halves exchanged,
/// never zero.
pub open spec fn traffic_seeded(seed: u64) -> u64 {
    ((seed << 32u64) | (seed >> 32u64)) | 1
}

/// The generator's state from a seed.
pub fn seed_lfsr(seed: u64) -> (r: u64)
    ensures
        r == seeded(seed),
{
    seed | 1
}

/// The traffic generator's state from a seed.
pub fn seed_traffic(seed: u64) -> (r: u64)
    ensures
        r == traffic_seeded(seed),
{
    ((seed << 32u64) | (seed >> 32u64)) | 1
}

/// The sequence is xorshift64 with the shifts 13, 7 and 17.
pub proof fn lemma_rand_is_xorshift64(x: u64, a: u64, b: u64, c: u64)
    requires
        a == x ^ (x << 13u64),
        b == a ^ (a >> 7u64),
        c == b ^ (b << 17u64),
    ensures
        xorshift(x) == c,
        xorshift_nth(x, 0) == x,
        xorshift_nth(x, 1) == c,
{
    assert(xorshift_nth(x, 0) == x);
}

/// A later state is reached step by step.
pub proof fn lemma_rand_steps_add_up(x: u64, n: nat, m: nat)
    ensures
        xorshift_nth(x, n + m) == xorshift_nth(xorshift_nth(x, n), m),
    decreases m,
{
    if m > 0 {
        lemma_rand_steps_add_up(x, n, (m - 1) as nat);
    }
}

/// A seeded generator starts away from zero: at the seed, made odd, or at the
/// seed with its halves exchanged, made odd.
pub proof fn lemma_seeds_are_not_zero(seed: u64)
    ensures
        seeded(seed) != 0,
        traffic_seeded(seed) != 0,
        seeded(seed) == (if seed % 2 == 0 {
            seed + 1
        } else {
            seed as int
        }),
        traffic_seeded(seed) % 0x1_0000_0000 == (if (seed / 0x1_0000_0000) % 2 == 0 {
            seed / 0x1_0000_0000 + 1
        } else {
            (seed / 0x1_0000_0000) as int
        }),
        traffic_seeded(seed) / 0x1_0000_0000 == seed % 0x1_0000_0000,
{
    assert(seed | 1 == (if seed % 2 == 0 {
        seed + 1
    } else {
        seed as int
    })) by (bit_vector);
    let t = traffic_seeded(seed);
    assert(t % 0x1_0000_0000 == (if (seed / 0x1_0000_0000) % 2 == 0 {
        seed / 0x1_0000_0000 + 1
    } else {
        (seed / 0x1_0000_0000) as int
    }) && t / 0x1_0000_0000 == seed % 0x1_0000_0000 && t != 0) by (bit_vector)
        requires
            t == ((seed << 32u64) | (seed >> 32u64)) | 1,
    ;
}

/// The generator never falls into the zero state, from which every later
/// value would be zero.
pub proof fn lemma_rand_never_sticks(x: u64, n: nat)
    requires
        x != 0,
    ensures
        xorshift_nth(x, n) != 0,
    decreases n,
{
    if n > 0 {
        lemma_rand_never_sticks(x, (n - 1) as nat);
        lemma_step_keeps_nonzero(xorshift_nth(x, (n - 1) as nat));
    }
}

proof fn lemma_step_keeps_nonzero(x: u64)
    requires
        x != 0,
    ensures
        xorshift(x) != 0,
{
    let a = x ^ (x << 13u64);
    assert(a != 0) by (bit_vector)
        requires
            x != 0,
            a == x ^ (x << 13u64),
    ;
    let b = a ^ (a >> 7u64);
    assert(b != 0) by (bit_vector)
        requires
            a != 0,
            b == a ^ (a >> 7u64),
    ;
    assert(b ^ (b << 17u64) != 0) by (bit_vector)
        requires
            b != 0,
    ;
}

/// Two different states never run into the same next state, so a sequence
/// does not lose values.
pub proof fn lemma_rand_is_injective(x: u64, y: u64)
    requires
        xorshift(x) == xorshift(y),
    ensures
        x == y,
{
    let a = x ^ (x << 13u64);
    let c = y ^ (y << 13u64);
    let b = a ^ (a >> 7u64);
    let d = c ^ (c >> 7u64);
    assert(b == d) by (bit_vector)
        requires
            b ^ (b << 17u64) == d ^ (d << 17u64),
    ;
    assert(a == c) by (bit_vector)
        requires
            a ^ (a >> 7u64) == c ^ (c >> 7u64),
    ;
    assert(x == y) by (bit_vector)
        requires
            x ^ (x << 13u64) == y ^ (y << 13u64),
    ;
}

/// A cycle stalls where the next random number, modulo 256, is below the weight.
/// So a weight of zero never stalls and one of 256 or more always does. Without a
/// weight nothing stalls and nothing is drawn.
pub proof fn lemma_stall_extremes(lfsr: u64, weight: u64)
    ensures
        stalls(lfsr, Some(weight)) <==> xorshift(lfsr) % 256 < weight,
        after_stall(lfsr, Some(weight)) == xorshift(lfsr),
        !stalls(lfsr, None),
        after_stall(lfsr, None) == lfsr,
        weight == 0 ==> !stalls(lfsr, Some(weight)),
        weight >= 256 ==> stalls(lfsr, Some(weight)),
{
    let x = xorshift(lfsr);
    assert(x & 0xff == x % 256) by (bit_vector);
}

} // verus!
