//! A seeded, portable pseudo-random generator: a 64-bit mixing step over a
//! caller-owned seed word, rejection-sampled ranged draws, and an in-place
//! Fisher-Yates shuffle. Every draw is a function of the seed alone, so a run
//! is reproducible from its starting seed.

use crate::error::GraphError;
use vstd::prelude::*;

verus! {

/// The additive constant of the mixing step.
pub const WY_PRIME0: u64 = 0xa076_1d64_78bd_642f;

/// The xor constant of the mixing step.
pub const WY_PRIME1: u64 = 0xe703_7ed1_a0b4_28db;

/// The 128-bit folding multiply at the heart of the generator.
pub open spec fn spec_wymum(a: u64, b: u64) -> u64 {
    ((((a * b) as u128) >> 64) ^ ((a * b) as u128)) as u64
}

/// The seed after one advance of the generator.
pub open spec fn spec_next(seed: u64) -> u64 {
    seed.wrapping_add(WY_PRIME0)
}

/// The raw 64-bit word one advance of the generator yields.
pub open spec fn spec_draw(seed: u64) -> u64 {
    spec_wymum(spec_next(seed), spec_next(seed) ^ WY_PRIME1)
}

/// The largest raw draw accepted for a span: draws at or above it would bias
/// the reduction modulo `span`.
pub open spec fn spec_limit(span: u64) -> u64
    recommends
        span > 0,
{
    (u64::MAX - (u64::MAX as int % span as int)) as u64
}

/// The seed and accepted raw draw after rejection sampling with at most
/// `tries` redraws: the first draw under the limit wins; when the fuel runs
/// out the last draw is used as it stands.
pub open spec fn spec_range_loop(seed: u64, span: u64, tries: nat) -> (u64, u64)
    decreases tries,
{
    let s2 = spec_next(seed);
    let x = spec_draw(seed);
    if x < spec_limit(span) || tries == 0 {
        (s2, x)
    } else {
        spec_range_loop(s2, span, (tries - 1) as nat)
    }
}

/// The seed and result of one ranged draw from `[start, end)`.
pub open spec fn spec_range(start: u64, end: u64, seed: u64) -> (u64, u64)
    recommends
        start < end,
{
    let d = spec_range_loop(seed, (end - start) as u64, 64);
    (d.0, (start + (d.1 as int % (end - start) as int)) as u64)
}

fn wymum(a: u64, b: u64) -> (r: u64)
    ensures
        r == spec_wymum(a, b),
{
    proof {
        assert((a as u128) * (b as u128) <= u128::MAX) by (nonlinear_arith)
            requires
                a <= u64::MAX,
                b <= u64::MAX,
        ;
    }
    let m: u128 = (a as u128) * (b as u128);
    #[verifier::truncate]
    let r = ((m >> 64) ^ m) as u64;
    r
}

/// Advances the seed by the additive constant and returns a 64-bit mix of the
/// new seed with its xor-masked image. Deterministic in the seed alone.
pub fn wyrng(seed: &mut u64) -> (r: u64)
    ensures
        *final(seed) == spec_next(*old(seed)),
        r == spec_draw(*old(seed)),
{
    *seed = seed.wrapping_add(WY_PRIME0);
    wymum(*seed, *seed ^ WY_PRIME1)
}

/// A ranged draw: rejection-samples raw 64-bit draws to remove modulo bias,
/// then reduces into `[start, end)`. After a fixed number of rejected draws
/// the reduction is applied to the last draw directly, so that the loop is
/// bounded; with a sound generator that fallback is never reached in
/// practice. The result and the new seed are functions of the old seed alone.
pub fn wyrng_range(start: u64, end: u64, seed: &mut u64) -> (r: u64)
    requires
        start < end,
    ensures
        start <= r < end,
        r == spec_range(start, end, *old(seed)).1,
        *final(seed) == spec_range(start, end, *old(seed)).0,
{
    let span = end - start;
    let limit = u64::MAX - u64::MAX % span;
    let ghost sl = spec_range_loop(*old(seed), span, 64);
    let mut x: u64 = wyrng(seed);
    proof {
        assert(limit == spec_limit(span));
        assert(sl == if x < limit {
            (*seed, x)
        } else {
            spec_range_loop(*seed, span, 63)
        });
    }
    let mut tries: usize = 64;
    while x >= limit && tries > 0
        invariant
            0 < span,
            limit == spec_limit(span),
            sl == spec_range_loop(*old(seed), span, 64),
            tries <= 64,
            (if x < limit || tries == 0 {
                sl == (*seed, x)
            } else {
                sl == spec_range_loop(*seed, span, (tries - 1) as nat)
            }),
        decreases tries,
    {
        let ghost s_pre = *seed;
        let ghost t_pre = tries;
        x = wyrng(seed);
        tries = tries - 1;
        proof {
            assert(sl == spec_range_loop(s_pre, span, (t_pre - 1) as nat));
            assert(spec_range_loop(s_pre, span, (t_pre - 1) as nat) == (if x < limit || (t_pre - 1)
                as nat == 0 {
                (*seed, x)
            } else {
                spec_range_loop(*seed, span, ((t_pre - 1) as nat - 1) as nat)
            }));
        }
    }
    proof {
        assert(sl == (*seed, x));
    }
    let m = x % span;
    assert(m < span);
    m + start
}

/// Swaps the elements at positions `j` and `i`, leaving the rest in place.
fn swap_positions<T>(data: &mut Vec<T>, j: usize, i: usize)
    requires
        j < i,
        i < old(data)@.len(),
    ensures
        final(data)@.len() == old(data)@.len(),
        final(data)@.to_multiset() == old(data)@.to_multiset(),
        final(data)@ == old(data)@.update(j as int, old(data)@[i as int]).update(
            i as int,
            old(data)@[j as int],
        ),
{
    let ghost s0 = data@;
    let a = data.remove(i);
    let b = data.remove(j);
    data.insert(j, a);
    data.insert(i, b);
    proof {
        broadcast use vstd::seq_lib::group_to_multiset_ensures;

        let target = s0.update(j as int, s0[i as int]).update(i as int, s0[j as int]);
        assert forall|k: int| 0 <= k < target.len() implies data@[k] == target[k] by {
            if k < j {
            } else if k == j {
            } else if k < i {
            } else if k == i {
            }
        }
        assert(data@ =~= target);
        assert(s0.remove(i as int).to_multiset() =~= s0.to_multiset().remove(s0[i as int]));
        assert(data@.to_multiset() =~= s0.to_multiset());
    }
}

/// The sequence and seed after the Fisher-Yates pass has handled positions
/// `i` down to `1`: each step draws a swap index for the current position
/// from the seeded generator.
pub open spec fn spec_shuffle_step<T>(s: Seq<T>, seed: u64, i: nat) -> (Seq<T>, u64)
    decreases i,
{
    if i < 1 || i >= s.len() {
        (s, seed)
    } else {
        let d = spec_range(0, (i + 1) as u64, seed);
        let j = d.1 as int;
        let s2 = if j != i {
            s.update(j, s[i as int]).update(i as int, s[j])
        } else {
            s
        };
        spec_shuffle_step(s2, d.0, (i - 1) as nat)
    }
}

/// The sequence and seed after an in-place Fisher-Yates shuffle.
pub open spec fn spec_shuffle<T>(s: Seq<T>, seed: u64) -> (Seq<T>, u64) {
    if s.len() <= 1 {
        (s, seed)
    } else {
        spec_shuffle_step(s, seed, (s.len() - 1) as nat)
    }
}

/// An in-place Fisher-Yates shuffle driven by the seeded generator. The
/// result holds exactly the elements of the input, rearranged as a function
/// of the starting seed and nothing else.
pub fn shuffle<T>(data: &mut Vec<T>, seed: &mut u64) -> (r: Result<(), GraphError>)
    ensures
        r.is_ok(),
        final(data)@.len() == old(data)@.len(),
        final(data)@.to_multiset() == old(data)@.to_multiset(),
        final(data)@ == spec_shuffle(old(data)@, *old(seed)).0,
        *final(seed) == spec_shuffle(old(data)@, *old(seed)).1,
{
    let n = data.len();
    if n <= 1 {
        return Ok(());
    }
    let ghost target = spec_shuffle(old(data)@, *old(seed));
    proof {
        assert(target == spec_shuffle_step(old(data)@, *old(seed), (n - 1) as nat));
    }
    let mut i: usize = n - 1;
    while i >= 1
        invariant
            data@.len() == old(data)@.len(),
            data@.len() <= usize::MAX,
            data@.to_multiset() == old(data)@.to_multiset(),
            i < data@.len(),
            target == spec_shuffle(old(data)@, *old(seed)),
            target == spec_shuffle_step(data@, *seed, i as nat),
        decreases i,
    {
        let ghost s_pre = data@;
        let ghost seed_pre = *seed;
        let j64 = wyrng_range(0, (i + 1) as u64, seed);
        let j = j64 as usize;
        assert(j <= i);
        if j != i {
            swap_positions(data, j, i);
        }
        proof {
            let d = spec_range(0, (i + 1) as u64, seed_pre);
            assert(d.1 == j64 && d.0 == *seed);
            assert(spec_shuffle_step(s_pre, seed_pre, i as nat) == spec_shuffle_step(
                data@,
                *seed,
                (i - 1) as nat,
            ));
        }
        i = i - 1;
    }
    proof {
        assert(spec_shuffle_step(data@, *seed, 0) == (data@, *seed));
    }
    Ok(())
}

} // verus!
