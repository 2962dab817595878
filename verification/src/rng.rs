//! Random sources for matrix generation.
//!
//! Generation routines take an explicit seed, so that they are
//! deterministic and testable; the pseudo-random draws themselves come
//! from the `fastrand` and `rand` crates through the trusted calls below.
//! Nothing is assumed of a drawn value beyond its range.

use vstd::prelude::*;

use rand::SeedableRng;

verus! {

broadcast use vstd::std_specs::hash::group_hash_axioms, vstd::seq_lib::lemma_seq_contains_after_push;

#[verifier::external_type_specification]
#[verifier::external_body]
pub struct ExFastrandRng(fastrand::Rng);

#[verifier::external_type_specification]
#[verifier::external_body]
pub struct ExStdRng(rand::rngs::StdRng);

/// Relies on `fastrand::Rng::with_seed`: a generator started from the
/// given seed.
#[verifier::external_body]
pub(crate) fn rng_with_seed(seed: u64) -> fastrand::Rng {
    fastrand::Rng::with_seed(seed)
}

/// Relies on `fastrand::Rng::u32` over the full range: a random word.
#[verifier::external_body]
pub(crate) fn rng_next_u32(rng: &mut fastrand::Rng) -> u32 {
    rng.u32(..)
}

/// Relies on `fastrand::Rng::usize` over `0..bound`: a random index below
/// `bound`. The call panics on an empty range, so the bound must be
/// positive.
#[verifier::external_body]
pub(crate) fn rng_index_below(rng: &mut fastrand::Rng, bound: usize) -> (r: usize)
    requires
        bound >= 1,
    ensures
        r < bound,
{
    rng.usize(..bound)
}

/// Relies on rand's `StdRng` (`SeedableRng::seed_from_u64`): a generator
/// started from the given seed.
#[verifier::external_body]
pub(crate) fn std_rng_from_seed(seed: u64) -> rand::rngs::StdRng {
    rand::rngs::StdRng::seed_from_u64(seed)
}

/// Relies on `rand::seq::index::sample`: exactly `amount` distinct indices
/// drawn from `0..length`, returned in random order. The call panics when
/// `amount > length`.
#[verifier::external_body]
pub(crate) fn sample_distinct_indices(
    rng: &mut rand::rngs::StdRng,
    length: usize,
    amount: usize,
) -> (r: Vec<usize>)
    requires
        amount <= length,
    ensures
        r@.len() == amount,
        forall|k: int| 0 <= k < r@.len() ==> r@[k] < length,
        forall|k1: int, k2: int| 0 <= k1 < k2 < r@.len() ==> r@[k1] != r@[k2],
{
    rand::seq::index::sample(rng, length, amount).into_vec()
}

/// A word drawn uniformly from [0, 1): 23 random bits fill the mantissa of
/// a word in [1, 2), from which one is subtracted.
pub(crate) fn random_unit_word(rng: &mut fastrand::Rng) -> u32 {
    let x = rng_next_u32(rng);
    let m = (x >> 9) | 0x3F80_0000u32;
    crate::scalar::word_sub(m, 0x3F80_0000u32)
}

/// Draw `amount` distinct indices below `total`, uniformly without
/// replacement, working in memory proportional to `amount`.
pub(crate) fn draw_distinct_indices(
    rng: &mut fastrand::Rng,
    total: usize,
    amount: usize,
) -> (r: Vec<usize>)
    requires
        amount <= total,
    ensures
        r@.len() == amount,
        forall|k: int| 0 <= k < r@.len() ==> r@[k] < total,
        forall|k1: int, k2: int| 0 <= k1 < k2 < r@.len() ==> r@[k1] != r@[k2],
{
    let mut chosen: std::collections::HashSet<usize> = std::collections::HashSet::new();
    let mut out: Vec<usize> = Vec::new();
    let start = total - amount;
    let mut j = start;
    while j < total
        invariant
            start == total - amount,
            start <= j <= total,
            out@.len() == j - start,
            forall|k: int| 0 <= k < out@.len() ==> out@[k] < j,
            forall|k1: int, k2: int|
                0 <= k1 < k2 < out@.len() ==> out@[k1] != out@[k2],
            forall|x: usize| chosen@.contains(x) <==> out@.contains(x),
        decreases total - j,
    {
        let t = rng_index_below(rng, j + 1);
        if chosen.insert(t) {
            proof {
                assert(forall|k: int| 0 <= k < out@.len() ==> out@[k] != t);
            }
            out.push(t);
        } else {
            proof {
                assert(out@.contains(j) ==> exists|k: int|
                    0 <= k < out@.len() && out@[k] == j);
                assert(forall|k: int| 0 <= k < out@.len() ==> out@[k] != j);
            }
            chosen.insert(j);
            out.push(j);
        }
        j = j + 1;
    }
    out
}

} // verus!
