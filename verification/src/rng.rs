//! The boundary to the random-number generator: the generator type and the
//! few draws the sampler needs, each behind a trusted contract over rand.

use vstd::prelude::*;

use rand::Rng;
use rand::SeedableRng;
use rand::seq::SliceRandom;

verus! {

#[verifier::external_type_specification]
#[verifier::external_body]
pub struct ExStdRng(rand::rngs::StdRng);

/// A weighted discrete distribution over `u64` weights, kept opaque: rand's
/// `WeightedIndex` carries generic bounds that cannot be declared here, so
/// the distribution lives behind this struct and is reached only through
/// the trusted calls below.
#[verifier::external_body]
pub struct WeightedU64 {
    inner: rand::distributions::WeightedIndex<u64>,
}

/// The weights a weighted distribution was built from.
pub uninterp spec fn weights_of(w: WeightedU64) -> Seq<u64>;

/// The total of a weight list.
pub open spec fn sum_weights(s: Seq<u64>) -> int
    decreases s.len(),
{
    if s.len() == 0 {
        0
    } else {
        sum_weights(s.drop_last()) + s.last()
    }
}

/// Relies on rand's `SeedableRng::seed_from_u64` for `StdRng`: a generator
/// built deterministically from the seed.
#[verifier::external_body]
pub fn rng_from_seed(seed: u64) -> rand::rngs::StdRng {
    rand::rngs::StdRng::seed_from_u64(seed)
}

/// Relies on rand's `Rng::gen_range` over `0..bound`: a value below the
/// bound; the range is non-empty, so the call cannot panic.
#[verifier::external_body]
pub fn gen_range_u64(rng: &mut rand::rngs::StdRng, bound: u64) -> (r: u64)
    requires
        bound > 0,
    ensures
        r < bound,
{
    rng.gen_range(0..bound)
}

/// Relies on rand's `Rng::gen_range` over `0..bound` for `u128`.
#[verifier::external_body]
pub fn gen_range_u128(rng: &mut rand::rngs::StdRng, bound: u128) -> (r: u128)
    requires
        bound > 0,
    ensures
        r < bound,
{
    rng.gen_range(0..bound)
}

/// Relies on rand's `Rng::gen_range` over `0..bound` for `usize`.
#[verifier::external_body]
pub fn gen_range_usize(rng: &mut rand::rngs::StdRng, bound: usize) -> (r: usize)
    requires
        bound > 0,
    ensures
        r < bound,
{
    rng.gen_range(0..bound)
}

/// Relies on `WeightedIndex::new` over `u64` weights: when the total fits
/// the machine range it succeeds exactly on a non-empty list with a
/// positive entry, and the distribution then carries those weights.  The
/// call itself accumulates the total unchecked, so a wrapping sum is kept
/// out by the precondition.
#[verifier::external_body]
pub fn weighted_index_new(weights: &Vec<u64>) -> (r: Option<WeightedU64>)
    requires
        sum_weights(weights@) <= u64::MAX,
    ensures
        r is Some <==> (weights@.len() > 0 && (exists|k: int|
            0 <= k < weights@.len() && weights@[k] > 0)),
        r matches Some(w) ==> weights_of(w) == weights@,
{
    match rand::distributions::WeightedIndex::new(weights.iter()) {
        Ok(w) => Some(WeightedU64 { inner: w }),
        Err(_) => None,
    }
}

/// Relies on `WeightedIndex`'s `Distribution::sample`: the drawn index picks
/// one of the weights, and never one that is zero.
#[verifier::external_body]
pub fn weighted_sample(w: &WeightedU64, rng: &mut rand::rngs::StdRng) -> (r: usize)
    requires
        weights_of(*w).len() > 0,
    ensures
        r < weights_of(*w).len(),
        weights_of(*w)[r as int] > 0,
{
    rng.sample(&w.inner)
}

/// Relies on `SliceRandom::choose_multiple`: `amount` distinct positions of
/// the slice (all of them when it is shorter), their values cloned out.
#[verifier::external_body]
pub fn choose_multiple_usize(v: &Vec<usize>, amount: usize, rng: &mut rand::rngs::StdRng) -> (r:
    Vec<usize>)
    ensures
        r@.len() == (if amount <= v@.len() {
            amount as int
        } else {
            v@.len() as int
        }),
        forall|k: int| 0 <= k < r@.len() ==> v@.contains(#[trigger] r@[k]),
{
    v.as_slice().choose_multiple(rng, amount).cloned().collect()
}

} // verus!
