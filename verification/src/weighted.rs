//! Weighted categorical sampling through rand_distr's alias method,
//! behind trusted declarations.
//!
//! The alias tables are opaque to the verifier, so each sampler type holds
//! its `WeightedAliasIndex` in a hidden field; the weight list a sampler
//! was built from is given a name, and every wrapper speaks over that name.

use vstd::prelude::*;

verus! {

/// An alias sampler over `u128` fixed-point bandwidth weights.
#[verifier::external_body]
pub struct WeightSampler {
    dist: rand_distr::weighted_alias::WeightedAliasIndex<u128>,
}

/// An alias sampler over `usize` bin counts.
#[verifier::external_body]
pub struct CountSampler {
    dist: rand_distr::weighted_alias::WeightedAliasIndex<usize>,
}

/// Sum of a sequence of `u128` weights.
pub open spec fn sum_u128(s: Seq<u128>) -> int
    decreases s.len(),
{
    if s.len() == 0 {
        0
    } else {
        sum_u128(s.drop_last()) + s.last()
    }
}

/// Sum of a sequence of `usize` weights.
pub open spec fn sum_usize(s: Seq<usize>) -> int
    decreases s.len(),
{
    if s.len() == 0 {
        0
    } else {
        sum_usize(s.drop_last()) + s.last()
    }
}

/// The weight list a `WeightSampler` was built from.
pub uninterp spec fn weight_sampler_weights(w: WeightSampler) -> Seq<u128>;

/// The count list a `CountSampler` was built from.
pub uninterp spec fn count_sampler_weights(w: CountSampler) -> Seq<usize>;

impl WeightSampler {
    /// Relies on rand_distr's `WeightedAliasIndex::new`, which errs exactly
    /// when the list is empty, longer than `u32::MAX`, a weight exceeds
    /// `MAX / len`, or the sum of weights is zero.
    #[verifier::external_body]
    pub fn new(weights: &Vec<u128>) -> (r: Option<WeightSampler>)
        ensures
            r is Some <==> (0 < weights@.len() <= u32::MAX && (forall|i: int|
                0 <= i < weights@.len() ==> weights@[i] <= u128::MAX / (
                weights@.len() as u128)) && sum_u128(weights@) > 0),
            r is Some ==> weight_sampler_weights(r->0) == weights@,
    {
        match rand_distr::weighted_alias::WeightedAliasIndex::new(weights.clone()) {
            Ok(dist) => Some(WeightSampler { dist }),
            Err(_) => None,
        }
    }

    /// Relies on `Distribution::<usize>::sample` for `WeightedAliasIndex`:
    /// the draw is an index into the weight list the sampler was built from.
    #[verifier::external_body]
    pub fn sample(&self, rng: &mut rand::rngs::SmallRng) -> (r: usize)
        ensures
            r < weight_sampler_weights(*self).len(),
    {
        rand_distr::Distribution::sample(&self.dist, rng)
    }
}

impl Clone for WeightSampler {
    /// Relies on `WeightedAliasIndex`'s `Clone`, which copies the alias
    /// tables unchanged.
    #[verifier::external_body]
    fn clone(&self) -> (r: Self)
        ensures
            weight_sampler_weights(r) == weight_sampler_weights(*self),
    {
        WeightSampler { dist: self.dist.clone() }
    }
}

impl Clone for CountSampler {
    /// Relies on `WeightedAliasIndex`'s `Clone`, which copies the alias
    /// tables unchanged.
    #[verifier::external_body]
    fn clone(&self) -> (r: Self)
        ensures
            count_sampler_weights(r) == count_sampler_weights(*self),
    {
        CountSampler { dist: self.dist.clone() }
    }
}

impl CountSampler {
    /// Relies on rand_distr's `WeightedAliasIndex::new`, as for
    /// `WeightSampler::new`, with `usize` weights.
    #[verifier::external_body]
    pub fn new(weights: &Vec<usize>) -> (r: Option<CountSampler>)
        ensures
            r is Some <==> (0 < weights@.len() <= u32::MAX && (forall|i: int|
                0 <= i < weights@.len() ==> weights@[i] <= usize::MAX / (
                weights@.len() as usize)) && sum_usize(weights@) > 0),
            r is Some ==> count_sampler_weights(r->0) == weights@,
    {
        match rand_distr::weighted_alias::WeightedAliasIndex::new(weights.clone()) {
            Ok(dist) => Some(CountSampler { dist }),
            Err(_) => None,
        }
    }

    /// Relies on `Distribution::<usize>::sample` for `WeightedAliasIndex`:
    /// the draw is an index into the count list the sampler was built from.
    #[verifier::external_body]
    pub fn sample(&self, rng: &mut rand::rngs::SmallRng) -> (r: usize)
        ensures
            r < count_sampler_weights(*self).len(),
    {
        rand_distr::Distribution::sample(&self.dist, rng)
    }
}

} // verus!
