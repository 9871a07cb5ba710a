//! Categorical sampling over reward weights, and the random source behind
//! it. The draws come from `rand`; everything stated of them holds of every
//! outcome.

use vstd::prelude::*;

verus! {

#[verifier::external_type_specification]
#[verifier::external_body]
pub struct ExStdRng(rand::rngs::StdRng);

/// Relies on rand's `SeedableRng::seed_from_u64` for `StdRng`: builds a
/// random source from a 64-bit seed.
#[verifier::external_body]
pub fn rng_from_seed(seed: u64) -> rand::rngs::StdRng {
    <rand::rngs::StdRng as rand::SeedableRng>::seed_from_u64(seed)
}

/// Relies on `rand::random`: a fresh 64-bit seed from the thread-local
/// generator. Nothing is known of the value.
#[verifier::external_body]
pub fn random_seed() -> u64 {
    rand::random::<u64>()
}

pub open spec fn spec_sum(weights: Seq<u128>) -> int
    decreases weights.len(),
{
    if weights.len() == 0 {
        0
    } else {
        weights[0] + spec_sum(weights.drop_first())
    }
}

pub proof fn lemma_sum_push(s: Seq<u128>, v: u128)
    ensures
        spec_sum(s.push(v)) == spec_sum(s) + v,
    decreases s.len(),
{
    if s.len() == 0 {
        assert(s.push(v)[0] == v);
        assert(s.push(v).drop_first() =~= Seq::<u128>::empty());
        assert(spec_sum(s.push(v)) == v + spec_sum(Seq::<u128>::empty()));
    } else {
        assert(s.push(v)[0] == s[0]);
        assert(s.push(v).drop_first() =~= s.drop_first().push(v));
        lemma_sum_push(s.drop_first(), v);
    }
}

/// A sum of weights that all stay below a bound stays below the bound times
/// the count.
pub proof fn lemma_sum_bounded(s: Seq<u128>, b: int)
    requires
        forall|i: int| 0 <= i < s.len() ==> (#[trigger] s[i]) <= b,
        0 <= b,
    ensures
        0 <= spec_sum(s) <= s.len() * b,
    decreases s.len(),
{
    if s.len() == 0 {
        assert(s.len() * b == 0) by (nonlinear_arith)
            requires s.len() == 0;
    } else {
        lemma_sum_bounded(s.drop_first(), b);
        assert(s.drop_first().len() == s.len() - 1);
        assert((s.len() - 1) * b + b == s.len() * b) by (nonlinear_arith);
    }
}

/// A sum of weights is zero exactly when every weight is zero.
pub proof fn lemma_sum_zero_iff(s: Seq<u128>)
    ensures
        spec_sum(s) == 0 <==> (forall|i: int| 0 <= i < s.len() ==> s[i] == 0),
        spec_sum(s) >= 0,
    decreases s.len(),
{
    if s.len() > 0 {
        lemma_sum_zero_iff(s.drop_first());
        assert(forall|i: int|
            0 <= i < s.drop_first().len() ==> s.drop_first()[i] == s[i + 1]);
        if spec_sum(s) == 0 {
            assert forall|i: int| 0 <= i < s.len() implies s[i] == 0 by {
                if i > 0 {
                    assert(s.drop_first()[i - 1] == s[i]);
                }
            }
        }
        if forall|i: int| 0 <= i < s.len() ==> s[i] == 0 {
            assert(s[0] == 0);
        }
    }
}

/// Relies on rand's `WeightedIndex::new` and `Distribution::sample`: `new`
/// fails exactly on an empty weight list or an all-zero total (unsigned
/// weights are never individually invalid), and a sampled index always
/// carries a nonzero weight.
#[verifier::external_body]
fn sample_weighted_index(rng: &mut rand::rngs::StdRng, weights: &Vec<u128>) -> (r: Option<usize>)
    requires
        spec_sum(weights@) <= u128::MAX,
    ensures
        r is None <==> (weights@.len() == 0 || spec_sum(weights@) == 0),
        r is Some ==> r.unwrap() < weights@.len() && weights@[r.unwrap() as int] > 0,
{
    match rand::distributions::WeightedIndex::new(weights) {
        Ok(dist) => Some(rand::distributions::Distribution::sample(&dist, rng)),
        Err(_) => None,
    }
}

/// Relies on rand's `Rng::gen_range` over `0..n`: a value below `n`, for
/// nonempty ranges.
#[verifier::external_body]
fn gen_range_below(rng: &mut rand::rngs::StdRng, n: usize) -> (r: usize)
    requires
        n >= 1,
    ensures
        r < n,
{
    rand::Rng::gen_range(rng, 0..n)
}

/// Draws one index with probability proportional to its reward. A failed
/// draw (no weights, or all weights zero) is reported as the out-of-range
/// index `rewards.len()`, which callers treat as the end of the round.
pub fn sample_query_weighted_by_rewards(
    rewards: &Vec<u128>,
    rng: &mut rand::rngs::StdRng,
) -> (r: usize)
    requires
        spec_sum(rewards@) <= u128::MAX,
    ensures
        r == rewards@.len() || (r < rewards@.len() && rewards@[r as int] > 0),
        r == rewards@.len() <==> (rewards@.len() == 0 || spec_sum(rewards@) == 0),
{
    match sample_weighted_index(rng, rewards) {
        Some(i) => i,
        None => rewards.len(),
    }
}

/// Draws one tile uniformly from `[0, total_queries)`.
pub fn sample_uniform_query(rng: &mut rand::rngs::StdRng, total_queries: usize) -> (r: usize)
    requires
        total_queries >= 1,
    ensures
        r < total_queries,
{
    gen_range_below(rng, total_queries)
}

} // verus!
