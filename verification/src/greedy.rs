//! The greedy partitioned planner: integrates each tile's probability over
//! the planning horizon, weights by marginal utility, and samples one tile
//! per cache slot.

use vstd::prelude::*;

use crate::DELTA_MAX;
use crate::PROB_ONE;
use crate::Q_LIMIT;
use crate::UTILITY_MAX;
use crate::lazyprob::LazyProb;
use crate::lemma_count_push;
use crate::sampling::lemma_sum_push;
use crate::sampling::sample_query_weighted_by_rewards;
use crate::sampling::sample_uniform_query;
use crate::sampling::spec_sum;
use crate::spec_count;
use crate::timing::TimeManager;

verus! {

/// Marginal utilities masked by the per-tile block budget: entry
/// `q * utility.len() + i` of the flat matrix is `utility[i]` while
/// `i < blocks_per_query[q]`, and zero beyond the budget.
pub open spec fn spec_utility_matrix_wf(
    matrix: Seq<u64>,
    blocks_per_query: Seq<usize>,
    utility: Seq<u64>,
) -> bool {
    &&& matrix.len() == blocks_per_query.len() * utility.len()
    &&& forall|q: int, i: int|
        0 <= q < blocks_per_query.len() && 0 <= i < utility.len()
            ==> #[trigger] matrix[q * utility.len() + i] == (if i < blocks_per_query[q] {
                utility[i]
            } else {
                0u64
            })
}

/// Fills the flat `Q x K` utility matrix: each row carries the utility curve
/// up to that tile's block budget and zero past it.
pub fn populate_utility_matrix(
    utility_matrix: &mut Vec<u64>,
    blocks_per_query: &Vec<usize>,
    utility: &Vec<u64>,
)
    requires
        old(utility_matrix)@.len() == blocks_per_query@.len() * utility@.len(),
        blocks_per_query@.len() * utility@.len() <= usize::MAX,
    ensures
        spec_utility_matrix_wf(final(utility_matrix)@, blocks_per_query@, utility@),
{
    let q_total = blocks_per_query.len();
    let k_total = utility.len();
    proof {
        assert(q_total * k_total == blocks_per_query@.len() * utility@.len());
    }
    let mut q: usize = 0;
    while q < q_total
        invariant
            q <= q_total,
            q_total == blocks_per_query@.len(),
            k_total == utility@.len(),
            q_total * k_total <= usize::MAX,
            utility_matrix@.len() == q_total * k_total,
            forall|qq: int, i: int|
                0 <= qq < q && 0 <= i < k_total
                    ==> #[trigger] utility_matrix@[qq * k_total + i]
                        == (if i < blocks_per_query@[qq] {
                            utility@[i]
                        } else {
                            0u64
                        }),
        decreases q_total - q,
    {
        proof {
            assert((q + 1) * k_total <= q_total * k_total) by (nonlinear_arith)
                requires q + 1 <= q_total, 0 <= k_total;
            assert(q * k_total + k_total == (q + 1) * k_total) by (nonlinear_arith);
            assert(0 <= q * k_total) by (nonlinear_arith)
                requires 0 <= q, 0 <= k_total;
        }
        let row_base: usize = q * k_total;
        let budget = blocks_per_query[q];
        let mut i: usize = 0;
        while i < k_total
            invariant
                q < q_total,
                i <= k_total,
                q_total == blocks_per_query@.len(),
                k_total == utility@.len(),
                q_total * k_total <= usize::MAX,
                row_base == q * k_total,
                row_base + k_total <= q_total * k_total,
                budget == blocks_per_query@[q as int],
                utility_matrix@.len() == q_total * k_total,
                forall|qq: int, ii: int|
                    0 <= qq < q && 0 <= ii < k_total
                        ==> #[trigger] utility_matrix@[qq * k_total + ii]
                            == (if ii < blocks_per_query@[qq] {
                                utility@[ii]
                            } else {
                                0u64
                            }),
                forall|ii: int|
                    0 <= ii < i ==> #[trigger] utility_matrix@[row_base + ii]
                        == (if ii < blocks_per_query@[q as int] {
                            utility@[ii]
                        } else {
                            0u64
                        }),
            decreases k_total - i,
        {
            let v = if i < budget {
                utility[i]
            } else {
                0
            };
            utility_matrix.set(row_base + i, v);
            proof {
                assert forall|qq: int, ii: int|
                    0 <= qq < q && 0 <= ii < k_total implies #[trigger] utility_matrix@[qq
                    * k_total + ii] == (if ii < blocks_per_query@[qq] {
                    utility@[ii]
                } else {
                    0u64
                }) by {
                    assert(qq * k_total + ii < q * k_total) by (nonlinear_arith)
                        requires 0 <= qq < q, 0 <= ii < k_total;
                    assert(0 <= qq * k_total + ii) by (nonlinear_arith)
                        requires 0 <= qq, 0 <= ii, 0 <= k_total;
                }
            }
            i = i + 1;
        }
        q = q + 1;
        proof {
            assert forall|qq: int, ii: int|
                0 <= qq < q && 0 <= ii < k_total implies #[trigger] utility_matrix@[qq * k_total
                + ii] == (if ii < blocks_per_query@[qq] {
                utility@[ii]
            } else {
                0u64
            }) by {
                if qq == q - 1 {
                    assert(qq * k_total == row_base);
                }
            }
        }
    }
}

/// The greedy partitioned planner. `utility_matrix` is derived once from the
/// utility curve and the per-tile block budgets; the time manager is the
/// round's captured clock.
pub struct GreedyScheduler {
    pub cachesize: usize,
    pub utility: Vec<u64>,
    pub blocks_per_query: Vec<usize>,
    pub utility_matrix: Vec<u64>,
    pub total_queries: usize,
    pub tm: TimeManager,
    pub batch: usize,
}

/// The number of cache slots one round fills: what is left of the cache past
/// `start_idx`, capped by the batch size.
pub open spec fn spec_horizon(cachesize: int, batch: int, start_idx: int) -> int {
    if cachesize - start_idx < batch {
        cachesize - start_idx
    } else {
        batch
    }
}

/// The weight one slot's sampler sees for candidate row `i`: the utility of
/// the tile's next block times its integrated probability over the slot's
/// remaining horizon, zero once the tile's block budget is filled.
pub open spec fn spec_slot_reward(
    blocks_per_query: Seq<usize>,
    utility: Seq<u64>,
    queries_ids: Seq<usize>,
    prob_matrix: Seq<Vec<u64>>,
    state: Seq<usize>,
    i: int,
    t: int,
) -> int {
    let qid = queries_ids[i] as int;
    if state[qid] < blocks_per_query[qid] {
        utility[state[qid] as int] * (prob_matrix[i]@[t] as int)
    } else {
        0
    }
}

/// Some candidate row carries a positive sampling weight at slot `t`.
pub open spec fn spec_slot_live(
    blocks_per_query: Seq<usize>,
    utility: Seq<u64>,
    queries_ids: Seq<usize>,
    prob_matrix: Seq<Vec<u64>>,
    state: Seq<usize>,
    t: int,
) -> bool {
    exists|i: int|
        0 <= i < queries_ids.len() && spec_slot_reward(
            blocks_per_query,
            utility,
            queries_ids,
            prob_matrix,
            state,
            i,
            t,
        ) > 0
}

/// Some candidate row has positive integrated probability at slot `t`.
pub open spec fn spec_matrix_live(prob_matrix: Seq<Vec<u64>>, t: int) -> bool {
    exists|i: int| 0 <= i < prob_matrix.len() && (#[trigger] prob_matrix[i])@[t] > 0
}

/// Tile `q` is one of the candidates a greedy round ranks: it has explicit
/// mass in the oracle, or every tile below it does (which makes it the
/// uniform rest row's representative when it has none itself).
pub open spec fn spec_is_candidate(probs: LazyProb, q: int) -> bool {
    probs.spec_explicit(q) || (forall|x: int| 0 <= x < q ==> probs.spec_explicit(x))
}

impl GreedyScheduler {
    pub open spec fn wf(self) -> bool {
        &&& self.total_queries == self.blocks_per_query@.len()
        &&& self.total_queries <= Q_LIMIT
        &&& self.tm.wf()
        &&& forall|i: int|
            0 <= i < self.utility@.len() ==> (#[trigger] self.utility@[i]) <= UTILITY_MAX
        &&& spec_utility_matrix_wf(self.utility_matrix@, self.blocks_per_query@, self.utility@)
    }

    /// The round's first slot has work: some candidate tile still has block
    /// budget, a positive next-block utility, and positive integrated
    /// probability over the slot's remaining horizon.
    pub open spec fn spec_round_live(
        self,
        probs: LazyProb,
        state: Seq<usize>,
        horizon: int,
    ) -> bool {
        exists|q: int|
            0 <= q < self.total_queries && #[trigger] spec_is_candidate(probs, q)
                && state[q] < self.blocks_per_query@[q]
                && self.utility@[state[q] as int] > 0
                && probs.spec_integrate(
                q,
                self.tm.deltas@[0] as int,
                self.tm.deltas@[horizon] as int,
                probs.spec_lower_bound(0),
            ) > 0
    }

    /// Some candidate tile has positive integrated probability over slot
    /// `t`'s remaining horizon.
    pub open spec fn spec_slot_has_mass(self, probs: LazyProb, t: int, horizon: int) -> bool {
        exists|q: int|
            0 <= q < self.total_queries && #[trigger] spec_is_candidate(probs, q)
                && probs.spec_integrate(
                q,
                self.tm.deltas@[t] as int,
                self.tm.deltas@[horizon] as int,
                probs.spec_lower_bound(t),
            ) > 0
    }
}

/// Every candidate tile owns a row of the partition: an explicit tile by the
/// completeness of the listed prefix, the least unlisted tile as the
/// trailing rest row. The returned row's entry at slot `t` is the tile's
/// integral over that slot's remaining horizon.
proof fn lemma_candidate_has_row(
    s: GreedyScheduler,
    probs: &LazyProb,
    prob_matrix: Seq<Vec<u64>>,
    queries_ids: Seq<usize>,
    horizon: int,
    q: int,
    t: int,
) -> (i: int)
    requires
        0 <= q < s.total_queries,
        0 <= t < horizon,
        horizon < s.tm.deltas@.len(),
        spec_is_candidate(*probs, q),
        queries_ids.len() >= 1,
        prob_matrix.len() == queries_ids.len(),
        forall|i: int| 0 <= i < queries_ids.len() - 1 ==> probs.spec_explicit(queries_ids[i] as int),
        forall|x: int|
            0 <= x < s.total_queries && #[trigger] probs.spec_explicit(x) ==> exists|i: int|
                0 <= i < queries_ids.len() - 1 && (#[trigger] queries_ids[i]) as int == x,
        forall|i: int, tt: int|
            0 <= i < queries_ids.len() - 1 && 0 <= tt < horizon
                ==> (#[trigger] prob_matrix[i]@[tt]) as int == probs.spec_integrate(
                    queries_ids[i] as int,
                    s.tm.deltas@[tt] as int,
                    s.tm.deltas@[horizon] as int,
                    probs.spec_lower_bound(tt),
                ),
        ({
            let last = queries_ids.len() - 1;
            if exists|x: int| 0 <= x < s.total_queries && !(#[trigger] probs.spec_explicit(x)) {
                &&& !probs.spec_explicit(queries_ids[last] as int)
                &&& forall|x: int| 0 <= x < queries_ids[last] ==> probs.spec_explicit(x)
                &&& forall|tt: int|
                    0 <= tt < horizon ==> (#[trigger] prob_matrix[last]@[tt]) as int
                        == probs.spec_integrate(
                        queries_ids[last] as int,
                        s.tm.deltas@[tt] as int,
                        s.tm.deltas@[horizon] as int,
                        probs.spec_lower_bound(tt),
                    )
            } else {
                queries_ids[last] == 0 && forall|tt: int|
                    0 <= tt < horizon ==> (#[trigger] prob_matrix[last]@[tt]) == 0
            }
        }),
    ensures
        0 <= i < queries_ids.len(),
        queries_ids[i] as int == q,
        prob_matrix[i]@[t] as int == probs.spec_integrate(
            q,
            s.tm.deltas@[t] as int,
            s.tm.deltas@[horizon] as int,
            probs.spec_lower_bound(t),
        ),
{
    if probs.spec_explicit(q) {
        let i = choose|i: int|
            0 <= i < queries_ids.len() - 1 && (#[trigger] queries_ids[i]) as int == q;
        i
    } else {
        // q is the least unlisted tile, and so is the trailing row's tile
        let last = queries_ids.len() - 1;
        assert(exists|x: int| 0 <= x < s.total_queries && !(#[trigger] probs.spec_explicit(x)))
            by {
            assert(!probs.spec_explicit(q));
        }
        let lq = queries_ids[last] as int;
        assert(forall|x: int| 0 <= x < q ==> probs.spec_explicit(x));
        if q < lq {
            assert(probs.spec_explicit(q));
            assert(false);
        }
        if lq < q {
            assert(probs.spec_explicit(lq));
            assert(false);
        }
        last
    }
}

/// Builds a greedy planner over `blocks_per_query.len()` tiles, deriving the
/// masked utility matrix from the curve and the budgets.
pub fn new(
    batch: usize,
    cachesize: usize,
    utility: Vec<u64>,
    blocks_per_query: Vec<usize>,
    tm: TimeManager,
) -> (r: GreedyScheduler)
    requires
        blocks_per_query@.len() <= Q_LIMIT,
        blocks_per_query@.len() * utility@.len() <= usize::MAX,
        forall|i: int| 0 <= i < utility@.len() ==> (#[trigger] utility@[i]) <= UTILITY_MAX,
        tm.wf(),
    ensures
        r.wf(),
        r.batch == batch,
        r.cachesize == cachesize,
        r.utility@ == utility@,
        r.blocks_per_query@ == blocks_per_query@,
        r.total_queries == blocks_per_query@.len(),
        r.tm == tm,
{
    let total_queries = blocks_per_query.len();
    let max_blocks_count = utility.len();
    proof {
        assert(0 <= total_queries * max_blocks_count) by (nonlinear_arith)
            requires 0 <= total_queries, 0 <= max_blocks_count;
    }
    let size: usize = total_queries * max_blocks_count;
    let mut utility_matrix: Vec<u64> = Vec::new();
    let mut z: usize = 0;
    while z < size
        invariant
            z <= size,
            utility_matrix@.len() == z,
        decreases size - z,
    {
        utility_matrix.push(0);
        z = z + 1;
    }
    populate_utility_matrix(&mut utility_matrix, &blocks_per_query, &utility);
    GreedyScheduler {
        cachesize,
        utility,
        batch,
        total_queries,
        utility_matrix,
        tm,
        blocks_per_query,
    }
}

impl GreedyScheduler {
    /// For each tile with explicit representation in the oracle, and for one
    /// representative of the uniform rest (the smallest unlisted tile, when
    /// one exists), the integral of its probability over each slot's
    /// remaining horizon. The trailing row stays zero, under tile id 0, when
    /// every tile is listed.
    pub fn integrate_probs_partition(
        &self,
        probs: &LazyProb,
        total_queries: usize,
        horizon: usize,
    ) -> (r: (Vec<Vec<u64>>, Vec<usize>))
        requires
            self.wf(),
            probs.wf(),
            probs.total_queries == self.total_queries,
            total_queries == self.total_queries,
            total_queries >= 1,
            horizon < self.tm.deltas@.len(),
        ensures
            r.0@.len() == r.1@.len(),
            1 <= r.1@.len() <= total_queries + 1,
            forall|i: int| 0 <= i < r.1@.len() ==> (#[trigger] r.1@[i]) < total_queries,
            forall|i: int| 0 <= i < r.0@.len() ==> (#[trigger] r.0@[i])@.len() == horizon,
            forall|i: int, t: int|
                0 <= i < r.0@.len() && 0 <= t < horizon
                    ==> (#[trigger] r.0@[i]@[t]) as int <= 2 * (PROB_ONE as int) * (
                    DELTA_MAX as int),
            forall|i: int, t: int|
                0 <= i < r.1@.len() - 1 && 0 <= t < horizon
                    ==> (#[trigger] r.0@[i]@[t]) as int == probs.spec_integrate(
                        r.1@[i] as int,
                        self.tm.deltas@[t] as int,
                        self.tm.deltas@[horizon as int] as int,
                        probs.spec_lower_bound(t),
                    ),
            forall|i: int| 0 <= i < r.1@.len() - 1 ==> probs.spec_explicit(r.1@[i] as int),
            forall|q: int|
                0 <= q < total_queries && #[trigger] probs.spec_explicit(q)
                    ==> exists|i: int| 0 <= i < r.1@.len() - 1 && (#[trigger] r.1@[i]) as int == q,
            ({
                let last = r.1@.len() - 1;
                if exists|q: int| 0 <= q < total_queries && !(#[trigger] probs.spec_explicit(q)) {
                    &&& !probs.spec_explicit(r.1@[last] as int)
                    &&& forall|x: int| 0 <= x < r.1@[last] ==> probs.spec_explicit(x)
                    &&& forall|t: int|
                        0 <= t < horizon ==> (#[trigger] r.0@[last]@[t]) as int
                            == probs.spec_integrate(
                            r.1@[last] as int,
                            self.tm.deltas@[t] as int,
                            self.tm.deltas@[horizon as int] as int,
                            probs.spec_lower_bound(t),
                        )
                } else {
                    r.1@[last] == 0 && forall|t: int|
                        0 <= t < horizon ==> (#[trigger] r.0@[last]@[t]) == 0
                }
            }),
    {
        let mut deltas: Vec<u64> = Vec::new();
        let mut lows: Vec<u64> = Vec::new();
        let mut t: usize = 0;
        while t < horizon
            invariant
                self.wf(),
                probs.wf(),
                horizon < self.tm.deltas@.len(),
                t <= horizon,
                deltas@.len() == t,
                lows@.len() == t,
                forall|x: int| 0 <= x < t ==> (#[trigger] deltas@[x]) == self.tm.deltas@[x],
                forall|x: int|
                    0 <= x < t ==> (#[trigger] lows@[x]) as int == probs.spec_lower_bound(x),
            decreases horizon - t,
        {
            deltas.push(self.tm.slot_to_client_delta(t));
            lows.push(probs.get_lower_bound(t as u64));
            t = t + 1;
        }
        let horizon_delta = self.tm.slot_to_client_delta(horizon);

        // tiles with explicit probabilities; the rest stay on the uniform floor
        let q_in_p = probs.get_k();
        let mut queries_ids: Vec<usize> = Vec::new();
        let mut matrix: Vec<Vec<u64>> = Vec::new();
        let mut rest_index: usize = 0;
        let mut idx: usize = 0;
        while idx < q_in_p.len()
            invariant
                self.wf(),
                probs.wf(),
                probs.total_queries == self.total_queries,
                total_queries == self.total_queries,
                horizon < self.tm.deltas@.len(),
                deltas@.len() == horizon,
                lows@.len() == horizon,
                forall|x: int| 0 <= x < horizon ==> (#[trigger] deltas@[x]) == self.tm.deltas@[x],
                forall|x: int|
                    0 <= x < horizon ==> (#[trigger] lows@[x]) as int == probs.spec_lower_bound(x),
                horizon_delta == self.tm.deltas@[horizon as int],
                q_in_p@.len() <= total_queries,
                forall|a: int, b: int| 0 <= a < b < q_in_p@.len() ==> q_in_p@[a] < q_in_p@[b],
                forall|a: int| 0 <= a < q_in_p@.len() ==> q_in_p@[a] < total_queries,
                forall|q: int|
                    0 <= q < total_queries
                        ==> (q_in_p@.contains(q as usize) <==> probs.spec_explicit(q)),
                idx <= q_in_p@.len(),
                queries_ids@.len() == idx,
                matrix@.len() == idx,
                forall|i: int| 0 <= i < idx ==> (#[trigger] queries_ids@[i]) == q_in_p@[i],
                forall|i: int| 0 <= i < idx ==> (#[trigger] matrix@[i])@.len() == horizon,
                forall|i: int, tt: int|
                    0 <= i < idx && 0 <= tt < horizon
                        ==> (#[trigger] matrix@[i]@[tt]) as int == probs.spec_integrate(
                            q_in_p@[i] as int,
                            self.tm.deltas@[tt] as int,
                            self.tm.deltas@[horizon as int] as int,
                            probs.spec_lower_bound(tt),
                        ),
                forall|i: int, tt: int|
                    0 <= i < idx && 0 <= tt < horizon
                        ==> (#[trigger] matrix@[i]@[tt]) as int <= 2 * (PROB_ONE as int) * (
                        DELTA_MAX as int),
                rest_index <= total_queries,
                forall|x: int| 0 <= x < rest_index ==> probs.spec_explicit(x),
                forall|jx: int| idx <= jx < q_in_p@.len() ==> rest_index <= q_in_p@[jx],
                forall|jx: int| 0 <= jx < idx ==> (#[trigger] q_in_p@[jx]) != rest_index,
            decreases q_in_p@.len() - idx,
        {
            let qindex = q_in_p[idx];
            let mut row: Vec<u64> = Vec::new();
            let mut tt: usize = 0;
            while tt < horizon
                invariant
                    self.wf(),
                    probs.wf(),
                    probs.total_queries == self.total_queries,
                    qindex < self.total_queries,
                    tt <= horizon,
                    row@.len() == tt,
                    deltas@.len() == horizon,
                    lows@.len() == horizon,
                    forall|x: int|
                        0 <= x < horizon ==> (#[trigger] deltas@[x]) == self.tm.deltas@[x],
                    forall|x: int|
                        0 <= x < horizon ==> (#[trigger] lows@[x]) as int
                            == probs.spec_lower_bound(x),
                    horizon_delta == self.tm.deltas@[horizon as int],
                    horizon_delta <= DELTA_MAX,
                    forall|x: int|
                        0 <= x < tt ==> (#[trigger] row@[x]) as int == probs.spec_integrate(
                            qindex as int,
                            self.tm.deltas@[x] as int,
                            self.tm.deltas@[horizon as int] as int,
                            probs.spec_lower_bound(x),
                        ),
                    forall|x: int|
                        0 <= x < tt ==> (#[trigger] row@[x]) as int <= 2 * (PROB_ONE as int) * (
                        DELTA_MAX as int),
                decreases horizon - tt,
            {
                let v = probs.integrate_over_range(qindex, deltas[tt], horizon_delta, lows[tt]);
                row.push(v);
                tt = tt + 1;
            }
            matrix.push(row);
            queries_ids.push(qindex);
            if rest_index == qindex {
                rest_index = rest_index + 1;
            }
            idx = idx + 1;
        }

        if rest_index < total_queries {
            proof {
                if probs.spec_explicit(rest_index as int) {
                    assert(q_in_p@.contains(rest_index));
                    let w = choose|w: int| 0 <= w < q_in_p@.len() && q_in_p@[w] == rest_index;
                    assert(q_in_p@[w] != rest_index);
                }
            }
            let mut row: Vec<u64> = Vec::new();
            let mut tt: usize = 0;
            while tt < horizon
                invariant
                    self.wf(),
                    probs.wf(),
                    probs.total_queries == self.total_queries,
                    rest_index < self.total_queries,
                    tt <= horizon,
                    row@.len() == tt,
                    deltas@.len() == horizon,
                    lows@.len() == horizon,
                    forall|x: int|
                        0 <= x < horizon ==> (#[trigger] deltas@[x]) == self.tm.deltas@[x],
                    forall|x: int|
                        0 <= x < horizon ==> (#[trigger] lows@[x]) as int
                            == probs.spec_lower_bound(x),
                    horizon < self.tm.deltas@.len(),
                    horizon_delta == self.tm.deltas@[horizon as int],
                    horizon_delta <= DELTA_MAX,
                    forall|x: int|
                        0 <= x < tt ==> (#[trigger] row@[x]) as int == probs.spec_integrate(
                            rest_index as int,
                            self.tm.deltas@[x] as int,
                            self.tm.deltas@[horizon as int] as int,
                            probs.spec_lower_bound(x),
                        ),
                    forall|x: int|
                        0 <= x < tt ==> (#[trigger] row@[x]) as int <= 2 * (PROB_ONE as int) * (
                        DELTA_MAX as int),
                decreases horizon - tt,
            {
                let v = probs.integrate_over_range(rest_index, deltas[tt], horizon_delta, lows[tt]);
                row.push(v);
                tt = tt + 1;
            }
            matrix.push(row);
            queries_ids.push(rest_index);
        } else {
            // every tile is listed: the trailing row stays zero
            proof {
                assert forall|q: int|
                    0 <= q < total_queries implies #[trigger] probs.spec_explicit(q) by {}
            }
            let mut row: Vec<u64> = Vec::new();
            let mut tt: usize = 0;
            while tt < horizon
                invariant
                    tt <= horizon,
                    row@.len() == tt,
                    forall|x: int| 0 <= x < tt ==> (#[trigger] row@[x]) == 0,
                decreases horizon - tt,
            {
                row.push(0);
                tt = tt + 1;
            }
            matrix.push(row);
            queries_ids.push(0);
        }
        proof {
            assert forall|q: int|
                0 <= q < total_queries && #[trigger] probs.spec_explicit(q) implies exists|i: int|
                0 <= i < queries_ids@.len() - 1 && (#[trigger] queries_ids@[i]) as int == q by {
                assert(q_in_p@.contains(q as usize));
                let w = choose|w: int| 0 <= w < q_in_p@.len() && q_in_p@[w] == q as usize;
                assert(queries_ids@[w] == q_in_p@[w]);
            }
        }
        (matrix, queries_ids)
    }

    /// One greedy round: for each slot, weight each candidate row by the
    /// marginal utility of its tile's next block, sample a row, and assign a
    /// block to the sampled tile (the trailing row stands for a uniformly
    /// drawn tile). The round ends early when every reward is zero; a tile
    /// whose block count has reached the utility curve's length takes no
    /// further block.
    pub fn greedy_partition(
        &self,
        queries_ids: Vec<usize>,
        horizon: usize,
        prob_matrix: &Vec<Vec<u64>>,
        total_queries: usize,
        utility: &Vec<u64>,
        state: Vec<usize>,
        rng: &mut rand::rngs::StdRng,
    ) -> (blocks: Vec<usize>)
        requires
            self.wf(),
            total_queries == self.total_queries,
            total_queries >= 1,
            utility@ == self.utility@,
            state@.len() == total_queries,
            forall|q: int|
                0 <= q < total_queries
                    ==> (#[trigger] state@[q]) <= self.blocks_per_query@[q],
            forall|q: int|
                0 <= q < total_queries
                    ==> (#[trigger] self.blocks_per_query@[q]) <= utility@.len(),
            1 <= queries_ids@.len() <= total_queries + 1,
            forall|i: int| 0 <= i < queries_ids@.len() ==> (#[trigger] queries_ids@[i]) < total_queries,
            prob_matrix@.len() == queries_ids@.len(),
            forall|i: int| 0 <= i < prob_matrix@.len() ==> (#[trigger] prob_matrix@[i])@.len() == horizon,
            forall|i: int, t: int|
                0 <= i < prob_matrix@.len() && 0 <= t < horizon
                    ==> (#[trigger] prob_matrix@[i]@[t]) as int <= 2 * (PROB_ONE as int) * (
                    DELTA_MAX as int),
        ensures
            blocks@.len() <= horizon,
            forall|i: int| 0 <= i < blocks@.len() ==> (#[trigger] blocks@[i]) < total_queries,
            forall|q: int|
                0 <= q < total_queries
                    ==> state@[q] + spec_count(blocks@, q) <= utility@.len(),
            horizon > 0 && !spec_slot_live(
                self.blocks_per_query@,
                utility@,
                queries_ids@,
                prob_matrix@,
                state@,
                0,
            ) ==> blocks@.len() == 0,
            horizon > 0 && spec_slot_live(
                self.blocks_per_query@,
                utility@,
                queries_ids@,
                prob_matrix@,
                state@,
                0,
            ) && (forall|q: int|
                0 <= q < total_queries ==> (#[trigger] state@[q]) < utility@.len())
                ==> blocks@.len() >= 1,
            (forall|q: int|
                0 <= q < total_queries
                    ==> (#[trigger] state@[q]) + horizon <= self.blocks_per_query@[q]) && (
            forall|i: int| 0 <= i < utility@.len() ==> (#[trigger] utility@[i]) > 0) && (forall|
                tt: int,
            |
                0 <= tt < horizon ==> spec_matrix_live(prob_matrix@, tt)) ==> blocks@.len()
                == horizon,
    {
        let ghost state0 = state@;
        let mut state = state;
        let mut blocks: Vec<usize> = Vec::new();
        let mut done = false;
        let mut t: usize = 0;
        proof {
            assert forall|q: int| 0 <= q < total_queries implies spec_count(blocks@, q) == 0 by {}
        }
        while t < horizon && !done
            invariant
                self.wf(),
                total_queries == self.total_queries,
                total_queries >= 1,
                utility@ == self.utility@,
                1 <= queries_ids@.len() <= total_queries + 1,
                forall|i: int|
                    0 <= i < queries_ids@.len() ==> (#[trigger] queries_ids@[i]) < total_queries,
                prob_matrix@.len() == queries_ids@.len(),
                forall|i: int|
                    0 <= i < prob_matrix@.len() ==> (#[trigger] prob_matrix@[i])@.len() == horizon,
                forall|i: int, tt: int|
                    0 <= i < prob_matrix@.len() && 0 <= tt < horizon
                        ==> (#[trigger] prob_matrix@[i]@[tt]) as int <= 2 * (PROB_ONE as int) * (
                        DELTA_MAX as int),
                forall|q: int|
                    0 <= q < total_queries
                        ==> (#[trigger] self.blocks_per_query@[q]) <= utility@.len(),
                t <= horizon,
                blocks@.len() <= t,
                state@.len() == total_queries,
                state0.len() == total_queries,
                done ==> t >= 1,
                forall|i: int| 0 <= i < blocks@.len() ==> (#[trigger] blocks@[i]) < total_queries,
                forall|q: int|
                    0 <= q < total_queries
                        ==> (#[trigger] state@[q]) == state0[q] + spec_count(blocks@, q),
                forall|q: int|
                    0 <= q < total_queries ==> (#[trigger] state@[q]) <= utility@.len(),
                !spec_slot_live(
                    self.blocks_per_query@,
                    utility@,
                    queries_ids@,
                    prob_matrix@,
                    state0,
                    0,
                ) ==> blocks@.len() == 0 && (t > 0 ==> done),
                spec_slot_live(
                    self.blocks_per_query@,
                    utility@,
                    queries_ids@,
                    prob_matrix@,
                    state0,
                    0,
                ) && (forall|q: int|
                    0 <= q < total_queries ==> (#[trigger] state0[q]) < utility@.len()) && t > 0
                    ==> blocks@.len() >= 1,
                (forall|q: int|
                    0 <= q < total_queries
                        ==> (#[trigger] state0[q]) + horizon <= self.blocks_per_query@[q]) && (
                forall|i: int| 0 <= i < utility@.len() ==> (#[trigger] utility@[i]) > 0) && (
                forall|tt: int|
                    0 <= tt < horizon ==> spec_matrix_live(prob_matrix@, tt)) ==> blocks@.len()
                    == t && !done,
            decreases horizon - t,
        {
            let ghost deep_round = (forall|q: int|
                0 <= q < total_queries
                    ==> (#[trigger] state0[q]) + horizon <= self.blocks_per_query@[q]) && (forall|
                i: int,
            |
                0 <= i < utility@.len() ==> (#[trigger] utility@[i]) > 0) && (forall|tt: int|
                0 <= tt < horizon ==> spec_matrix_live(prob_matrix@, tt));
            let mut rewards: Vec<u128> = Vec::new();
            let mut sum: u128 = 0;
            let mut i: usize = 0;
            while i < queries_ids.len()
                invariant
                    self.wf(),
                    total_queries == self.total_queries,
                    utility@ == self.utility@,
                    t < horizon,
                    1 <= queries_ids@.len() <= total_queries + 1,
                    forall|ii: int|
                        0 <= ii < queries_ids@.len()
                            ==> (#[trigger] queries_ids@[ii]) < total_queries,
                    prob_matrix@.len() == queries_ids@.len(),
                    forall|ii: int|
                        0 <= ii < prob_matrix@.len()
                            ==> (#[trigger] prob_matrix@[ii])@.len() == horizon,
                    forall|ii: int, tt: int|
                        0 <= ii < prob_matrix@.len() && 0 <= tt < horizon
                            ==> (#[trigger] prob_matrix@[ii]@[tt]) as int <= 2 * (PROB_ONE as int)
                                * (DELTA_MAX as int),
                    state@.len() == total_queries,
                    forall|q: int|
                        0 <= q < total_queries ==> (#[trigger] state@[q]) <= utility@.len(),
                    forall|q: int|
                        0 <= q < total_queries
                            ==> (#[trigger] self.blocks_per_query@[q]) <= utility@.len(),
                    i <= queries_ids@.len(),
                    rewards@.len() == i,
                    forall|ii: int|
                        0 <= ii < i ==> (#[trigger] rewards@[ii]) <= 0x8_0000_0000_0000_0000_0000u128,
                    forall|ii: int|
                        0 <= ii < i ==> (#[trigger] rewards@[ii]) as int == spec_slot_reward(
                            self.blocks_per_query@,
                            utility@,
                            queries_ids@,
                            prob_matrix@,
                            state@,
                            ii,
                            t as int,
                        ),
                    sum == spec_sum(rewards@),
                    sum <= rewards@.len() as int * 0x8_0000_0000_0000_0000_0000,
                decreases queries_ids@.len() - i,
            {
                let qid = queries_ids[i];
                let nblocks = state[qid];
                let w: u128 = if nblocks < self.blocks_per_query[qid] {
                    proof {
                        assert((utility@[nblocks as int] as int) * (prob_matrix@[i as int]@[
                            t as int] as int) <= 0x8_0000_0000_0000_0000_0000) by (nonlinear_arith)
                            requires
                                0 <= utility@[nblocks as int] as int <= 0x1_0000_0000,
                                0 <= prob_matrix@[i as int]@[t as int] as int
                                    <= 0x8_0000_0000_0000;
                    }
                    (utility[nblocks] as u128) * (prob_matrix[i][t] as u128)
                } else {
                    0
                };
                proof {
                    lemma_sum_push(rewards@, w);
                    assert((rewards@.len() + 1) as int * 0x8_0000_0000_0000_0000_0000
                        == rewards@.len() as int * 0x8_0000_0000_0000_0000_0000
                            + 0x8_0000_0000_0000_0000_0000) by (nonlinear_arith);
                }
                rewards.push(w);
                sum = sum + w;
                i = i + 1;
            }
            proof {
                if t == 0 {
                    assert forall|q: int| 0 <= q < total_queries implies state@[q] == state0[q] by {
                        assert(state@[q] == state0[q] + spec_count(blocks@, q));
                    }
                    assert(state@ =~= state0);
                }
                if deep_round {
                    // with budgets this deep no tile can have filled its
                    // budget yet: at most one block lands per past slot
                    assert forall|q: int|
                        0 <= q < total_queries implies (#[trigger] state@[q])
                        < self.blocks_per_query@[q] by {
                        crate::lemma_count_le_len(blocks@, q);
                        assert(state@[q] == state0[q] + spec_count(blocks@, q));
                    }
                }
                crate::sampling::lemma_sum_zero_iff(rewards@);
                if spec_slot_live(
                    self.blocks_per_query@,
                    utility@,
                    queries_ids@,
                    prob_matrix@,
                    state@,
                    t as int,
                ) {
                    let wi = choose|wi: int|
                        0 <= wi < queries_ids@.len() && spec_slot_reward(
                            self.blocks_per_query@,
                            utility@,
                            queries_ids@,
                            prob_matrix@,
                            state@,
                            wi,
                            t as int,
                        ) > 0;
                    assert(rewards@[wi] > 0);
                    assert(spec_sum(rewards@) != 0);
                }
                if sum != 0 {
                    let wi = choose|wi: int| 0 <= wi < rewards@.len() && rewards@[wi] != 0;
                    assert(spec_slot_reward(
                        self.blocks_per_query@,
                        utility@,
                        queries_ids@,
                        prob_matrix@,
                        state@,
                        wi,
                        t as int,
                    ) > 0);
                }
                if deep_round {
                    // some candidate row has probability mass at this slot,
                    // its tile still has budget, and its utility is positive
                    assert(spec_matrix_live(prob_matrix@, t as int));
                    let wi = choose|wi: int|
                        0 <= wi < prob_matrix@.len() && (#[trigger] prob_matrix@[wi])@[t as int]
                            > 0;
                    let qid = queries_ids@[wi] as int;
                    assert(state@[qid] < self.blocks_per_query@[qid]);
                    crate::lemma_pos_product(
                        utility@[state@[qid] as int] as int,
                        prob_matrix@[wi]@[t as int] as int,
                    );
                    assert(spec_slot_reward(
                        self.blocks_per_query@,
                        utility@,
                        queries_ids@,
                        prob_matrix@,
                        state@,
                        wi,
                        t as int,
                    ) > 0);
                    assert(sum != 0);
                }
            }
            if sum == 0 {
                done = true;
            } else {
                proof {
                    assert(rewards@.len() as int * 0x8_0000_0000_0000_0000_0000
                        <= (total_queries + 1) as int * 0x8_0000_0000_0000_0000_0000)
                        by (nonlinear_arith)
                        requires rewards@.len() <= total_queries + 1;
                    assert((total_queries + 1) as int * 0x8_0000_0000_0000_0000_0000
                        <= u128::MAX) by (nonlinear_arith)
                        requires total_queries <= Q_LIMIT;
                }
                let qindex = sample_query_weighted_by_rewards(&rewards, rng);
                // the sampler cannot fail here: the weight total is nonzero
                let qid = if qindex == queries_ids.len() - 1 {
                    sample_uniform_query(rng, total_queries)
                } else {
                    queries_ids[qindex]
                };
                if state[qid] < utility.len() {
                    proof {
                        assert forall|q: int|
                            0 <= q < total_queries implies state@.update(
                            qid as int,
                            (state@[qid as int] + 1) as usize,
                        )[q] == state0[q] + spec_count(blocks@.push(qid), q) by {
                            lemma_count_push(blocks@, qid, q);
                        }
                    }
                    blocks.push(qid);
                    let bumped = state[qid] + 1;
                    state.set(qid, bumped);
                }
            }
            t = t + 1;
        }
        proof {
            assert forall|q: int|
                0 <= q < total_queries implies state0[q] + spec_count(blocks@, q)
                <= utility@.len() by {
                assert(state@[q] == state0[q] + spec_count(blocks@, q));
                assert(state@[q] <= utility@.len());
            }
        }
        blocks
    }

    /// One full scheduling round with an explicit random source: integrates
    /// the oracle over the horizon and greedily fills the remaining cache
    /// slots, at most `min(cachesize - start_idx, batch)` of them, each with
    /// a tile index below the query-space size. A tile never collects more
    /// blocks than the utility curve has entries.
    pub fn run_scheduler_with_rng(
        &self,
        probs: LazyProb,
        state: Vec<usize>,
        start_idx: usize,
        rng: &mut rand::rngs::StdRng,
    ) -> (plan: Vec<usize>)
        requires
            self.wf(),
            probs.wf(),
            probs.total_queries == self.total_queries,
            start_idx <= self.cachesize,
            state@.len() == self.total_queries,
            forall|q: int|
                0 <= q < self.total_queries
                    ==> (#[trigger] state@[q]) <= self.blocks_per_query@[q],
            forall|q: int|
                0 <= q < self.total_queries
                    ==> (#[trigger] self.blocks_per_query@[q]) <= self.utility@.len(),
            self.total_queries > 0
                ==> spec_horizon(self.cachesize as int, self.batch as int, start_idx as int)
                    < self.tm.deltas@.len(),
        ensures
            plan@.len() <= spec_horizon(self.cachesize as int, self.batch as int, start_idx as int),
            forall|i: int| 0 <= i < plan@.len() ==> (#[trigger] plan@[i]) < self.total_queries,
            self.total_queries == 0 ==> plan@.len() == 0,
            forall|q: int|
                0 <= q < self.total_queries
                    ==> state@[q] + spec_count(plan@, q) <= self.utility@.len(),
            ({
                let h = spec_horizon(self.cachesize as int, self.batch as int, start_idx as int);
                &&& self.total_queries > 0 && h > 0 && !self.spec_round_live(probs, state@, h)
                    ==> plan@.len() == 0
                &&& self.total_queries > 0 && h > 0 && self.spec_round_live(probs, state@, h) && (
                forall|q: int|
                    0 <= q < self.total_queries ==> (#[trigger] state@[q]) < self.utility@.len())
                    ==> plan@.len() >= 1
                &&& self.total_queries > 0 && (forall|q: int|
                    0 <= q < self.total_queries ==> (#[trigger] state@[q]) + h
                        <= self.blocks_per_query@[q]) && (forall|i: int|
                    0 <= i < self.utility@.len() ==> (#[trigger] self.utility@[i]) > 0) && (forall|
                    tt: int,
                |
                    0 <= tt < h ==> self.spec_slot_has_mass(probs, tt, h)) ==> plan@.len() == h
            }),
    {
        let total_queries = self.total_queries;
        let horizon = if self.cachesize - start_idx < self.batch {
            self.cachesize - start_idx
        } else {
            self.batch
        };
        if total_queries == 0 {
            let empty: Vec<usize> = Vec::new();
            proof {
                assert forall|q: int|
                    0 <= q < self.total_queries implies state@[q] + spec_count(empty@, q)
                    <= self.utility@.len() by {}
            }
            return empty;
        }
        let (prob_matrix, queries_ids) = self.integrate_probs_partition(
            &probs,
            total_queries,
            horizon,
        );
        proof {
            let bpq = self.blocks_per_query@;
            let uty = self.utility@;
            let k1 = queries_ids@.len() - 1;
            let d0 = self.tm.deltas@[0] as int;
            let dh = self.tm.deltas@[horizon as int] as int;
            // a live candidate row names a live candidate tile, and the
            // other way round; the same mapping carries per-slot mass
            if horizon > 0 && spec_slot_live(bpq, uty, queries_ids@, prob_matrix@, state@, 0) {
                let i = choose|i: int|
                    0 <= i < queries_ids@.len() && spec_slot_reward(
                        bpq,
                        uty,
                        queries_ids@,
                        prob_matrix@,
                        state@,
                        i,
                        0,
                    ) > 0;
                let q = queries_ids@[i] as int;
                assert(state@[q] < bpq[q]);
                crate::lemma_pos_product(
                    uty[state@[q] as int] as int,
                    prob_matrix@[i]@[0] as int,
                );
                if i < k1 {
                    assert(probs.spec_explicit(q));
                    assert(spec_is_candidate(probs, q));
                    assert(prob_matrix@[i]@[0] as int == probs.spec_integrate(
                        q,
                        d0,
                        dh,
                        probs.spec_lower_bound(0),
                    ));
                } else {
                    if !(exists|x: int|
                        0 <= x < total_queries && !(#[trigger] probs.spec_explicit(x))) {
                        assert(prob_matrix@[k1]@[0] == 0);
                        assert(false);
                    }
                    assert(!probs.spec_explicit(queries_ids@[k1] as int));
                    assert(forall|x: int|
                        0 <= x < queries_ids@[k1] ==> probs.spec_explicit(x));
                    assert(spec_is_candidate(probs, q));
                    assert(prob_matrix@[i]@[0] as int == probs.spec_integrate(
                        q,
                        d0,
                        dh,
                        probs.spec_lower_bound(0),
                    ));
                }
                assert(self.spec_round_live(probs, state@, horizon as int));
            }
            if horizon > 0 && self.spec_round_live(probs, state@, horizon as int) {
                let q = choose|q: int|
                    0 <= q < self.total_queries && #[trigger] spec_is_candidate(probs, q)
                        && state@[q] < bpq[q] && uty[state@[q] as int] > 0
                        && probs.spec_integrate(q, d0, dh, probs.spec_lower_bound(0)) > 0;
                let i = lemma_candidate_has_row(
                    *self,
                    &probs,
                    prob_matrix@,
                    queries_ids@,
                    horizon as int,
                    q,
                    0,
                );
                crate::lemma_pos_product(
                    uty[state@[q] as int] as int,
                    prob_matrix@[i]@[0] as int,
                );
                assert(spec_slot_reward(bpq, uty, queries_ids@, prob_matrix@, state@, i, 0) > 0);
                assert(spec_slot_live(bpq, uty, queries_ids@, prob_matrix@, state@, 0));
            }
            assert forall|tt: int|
                0 <= tt < horizon && self.spec_slot_has_mass(
                    probs,
                    tt,
                    horizon as int,
                ) implies spec_matrix_live(prob_matrix@, tt) by {
                let q = choose|q: int|
                    0 <= q < self.total_queries && #[trigger] spec_is_candidate(probs, q)
                        && probs.spec_integrate(
                        q,
                        self.tm.deltas@[tt] as int,
                        dh,
                        probs.spec_lower_bound(tt),
                    ) > 0;
                let i = lemma_candidate_has_row(
                    *self,
                    &probs,
                    prob_matrix@,
                    queries_ids@,
                    horizon as int,
                    q,
                    tt,
                );
                assert(prob_matrix@[i]@[tt] > 0);
            }
        }
        self.greedy_partition(
            queries_ids,
            horizon,
            &prob_matrix,
            total_queries,
            &self.utility,
            state,
            rng,
        )
    }

    /// One full scheduling round from a 64-bit seed; the same seed and inputs
    /// walk the same random draws.
    pub fn run_scheduler_seeded(
        &self,
        probs: LazyProb,
        state: Vec<usize>,
        start_idx: usize,
        seed: u64,
    ) -> (plan: Vec<usize>)
        requires
            self.wf(),
            probs.wf(),
            probs.total_queries == self.total_queries,
            start_idx <= self.cachesize,
            state@.len() == self.total_queries,
            forall|q: int|
                0 <= q < self.total_queries
                    ==> (#[trigger] state@[q]) <= self.blocks_per_query@[q],
            forall|q: int|
                0 <= q < self.total_queries
                    ==> (#[trigger] self.blocks_per_query@[q]) <= self.utility@.len(),
            self.total_queries > 0
                ==> spec_horizon(self.cachesize as int, self.batch as int, start_idx as int)
                    < self.tm.deltas@.len(),
        ensures
            plan@.len() <= spec_horizon(self.cachesize as int, self.batch as int, start_idx as int),
            forall|i: int| 0 <= i < plan@.len() ==> (#[trigger] plan@[i]) < self.total_queries,
            self.total_queries == 0 ==> plan@.len() == 0,
            forall|q: int|
                0 <= q < self.total_queries
                    ==> state@[q] + spec_count(plan@, q) <= self.utility@.len(),
            ({
                let h = spec_horizon(self.cachesize as int, self.batch as int, start_idx as int);
                &&& self.total_queries > 0 && h > 0 && !self.spec_round_live(probs, state@, h)
                    ==> plan@.len() == 0
                &&& self.total_queries > 0 && h > 0 && self.spec_round_live(probs, state@, h) && (
                forall|q: int|
                    0 <= q < self.total_queries ==> (#[trigger] state@[q]) < self.utility@.len())
                    ==> plan@.len() >= 1
                &&& self.total_queries > 0 && (forall|q: int|
                    0 <= q < self.total_queries ==> (#[trigger] state@[q]) + h
                        <= self.blocks_per_query@[q]) && (forall|i: int|
                    0 <= i < self.utility@.len() ==> (#[trigger] self.utility@[i]) > 0) && (forall|
                    tt: int,
                |
                    0 <= tt < h ==> self.spec_slot_has_mass(probs, tt, h)) ==> plan@.len() == h
            }),
    {
        let mut rng = crate::sampling::rng_from_seed(seed);
        self.run_scheduler_with_rng(probs, state, start_idx, &mut rng)
    }

    /// One full scheduling round with a fresh random seed.
    pub fn run_scheduler(&self, probs: LazyProb, state: Vec<usize>, start_idx: usize) -> (plan: Vec<
        usize,
    >)
        requires
            self.wf(),
            probs.wf(),
            probs.total_queries == self.total_queries,
            start_idx <= self.cachesize,
            state@.len() == self.total_queries,
            forall|q: int|
                0 <= q < self.total_queries
                    ==> (#[trigger] state@[q]) <= self.blocks_per_query@[q],
            forall|q: int|
                0 <= q < self.total_queries
                    ==> (#[trigger] self.blocks_per_query@[q]) <= self.utility@.len(),
            self.total_queries > 0
                ==> spec_horizon(self.cachesize as int, self.batch as int, start_idx as int)
                    < self.tm.deltas@.len(),
        ensures
            plan@.len() <= spec_horizon(self.cachesize as int, self.batch as int, start_idx as int),
            forall|i: int| 0 <= i < plan@.len() ==> (#[trigger] plan@[i]) < self.total_queries,
            self.total_queries == 0 ==> plan@.len() == 0,
            forall|q: int|
                0 <= q < self.total_queries
                    ==> state@[q] + spec_count(plan@, q) <= self.utility@.len(),
            ({
                let h = spec_horizon(self.cachesize as int, self.batch as int, start_idx as int);
                &&& self.total_queries > 0 && h > 0 && !self.spec_round_live(probs, state@, h)
                    ==> plan@.len() == 0
                &&& self.total_queries > 0 && h > 0 && self.spec_round_live(probs, state@, h) && (
                forall|q: int|
                    0 <= q < self.total_queries ==> (#[trigger] state@[q]) < self.utility@.len())
                    ==> plan@.len() >= 1
                &&& self.total_queries > 0 && (forall|q: int|
                    0 <= q < self.total_queries ==> (#[trigger] state@[q]) + h
                        <= self.blocks_per_query@[q]) && (forall|i: int|
                    0 <= i < self.utility@.len() ==> (#[trigger] self.utility@[i]) > 0) && (forall|
                    tt: int,
                |
                    0 <= tt < h ==> self.spec_slot_has_mass(probs, tt, h)) ==> plan@.len() == h
            }),
    {
        let seed = crate::sampling::random_seed();
        self.run_scheduler_seeded(probs, state, start_idx, seed)
    }
}

} // verus!
