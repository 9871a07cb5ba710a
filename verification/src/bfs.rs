//! The breadth-first-search reward planner: explores the tile grid from a
//! seed tile, ranks the visited tiles by integrated probability, weights by
//! marginal utility, and samples one tile per cache slot.

use vstd::prelude::*;

use crate::DELTA_MAX;
use crate::PROB_ONE;
use crate::Q_LIMIT;
use crate::UTILITY_MAX;
use crate::lazyprob::LazyProb;
use crate::lemma_count_push;
use crate::sampling::lemma_sum_bounded;
use crate::sampling::spec_sum;
use crate::sampling::sample_query_weighted_by_rewards;
use crate::spec_count;
use crate::spec_isqrt;
use crate::greedy::spec_horizon;
use crate::greedy::spec_utility_matrix_wf;
use crate::greedy::populate_utility_matrix;
use crate::timing::TimeManager;

verus! {

/// `a` precedes or equals `b` in the order the open set is drained: by
/// integrated probability first, tile index as the tie-break.
pub open spec fn spec_lex_le(a: (u64, usize), b: (u64, usize)) -> bool {
    a.0 < b.0 || (a.0 == b.0 && a.1 <= b.1)
}

/// Removes and returns the greatest entry of the open set, by probability
/// and then by tile index.
fn pop_max(v: &mut Vec<(u64, usize)>) -> (r: (u64, usize))
    requires
        old(v)@.len() > 0,
    ensures
        old(v)@.contains(r),
        final(v)@.len() == old(v)@.len() - 1,
        exists|k: int| 0 <= k < old(v)@.len() && old(v)@[k] == r && final(v)@ == old(v)@.remove(k),
        forall|i: int| 0 <= i < final(v)@.len() ==> old(v)@.contains(#[trigger] final(v)@[i]),
        forall|i: int| 0 <= i < final(v)@.len() ==> spec_lex_le(#[trigger] final(v)@[i], r),
{
    let ghost pre = v@;
    let mut best: usize = 0;
    let mut i: usize = 1;
    while i < v.len()
        invariant
            v@ == pre,
            v@.len() > 0,
            best < i <= v@.len(),
            forall|j: int| 0 <= j < i ==> spec_lex_le(#[trigger] v@[j], v@[best as int]),
        decreases v@.len() - i,
    {
        let (pb, qb) = v[best];
        let (pi, qi) = v[i];
        if pi > pb || (pi == pb && qi > qb) {
            best = i;
        }
        i = i + 1;
    }
    let r = v.remove(best);
    proof {
        assert(pre.contains(r)) by {
            assert(pre[best as int] == r);
        }
        assert(pre[best as int] == r && v@ == pre.remove(best as int));
        assert forall|ii: int| 0 <= ii < v@.len() implies pre.contains(#[trigger] v@[ii]) by {
            if ii < best {
                assert(v@[ii] == pre[ii]);
            } else {
                assert(v@[ii] == pre[ii + 1]);
            }
        }
        assert forall|ii: int| 0 <= ii < v@.len() implies spec_lex_le(#[trigger] v@[ii], r) by {
            if ii < best {
                assert(v@[ii] == pre[ii]);
            } else {
                assert(v@[ii] == pre[ii + 1]);
            }
        }
    }
    r
}

/// The 4-neighborhood of tile `qid` on the `n x n` grid, in the fixed probe
/// order right, left, below, above; off-grid neighbors are dropped.
pub open spec fn spec_neighbour_seq(n: int, qid: int) -> Seq<usize> {
    if n <= 0 {
        Seq::empty()
    } else {
        let x0 = qid / n;
        let y0 = qid % n;
        (if x0 + 1 < n {
            seq![((x0 + 1) * n + y0) as usize]
        } else {
            Seq::empty()
        }) + (if 1 <= x0 && x0 - 1 < n {
            seq![((x0 - 1) * n + y0) as usize]
        } else {
            Seq::empty()
        }) + (if x0 < n && y0 + 1 < n {
            seq![(x0 * n + y0 + 1) as usize]
        } else {
            Seq::empty()
        }) + (if x0 < n && 1 <= y0 {
            seq![(x0 * n + y0 - 1) as usize]
        } else {
            Seq::empty()
        })
    }
}

/// `path` walks the 4-neighbor grid graph from `from` to `to`.
pub open spec fn spec_is_path(n: int, path: Seq<usize>, from: int, to: int) -> bool {
    &&& path.len() >= 1
    &&& path[0] as int == from
    &&& path[path.len() - 1] as int == to
    &&& forall|i: int|
        0 <= i < path.len() - 1 ==> spec_neighbour_seq(
            n,
            (#[trigger] path[i]) as int,
        ).contains(path[i + 1])
}

/// Tile `to` can be reached from `from` through the 4-neighbor grid graph.
pub open spec fn spec_reachable(n: int, from: int, to: int) -> bool {
    exists|path: Seq<usize>| spec_is_path(n, path, from, to)
}

proof fn lemma_reachable_self(n: int, from: usize)
    ensures
        spec_reachable(n, from as int, from as int),
{
    let path = seq![from];
    assert(spec_is_path(n, path, from as int, from as int));
}

/// Reachability extends over one more grid edge.
proof fn lemma_reachable_step(n: int, from: int, mid: usize, next: usize)
    requires
        spec_reachable(n, from, mid as int),
        spec_neighbour_seq(n, mid as int).contains(next),
    ensures
        spec_reachable(n, from, next as int),
{
    let path = choose|path: Seq<usize>| spec_is_path(n, path, from, mid as int);
    let p2 = path.push(next);
    assert(p2[0] == path[0]);
    assert(p2[p2.len() - 1] == next);
    assert forall|i: int|
        0 <= i < p2.len() - 1 implies spec_neighbour_seq(
        n,
        (#[trigger] p2[i]) as int,
    ).contains(p2[i + 1]) by {
        if i < path.len() - 1 {
            assert(p2[i] == path[i]);
            assert(p2[i + 1] == path[i + 1]);
        } else {
            assert(p2[i] == path[path.len() - 1]);
            assert(p2[i + 1] == next);
        }
    }
    assert(spec_is_path(n, p2, from, next as int));
}

/// Some open-set entry carries tile `id`.
pub open spec fn spec_in_open(open: Seq<(u64, usize)>, id: int) -> bool {
    exists|a: int| 0 <= a < open.len() && (#[trigger] open[a]).1 as int == id
}

/// In a recorded set that is closed under grid neighbors, every tile a path
/// from a recorded tile can reach is itself recorded.
proof fn lemma_path_stays_recorded(
    gn: int,
    q_total: int,
    path: Seq<usize>,
    qids: Seq<usize>,
    visited: Seq<bool>,
)
    requires
        path.len() >= 1,
        forall|i: int|
            0 <= i < path.len() - 1 ==> spec_neighbour_seq(
                gn,
                (#[trigger] path[i]) as int,
            ).contains(path[i + 1]),
        qids.contains(path[0]),
        visited.len() == q_total,
        forall|b: int, w2: int|
            0 <= b < qids.len() && 0 <= w2 < spec_neighbour_seq(
                gn,
                (#[trigger] qids[b]) as int,
            ).len() ==> (#[trigger] spec_neighbour_seq(gn, qids[b] as int)[w2]) < q_total
                && visited[spec_neighbour_seq(gn, qids[b] as int)[w2] as int],
        forall|id: int| 0 <= id < q_total && (#[trigger] visited[id]) ==> qids.contains(
            id as usize,
        ),
    ensures
        qids.contains(path[path.len() - 1]),
    decreases path.len(),
{
    if path.len() > 1 {
        let pre = path.drop_last();
        assert(pre[0] == path[0]);
        assert forall|i: int|
            0 <= i < pre.len() - 1 implies spec_neighbour_seq(
            gn,
            (#[trigger] pre[i]) as int,
        ).contains(pre[i + 1]) by {
            assert(pre[i] == path[i]);
            assert(pre[i + 1] == path[i + 1]);
        }
        lemma_path_stays_recorded(gn, q_total, pre, qids, visited);
        let mid = path[path.len() - 2];
        assert(pre[pre.len() - 1] == mid);
        let b = choose|b: int| 0 <= b < qids.len() && qids[b] == mid;
        assert(spec_neighbour_seq(gn, mid as int).contains(path[path.len() - 1])) by {
            assert(path[path.len() - 2] == mid);
        }
        let w2 = choose|w2: int|
            0 <= w2 < spec_neighbour_seq(gn, mid as int).len() && spec_neighbour_seq(
                gn,
                mid as int,
            )[w2] == path[path.len() - 1];
        assert(visited[spec_neighbour_seq(gn, qids[b] as int)[w2] as int]);
    }
}

/// The marginal utility of a tile's next block: the curve's entry at the
/// tile's block count, zero once the count has reached the curve's end.
pub open spec fn spec_next_block_utility(utility: Seq<u64>, nblocks: int) -> int {
    if 0 <= nblocks < utility.len() {
        utility[nblocks] as int
    } else {
        0
    }
}

/// The BFS reward planner. `utility_matrix` is derived once from the utility
/// curve and the per-tile block budgets; `num_queries_searched` caps how many
/// tiles one slot's search may rank.
pub struct BFSScheduler {
    pub cachesize: usize,
    pub utility: Vec<u64>,
    pub blocks_per_query: Vec<usize>,
    pub utility_matrix: Vec<u64>,
    pub total_queries: usize,
    pub tm: TimeManager,
    pub batch: usize,
    pub num_queries_searched: usize,
}

impl BFSScheduler {
    pub open spec fn wf(self) -> bool {
        &&& self.total_queries == self.blocks_per_query@.len()
        &&& self.total_queries <= Q_LIMIT
        &&& self.num_queries_searched <= Q_LIMIT
        &&& self.tm.wf()
        &&& forall|i: int|
            0 <= i < self.utility@.len() ==> (#[trigger] self.utility@[i]) <= UTILITY_MAX
        &&& spec_utility_matrix_wf(self.utility_matrix@, self.blocks_per_query@, self.utility@)
    }

    /// The on-grid 4-neighbors of tile `query_id` on the `n x n` grid with
    /// `n` the integer square root of the query-space size.
    pub fn neighbours(&self, query_id: usize) -> (r: Vec<usize>)
        requires
            self.wf(),
            self.total_queries >= 1,
            query_id < self.total_queries,
        ensures
            r@ == spec_neighbour_seq(spec_isqrt(self.total_queries as int), query_id as int),
            forall|i: int| 0 <= i < r@.len() ==> (#[trigger] r@[i]) < self.total_queries,
    {
        let n = crate::isqrt(self.total_queries);
        proof {
            if n == 0 {
                assert((n + 1) * (n + 1) == 1) by (nonlinear_arith)
                    requires n == 0;
            }
        }
        let x0 = query_id / n;
        let y0 = query_id % n;
        let mut neighbours: Vec<usize> = Vec::new();
        proof {
            assert(x0 == query_id as int / n as int);
            assert(y0 == query_id as int % n as int);
            assert(y0 < n) by {
                vstd::arithmetic::div_mod::lemma_mod_bound(query_id as int, n as int);
            }
            assert(x0 <= query_id) by {
                vstd::arithmetic::div_mod::lemma_div_nonincreasing(query_id as int, n as int);
            }
            assert((x0 as int) * (n as int) + (y0 as int) == query_id as int) by {
                vstd::arithmetic::div_mod::lemma_fundamental_div_mod(query_id as int, n as int);
            }
            if x0 + 1 < n {
                assert(((x0 + 1) as int) * (n as int) + (y0 as int) < (n as int) * (n as int))
                    by (nonlinear_arith)
                    requires 0 <= (x0 as int) + 1 < n as int, 0 <= y0 < n;
            }
            if 1 <= x0 && x0 - 1 < n {
                assert(((x0 - 1) as int) * (n as int) + (y0 as int) < (n as int) * (n as int))
                    by (nonlinear_arith)
                    requires 1 <= x0 as int, (x0 as int) - 1 < n as int, 0 <= y0 < n;
            }
            if x0 < n && y0 + 1 < n {
                assert((x0 as int) * (n as int) + (y0 as int) + 1 < (n as int) * (n as int))
                    by (nonlinear_arith)
                    requires 0 <= x0 as int, x0 < n, 0 <= (y0 as int) + 1 < n as int;
            }
            if x0 < n && 1 <= y0 {
                assert((x0 as int) * (n as int) + (y0 as int) - 1 < (n as int) * (n as int))
                    by (nonlinear_arith)
                    requires 0 <= x0 as int, x0 < n, 1 <= y0 < n;
            }
        }
        if x0 + 1 < n {
            proof {
                assert((x0 + 1) * n + y0 < self.total_queries);
            }
            neighbours.push((x0 + 1) * n + y0);
        }
        if x0 >= 1 && x0 - 1 < n {
            proof {
                assert((x0 - 1) * n + y0 < self.total_queries);
            }
            neighbours.push((x0 - 1) * n + y0);
        }
        if x0 < n && y0 + 1 < n {
            proof {
                assert(x0 * n + y0 + 1 < self.total_queries);
            }
            neighbours.push(x0 * n + y0 + 1);
        }
        if x0 < n && y0 >= 1 {
            proof {
                assert(x0 * n + y0 - 1 < self.total_queries);
            }
            neighbours.push(x0 * n + y0 - 1);
        }
        proof {
            assert(neighbours@ =~= spec_neighbour_seq(n as int, query_id as int));
        }
        neighbours
    }

    /// The per-slot client delays and the oracle's lower keyframe bound for
    /// each slot index, over one round's horizon.
    pub fn get_deltas_and_lower_bounds(
        &self,
        probs: &LazyProb,
        horizon: usize,
    ) -> (r: (Vec<u64>, Vec<u64>))
        requires
            self.wf(),
            probs.wf(),
            horizon <= self.tm.deltas@.len(),
        ensures
            r.0@.len() == horizon,
            r.1@.len() == horizon,
            forall|t: int| 0 <= t < horizon ==> (#[trigger] r.0@[t]) == self.tm.deltas@[t],
            forall|t: int|
                0 <= t < horizon ==> (#[trigger] r.1@[t]) as int == probs.spec_lower_bound(t),
    {
        let mut deltas: Vec<u64> = Vec::new();
        let mut lows: Vec<u64> = Vec::new();
        let mut t: usize = 0;
        while t < horizon
            invariant
                self.wf(),
                probs.wf(),
                horizon <= self.tm.deltas@.len(),
                t <= horizon,
                deltas@.len() == t,
                lows@.len() == t,
                forall|x: int| 0 <= x < t ==> (#[trigger] deltas@[x]) == self.tm.deltas@[x],
                forall|x: int|
                    0 <= x < t ==> (#[trigger] lows@[x]) as int == probs.spec_lower_bound(x),
            decreases horizon - t,
        {
            deltas.push(self.tm.slot_to_client_delta(t));
            lows.push(probs.get_lower_bound(t as u64));
            t = t + 1;
        }
        (deltas, lows)
    }

    /// Ranks up to `num_queries_searched` tiles reachable from `start_id`
    /// through the 4-neighborhood, each rated by its integrated probability
    /// over the slot's remaining horizon times the marginal utility of its
    /// next block (zero once its block count exhausts the utility curve). A
    /// seed outside the query space yields an empty ranking.
    #[verifier::rlimit(100)]
    fn bfs_by_rewards(
        &self,
        probs: &LazyProb,
        query_num_blocks_in_cache: &Vec<usize>,
        deltas: u64,
        horizon_delta: u64,
        lower_bound: u64,
        start_id: usize,
    ) -> (r: (Vec<u128>, Vec<usize>))
        requires
            self.wf(),
            probs.wf(),
            probs.total_queries == self.total_queries,
            query_num_blocks_in_cache@.len() == self.total_queries,
            horizon_delta <= DELTA_MAX,
        ensures
            r.0@.len() == r.1@.len(),
            r.0@.len() <= self.num_queries_searched,
            start_id < self.total_queries && self.num_queries_searched >= 1 ==> r.1@.len() >= 1
                && r.1@[0] == start_id,
            start_id >= self.total_queries ==> r.1@.len() == 0,
            forall|a: int, b: int| 0 <= a < b < r.1@.len() ==> r.1@[a] != r.1@[b],
            forall|i: int|
                0 <= i < r.1@.len() ==> spec_reachable(
                    spec_isqrt(self.total_queries as int),
                    start_id as int,
                    (#[trigger] r.1@[i]) as int,
                ),
            start_id < self.total_queries && r.1@.len() < self.num_queries_searched ==> (forall|
                q: usize,
            |
                q < self.total_queries && spec_reachable(
                    spec_isqrt(self.total_queries as int),
                    start_id as int,
                    q as int,
                ) ==> r.1@.contains(q)),
            forall|i: int| 0 <= i < r.1@.len() ==> (#[trigger] r.1@[i]) < self.total_queries,
            forall|i: int|
                0 <= i < r.0@.len() ==> (#[trigger] r.0@[i]) as int == spec_next_block_utility(
                    self.utility@,
                    query_num_blocks_in_cache@[r.1@[i] as int] as int,
                ) * probs.spec_integrate(
                    r.1@[i] as int,
                    deltas as int,
                    horizon_delta as int,
                    lower_bound as int,
                ),
            forall|i: int|
                0 <= i < r.0@.len() ==> (#[trigger] r.0@[i]) <= 0x8_0000_0000_0000_0000_0000u128,
            forall|i: int|
                0 <= i < r.0@.len() ==> ((#[trigger] r.0@[i]) > 0
                    ==> query_num_blocks_in_cache@[r.1@[i] as int] < self.utility@.len()
                        && self.utility@[query_num_blocks_in_cache@[r.1@[i] as int] as int] > 0),
    {
        let ghost gn = spec_isqrt(self.total_queries as int);
        if start_id >= self.total_queries {
            // the fixed seed lies outside the query space: nothing to rank
            let rewards: Vec<u128> = Vec::new();
            let query_ids: Vec<usize> = Vec::new();
            return (rewards, query_ids);
        }
        let mut visited: Vec<bool> = Vec::new();
        let mut z: usize = 0;
        while z < self.total_queries
            invariant
                z <= self.total_queries,
                visited@.len() == z,
                forall|k: int| 0 <= k < z ==> !(#[trigger] visited@[k]),
            decreases self.total_queries - z,
        {
            visited.push(false);
            z = z + 1;
        }
        let mut open: Vec<(u64, usize)> = Vec::new();
        let start_prob = probs.integrate_over_range(start_id, deltas, horizon_delta, lower_bound);
        visited.set(start_id, true);
        open.push((start_prob, start_id));
        proof {
            lemma_reachable_self(gn, start_id);
            assert(open@ =~= seq![(start_prob, start_id)]);
        }
        let mut rew_probs: Vec<u64> = Vec::new();
        let mut query_ids: Vec<usize> = Vec::new();
        proof {
            assert forall|id: int|
                0 <= id < self.total_queries && (#[trigger] visited@[id]) implies spec_in_open(
                open@,
                id,
            ) || query_ids@.contains(id as usize) by {
                if id == start_id as int {
                    assert(open@[0].1 as int == id);
                } else {
                    assert(!visited@[id]);
                }
            }
        }
        while open.len() > 0 && query_ids.len() < self.num_queries_searched
            invariant
                self.wf(),
                probs.wf(),
                probs.total_queries == self.total_queries,
                self.total_queries >= 1,
                horizon_delta <= DELTA_MAX,
                visited@.len() == self.total_queries,
                rew_probs@.len() == query_ids@.len(),
                query_ids@.len() <= self.num_queries_searched,
                forall|i: int|
                    0 <= i < open@.len() ==> (#[trigger] open@[i]).1 < self.total_queries,
                forall|i: int|
                    0 <= i < open@.len() ==> (#[trigger] open@[i]).0 as int <= 2 * (
                    PROB_ONE as int) * (DELTA_MAX as int),
                forall|i: int|
                    0 <= i < query_ids@.len() ==> (#[trigger] query_ids@[i]) < self.total_queries,
                forall|i: int|
                    0 <= i < rew_probs@.len() ==> (#[trigger] rew_probs@[i]) as int <= 2 * (
                    PROB_ONE as int) * (DELTA_MAX as int),
                gn == spec_isqrt(self.total_queries as int),
                start_id < self.total_queries,
                query_ids@.len() == 0 ==> open@ == seq![(start_prob, start_id)],
                query_ids@.len() >= 1 ==> query_ids@[0] == start_id,
                forall|a: int, b: int|
                    0 <= a < b < open@.len() ==> (#[trigger] open@[a]).1 != (#[trigger] open@[b]).1,
                forall|a: int, b: int|
                    0 <= a < b < query_ids@.len() ==> query_ids@[a] != query_ids@[b],
                forall|a: int, b: int|
                    0 <= a < open@.len() && 0 <= b < query_ids@.len() ==> (#[trigger] open@[a]).1 != (#[trigger] query_ids@[b]),
                forall|a: int| 0 <= a < open@.len() ==> visited@[(#[trigger] open@[a]).1 as int],
                forall|b: int|
                    0 <= b < query_ids@.len() ==> visited@[(#[trigger] query_ids@[b]) as int],
                forall|a: int|
                    0 <= a < open@.len() ==> (#[trigger] open@[a]).0 as int
                        == probs.spec_integrate(
                        open@[a].1 as int,
                        deltas as int,
                        horizon_delta as int,
                        lower_bound as int,
                    ),
                forall|i: int|
                    0 <= i < rew_probs@.len() ==> (#[trigger] rew_probs@[i]) as int
                        == probs.spec_integrate(
                        query_ids@[i] as int,
                        deltas as int,
                        horizon_delta as int,
                        lower_bound as int,
                    ),
                forall|a: int|
                    0 <= a < open@.len() ==> spec_reachable(
                        gn,
                        start_id as int,
                        (#[trigger] open@[a]).1 as int,
                    ),
                forall|b: int|
                    0 <= b < query_ids@.len() ==> spec_reachable(
                        gn,
                        start_id as int,
                        (#[trigger] query_ids@[b]) as int,
                    ),
                forall|id: int|
                    0 <= id < self.total_queries && (#[trigger] visited@[id]) ==> spec_in_open(
                        open@,
                        id,
                    ) || query_ids@.contains(id as usize),
                forall|b: int, w2: int|
                    0 <= b < query_ids@.len() && 0 <= w2 < spec_neighbour_seq(
                        gn,
                        (#[trigger] query_ids@[b]) as int,
                    ).len() ==> (#[trigger] spec_neighbour_seq(gn, query_ids@[b] as int)[w2])
                        < self.total_queries && visited@[spec_neighbour_seq(
                        gn,
                        query_ids@[b] as int,
                    )[w2] as int],
            decreases self.num_queries_searched - query_ids@.len(),
        {
            let ghost open_pre = open@;
            let (next_prob, next_query_id) = pop_max(&mut open);
            proof {
                let k = choose|k: int|
                    0 <= k < open_pre.len() && open_pre[k] == (next_prob, next_query_id) && open@
                        == open_pre.remove(k);
                assert(open_pre[k].1 < self.total_queries);
                assert forall|a: int| 0 <= a < open@.len() implies open@[a] == (if a < k {
                    open_pre[a]
                } else {
                    open_pre[a + 1]
                }) by {}
                // what remains in the open set never carries the popped tile
                assert forall|a: int|
                    0 <= a < open@.len() implies (#[trigger] open@[a]).1 != next_query_id by {
                    if a < k {
                        assert(open_pre[a].1 != open_pre[k].1);
                    } else {
                        assert(open_pre[a + 1].1 != open_pre[k].1);
                    }
                }
            }
            let ghost open_post = open@;
            let ghost qids_pre = query_ids@;
            rew_probs.push(next_prob);
            query_ids.push(next_query_id);
            let ghost qlen = query_ids@.len();
            proof {
                assert(query_ids@[qlen - 1] == next_query_id);
                assert(spec_reachable(gn, start_id as int, next_query_id as int));
                // a visited tile is still in the open set or recorded: the
                // popped one just moved from the former to the latter
                assert forall|id: int|
                    0 <= id < self.total_queries && (#[trigger] visited@[id]) implies spec_in_open(
                    open@,
                    id,
                ) || query_ids@.contains(id as usize) by {
                    let k = choose|k: int|
                        0 <= k < open_pre.len() && open_pre[k] == (next_prob, next_query_id)
                            && open_post == open_pre.remove(k);
                    if spec_in_open(open_pre, id) {
                        let a = choose|a: int|
                            0 <= a < open_pre.len() && (#[trigger] open_pre[a]).1 as int == id;
                        if a == k {
                            assert(query_ids@[qlen - 1] as int == id);
                        } else if a < k {
                            assert(open_post[a].1 as int == id);
                        } else {
                            assert(open_post[a - 1].1 as int == id);
                        }
                    } else {
                        assert(qids_pre.contains(id as usize));
                        let b = choose|b: int|
                            0 <= b < qids_pre.len() && qids_pre[b] == id as usize;
                        assert(query_ids@[b] == id as usize);
                    }
                }
                // the recorded tiles' neighborhoods stay covered
                assert forall|b: int, w2: int|
                    0 <= b < query_ids@.len() - 1 && 0 <= w2 < spec_neighbour_seq(
                        gn,
                        (#[trigger] query_ids@[b]) as int,
                    ).len() implies (#[trigger] spec_neighbour_seq(gn, query_ids@[b] as int)[w2])
                    < self.total_queries && visited@[spec_neighbour_seq(
                    gn,
                    query_ids@[b] as int,
                )[w2] as int] by {
                    assert(query_ids@[b] == qids_pre[b]);
                }
            }
            let neighbour_list = self.neighbours(next_query_id);
            let mut w: usize = 0;
            while w < neighbour_list.len()
                invariant
                    self.wf(),
                    probs.wf(),
                    probs.total_queries == self.total_queries,
                    self.total_queries >= 1,
                    horizon_delta <= DELTA_MAX,
                    visited@.len() == self.total_queries,
                    w <= neighbour_list@.len(),
                    gn == spec_isqrt(self.total_queries as int),
                    start_id < self.total_queries,
                    neighbour_list@ == spec_neighbour_seq(gn, next_query_id as int),
                    spec_reachable(gn, start_id as int, next_query_id as int),
                    query_ids@.len() >= 1,
                    query_ids@[0] == start_id,
                    rew_probs@.len() == query_ids@.len(),
                    query_ids@.len() <= self.num_queries_searched,
                    forall|i: int|
                        0 <= i < neighbour_list@.len()
                            ==> (#[trigger] neighbour_list@[i]) < self.total_queries,
                    forall|i: int|
                        0 <= i < open@.len() ==> (#[trigger] open@[i]).1 < self.total_queries,
                    forall|i: int|
                        0 <= i < open@.len() ==> (#[trigger] open@[i]).0 as int <= 2 * (
                        PROB_ONE as int) * (DELTA_MAX as int),
                    forall|i: int|
                        0 <= i < query_ids@.len()
                            ==> (#[trigger] query_ids@[i]) < self.total_queries,
                    forall|i: int|
                        0 <= i < rew_probs@.len() ==> (#[trigger] rew_probs@[i]) as int <= 2 * (
                        PROB_ONE as int) * (DELTA_MAX as int),
                    forall|a: int, b: int|
                        0 <= a < b < open@.len() ==> (#[trigger] open@[a]).1 != (#[trigger] open@[b]).1,
                    forall|a: int, b: int|
                        0 <= a < b < query_ids@.len() ==> query_ids@[a] != query_ids@[b],
                    forall|a: int, b: int|
                        0 <= a < open@.len() && 0 <= b < query_ids@.len() ==> (#[trigger] open@[a]).1 != (#[trigger] query_ids@[b]),
                    forall|a: int|
                        0 <= a < open@.len() ==> visited@[(#[trigger] open@[a]).1 as int],
                    forall|b: int|
                        0 <= b < query_ids@.len() ==> visited@[(#[trigger] query_ids@[b]) as int],
                    forall|a: int|
                        0 <= a < open@.len() ==> (#[trigger] open@[a]).0 as int
                            == probs.spec_integrate(
                            open@[a].1 as int,
                            deltas as int,
                            horizon_delta as int,
                            lower_bound as int,
                        ),
                    forall|i: int|
                        0 <= i < rew_probs@.len() ==> (#[trigger] rew_probs@[i]) as int
                            == probs.spec_integrate(
                            query_ids@[i] as int,
                            deltas as int,
                            horizon_delta as int,
                            lower_bound as int,
                        ),
                    forall|a: int|
                        0 <= a < open@.len() ==> spec_reachable(
                            gn,
                            start_id as int,
                            (#[trigger] open@[a]).1 as int,
                        ),
                    forall|b: int|
                        0 <= b < query_ids@.len() ==> spec_reachable(
                            gn,
                            start_id as int,
                            (#[trigger] query_ids@[b]) as int,
                        ),
                    forall|id: int|
                        0 <= id < self.total_queries && (#[trigger] visited@[id])
                            ==> spec_in_open(open@, id) || query_ids@.contains(id as usize),
                    forall|b: int, w2: int|
                        0 <= b < query_ids@.len() - 1 && 0 <= w2 < spec_neighbour_seq(
                            gn,
                            (#[trigger] query_ids@[b]) as int,
                        ).len() ==> (#[trigger] spec_neighbour_seq(
                            gn,
                            query_ids@[b] as int,
                        )[w2]) < self.total_queries && visited@[spec_neighbour_seq(
                            gn,
                            query_ids@[b] as int,
                        )[w2] as int],
                    query_ids@[query_ids@.len() - 1] == next_query_id,
                    forall|w2: int|
                        0 <= w2 < w ==> (#[trigger] neighbour_list@[w2]) < self.total_queries
                            && visited@[neighbour_list@[w2] as int],
                decreases neighbour_list@.len() - w,
            {
                let neighbour_id = neighbour_list[w];
                if !visited[neighbour_id] {
                    let neighbour_prob = probs.integrate_over_range(
                        neighbour_id,
                        deltas,
                        horizon_delta,
                        lower_bound,
                    );
                    proof {
                        assert(spec_neighbour_seq(gn, next_query_id as int).contains(neighbour_id))
                            by {
                            assert(neighbour_list@[w as int] == neighbour_id);
                        }
                        lemma_reachable_step(gn, start_id as int, next_query_id, neighbour_id);
                    }
                    let ghost open_b = open@;
                    let ghost visited_b = visited@;
                    visited.set(neighbour_id, true);
                    open.push((neighbour_prob, neighbour_id));
                    proof {
                        assert forall|id: int|
                            0 <= id < self.total_queries && (#[trigger] visited@[id]) implies
                            spec_in_open(open@, id) || query_ids@.contains(id as usize) by {
                            if id == neighbour_id as int {
                                assert(open@[open@.len() - 1].1 as int == id);
                            } else {
                                assert(visited_b[id]);
                                if spec_in_open(open_b, id) {
                                    let a = choose|a: int|
                                        0 <= a < open_b.len() && (#[trigger] open_b[a]).1 as int
                                            == id;
                                    assert(open@[a].1 as int == id);
                                }
                            }
                        }
                    }
                }
                w = w + 1;
            }
        }
        proof {
            if query_ids@.len() == 0 && self.num_queries_searched >= 1 {
                assert(open@ == seq![(start_prob, start_id)]);
                assert(open@.len() == 1);
                assert(false);
            }
            if query_ids@.len() < self.num_queries_searched {
                // the walk stopped because the open set drained: the recorded
                // set is closed under grid neighbors and covers everything
                // the seed can reach
                assert(open@.len() == 0);
                assert forall|id: int|
                    0 <= id < self.total_queries && (#[trigger] visited@[id]) implies
                    query_ids@.contains(id as usize) by {
                    if spec_in_open(open@, id) {
                        let a = choose|a: int|
                            0 <= a < open@.len() && (#[trigger] open@[a]).1 as int == id;
                        assert(false);
                    }
                }
                assert forall|q: usize|
                    q < self.total_queries && spec_reachable(
                        gn,
                        start_id as int,
                        q as int,
                    ) implies query_ids@.contains(q) by {
                    let path = choose|path: Seq<usize>|
                        spec_is_path(gn, path, start_id as int, q as int);
                    assert(query_ids@.contains(path[0])) by {
                        assert(query_ids@[0] == start_id);
                        assert(path[0] == start_id);
                    }
                    lemma_path_stays_recorded(
                        gn,
                        self.total_queries as int,
                        path,
                        query_ids@,
                        visited@,
                    );
                    assert(path[path.len() - 1] == q);
                }
            }
        }

        let mut rewards: Vec<u128> = Vec::new();
        let mut idx: usize = 0;
        while idx < query_ids.len()
            invariant
                self.wf(),
                query_num_blocks_in_cache@.len() == self.total_queries,
                rew_probs@.len() == query_ids@.len(),
                idx <= query_ids@.len(),
                rewards@.len() == idx,
                forall|i: int|
                    0 <= i < query_ids@.len() ==> (#[trigger] query_ids@[i]) < self.total_queries,
                forall|i: int|
                    0 <= i < rew_probs@.len() ==> (#[trigger] rew_probs@[i]) as int <= 2 * (
                    PROB_ONE as int) * (DELTA_MAX as int),
                forall|i: int|
                    0 <= i < rew_probs@.len() ==> (#[trigger] rew_probs@[i]) as int
                        == probs.spec_integrate(
                        query_ids@[i] as int,
                        deltas as int,
                        horizon_delta as int,
                        lower_bound as int,
                    ),
                forall|i: int|
                    0 <= i < idx ==> (#[trigger] rewards@[i]) <= 0x8_0000_0000_0000_0000_0000u128,
                forall|i: int|
                    0 <= i < idx ==> (#[trigger] rewards@[i]) as int == spec_next_block_utility(
                        self.utility@,
                        query_num_blocks_in_cache@[query_ids@[i] as int] as int,
                    ) * (rew_probs@[i] as int),
                forall|i: int|
                    0 <= i < idx ==> ((#[trigger] rewards@[i]) > 0
                        ==> query_num_blocks_in_cache@[query_ids@[i] as int] < self.utility@.len()
                            && self.utility@[query_num_blocks_in_cache@[query_ids@[i] as int] as int]
                                > 0),
            decreases query_ids@.len() - idx,
        {
            let qid = query_ids[idx];
            let nblocks = query_num_blocks_in_cache[qid];
            let u: u64 = if nblocks < self.utility.len() {
                self.utility[nblocks]
            } else {
                // past the end of the utility curve one more block is worthless
                0
            };
            proof {
                assert((u as int) * (rew_probs@[idx as int] as int)
                    <= 0x8_0000_0000_0000_0000_0000) by (nonlinear_arith)
                    requires
                        0 <= u as int <= 0x1_0000_0000,
                        0 <= rew_probs@[idx as int] as int <= 0x8_0000_0000_0000;
                assert(u == 0 ==> (u as int) * (rew_probs@[idx as int] as int) == 0)
                    by (nonlinear_arith);
                assert(rew_probs@[idx as int] == 0
                    ==> (u as int) * (rew_probs@[idx as int] as int) == 0) by (nonlinear_arith);
            }
            let reward: u128 = (u as u128) * (rew_probs[idx] as u128);
            rewards.push(reward);
            idx = idx + 1;
        }
        (rewards, query_ids)
    }

    /// One BFS round: for each slot, rank the tiles reachable from the seed
    /// tile and sample one by reward. The seed is the fixed tile index 1; a
    /// failed draw (no reachable tile carries a positive reward) ends the
    /// round with the plan built so far.
    pub fn generate_bfs_plan(
        &self,
        probs: LazyProb,
        horizon: usize,
        query_num_blocks_in_cache: Vec<usize>,
        rng: &mut rand::rngs::StdRng,
    ) -> (blocks: Vec<usize>)
        requires
            self.wf(),
            probs.wf(),
            probs.total_queries == self.total_queries,
            query_num_blocks_in_cache@.len() == self.total_queries,
            horizon < self.tm.deltas@.len(),
            forall|q: int|
                0 <= q < self.total_queries
                    ==> (#[trigger] query_num_blocks_in_cache@[q]) <= self.utility@.len(),
        ensures
            blocks@.len() <= horizon,
            forall|i: int| 0 <= i < blocks@.len() ==> (#[trigger] blocks@[i]) < self.total_queries,
            forall|q: int|
                0 <= q < self.total_queries
                    ==> query_num_blocks_in_cache@[q] + spec_count(blocks@, q)
                        <= self.utility@.len(),
            self.total_queries <= 1 ==> blocks@.len() == 0,
            horizon > 0 && self.total_queries >= 2 && (forall|q: int|
                0 <= q < self.total_queries && spec_reachable(
                    spec_isqrt(self.total_queries as int),
                    1,
                    q,
                ) ==> #[trigger] spec_next_block_utility(
                    self.utility@,
                    query_num_blocks_in_cache@[q] as int,
                ) * probs.spec_integrate(
                    q,
                    self.tm.deltas@[0] as int,
                    self.tm.deltas@[horizon as int] as int,
                    probs.spec_lower_bound(0),
                ) == 0) ==> blocks@.len() == 0,
            self.total_queries >= 2 && self.num_queries_searched >= 1
                && query_num_blocks_in_cache@[1] + horizon <= self.utility@.len() && (forall|
                i: int,
            |
                0 <= i < self.utility@.len() ==> (#[trigger] self.utility@[i]) > 0) && (forall|
                tt: int,
            |
                0 <= tt < horizon ==> probs.spec_integrate(
                    1,
                    #[trigger] (self.tm.deltas@[tt]) as int,
                    self.tm.deltas@[horizon as int] as int,
                    probs.spec_lower_bound(tt),
                ) > 0) ==> blocks@.len() == horizon,
    {
        let ghost state0 = query_num_blocks_in_cache@;
        let mut state = query_num_blocks_in_cache;
        let (deltas, lows) = self.get_deltas_and_lower_bounds(&probs, horizon);
        let horizon_delta = self.tm.slot_to_client_delta(horizon);
        let mut blocks: Vec<usize> = Vec::new();
        let mut done = false;
        let mut t: usize = 0;
        proof {
            assert forall|q: int| 0 <= q < self.total_queries implies spec_count(blocks@, q)
                == 0 by {}
        }
        while t < horizon && !done
            invariant
                self.wf(),
                probs.wf(),
                probs.total_queries == self.total_queries,
                horizon < self.tm.deltas@.len(),
                deltas@.len() == horizon,
                lows@.len() == horizon,
                horizon_delta == self.tm.deltas@[horizon as int],
                horizon_delta <= DELTA_MAX,
                forall|x: int| 0 <= x < horizon ==> (#[trigger] deltas@[x]) == self.tm.deltas@[x],
                forall|x: int|
                    0 <= x < horizon ==> (#[trigger] lows@[x]) as int == probs.spec_lower_bound(x),
                t <= horizon,
                blocks@.len() <= t,
                done ==> t >= 1,
                state@.len() == self.total_queries,
                state0.len() == self.total_queries,
                forall|i: int| 0 <= i < blocks@.len() ==> (#[trigger] blocks@[i]) < self.total_queries,
                forall|q: int|
                    0 <= q < self.total_queries
                        ==> (#[trigger] state@[q]) == state0[q] + spec_count(blocks@, q),
                forall|q: int|
                    0 <= q < self.total_queries ==> (#[trigger] state@[q]) <= self.utility@.len(),
                self.total_queries <= 1 ==> blocks@.len() == 0 && (t > 0 ==> done),
                horizon > 0 && self.total_queries >= 2 && (forall|q: int|
                    0 <= q < self.total_queries && spec_reachable(
                        spec_isqrt(self.total_queries as int),
                        1,
                        q,
                    ) ==> #[trigger] spec_next_block_utility(self.utility@, state0[q] as int)
                        * probs.spec_integrate(
                        q,
                        self.tm.deltas@[0] as int,
                        self.tm.deltas@[horizon as int] as int,
                        probs.spec_lower_bound(0),
                    ) == 0) ==> blocks@.len() == 0 && (t > 0 ==> done),
                (self.total_queries >= 2 && self.num_queries_searched >= 1 && state0[1] + horizon
                    <= self.utility@.len() && (forall|i: int|
                    0 <= i < self.utility@.len() ==> (#[trigger] self.utility@[i]) > 0) && (forall|
                    tt: int,
                |
                    0 <= tt < horizon ==> probs.spec_integrate(
                        1,
                        #[trigger] (self.tm.deltas@[tt]) as int,
                        self.tm.deltas@[horizon as int] as int,
                        probs.spec_lower_bound(tt),
                    ) > 0)) ==> blocks@.len() == t && !done,
            decreases horizon - t,
        {
            let ghost dead_round = horizon > 0 && self.total_queries >= 2 && (forall|q: int|
                0 <= q < self.total_queries && spec_reachable(
                    spec_isqrt(self.total_queries as int),
                    1,
                    q,
                ) ==> #[trigger] spec_next_block_utility(self.utility@, state0[q] as int)
                    * probs.spec_integrate(
                    q,
                    self.tm.deltas@[0] as int,
                    self.tm.deltas@[horizon as int] as int,
                    probs.spec_lower_bound(0),
                ) == 0);
            let ghost deep_round = self.total_queries >= 2 && self.num_queries_searched >= 1
                && state0[1] + horizon <= self.utility@.len() && (forall|i: int|
                0 <= i < self.utility@.len() ==> (#[trigger] self.utility@[i]) > 0) && (forall|
                tt: int,
            |
                0 <= tt < horizon ==> probs.spec_integrate(
                    1,
                    #[trigger] (self.tm.deltas@[tt]) as int,
                    self.tm.deltas@[horizon as int] as int,
                    probs.spec_lower_bound(tt),
                ) > 0);
            let (rewards, query_ids) = self.bfs_by_rewards(
                &probs,
                &state,
                deltas[t],
                horizon_delta,
                lows[t],
                1,
            );
            proof {
                lemma_sum_bounded(rewards@, 0x8_0000_0000_0000_0000_0000);
                assert(rewards@.len() as int * 0x8_0000_0000_0000_0000_0000
                    <= Q_LIMIT as int * 0x8_0000_0000_0000_0000_0000) by (nonlinear_arith)
                    requires rewards@.len() <= Q_LIMIT;
                crate::sampling::lemma_sum_zero_iff(rewards@);
                if t == 0 {
                    assert forall|q: int|
                        0 <= q < self.total_queries implies state@[q] == state0[q] by {
                        assert(state@[q] == state0[q] + spec_count(blocks@, q));
                    }
                    assert(state@ =~= state0);
                }
                if self.total_queries <= 1 {
                    assert(query_ids@.len() == 0);
                    assert(spec_sum(rewards@) == 0);
                }
                if dead_round {
                    // under this round's premise every ranked tile is
                    // worthless at slot 0, and the walk has not passed it
                    assert(t == 0);
                    assert forall|i: int| 0 <= i < rewards@.len() implies rewards@[i] == 0 by {
                        assert(spec_reachable(
                            spec_isqrt(self.total_queries as int),
                            1,
                            query_ids@[i] as int,
                        ));
                        assert(deltas@[0] == self.tm.deltas@[0]);
                        assert(lows@[0] as int == probs.spec_lower_bound(0));
                        assert(spec_next_block_utility(
                            self.utility@,
                            state0[query_ids@[i] as int] as int,
                        ) * probs.spec_integrate(
                            query_ids@[i] as int,
                            self.tm.deltas@[0] as int,
                            self.tm.deltas@[horizon as int] as int,
                            probs.spec_lower_bound(0),
                        ) == 0);
                    }
                    assert(spec_sum(rewards@) == 0);
                }
                if deep_round {
                    // the seed tile still has budget and carries mass, so
                    // its ranking entry keeps the slot alive
                    assert(query_ids@.len() >= 1 && query_ids@[0] == 1);
                    assert(state@[1] == state0[1] + spec_count(blocks@, 1));
                    crate::lemma_count_le_len(blocks@, 1);
                    assert(blocks@.len() == t);
                    assert(state@[1] < self.utility@.len());
                    assert(self.utility@[state@[1] as int] > 0);
                    assert(probs.spec_integrate(
                        1,
                        self.tm.deltas@[t as int] as int,
                        self.tm.deltas@[horizon as int] as int,
                        probs.spec_lower_bound(t as int),
                    ) > 0);
                    crate::lemma_pos_product(
                        spec_next_block_utility(self.utility@, state@[1] as int),
                        probs.spec_integrate(
                            1,
                            self.tm.deltas@[t as int] as int,
                            self.tm.deltas@[horizon as int] as int,
                            probs.spec_lower_bound(t as int),
                        ),
                    );
                    assert(rewards@[0] > 0);
                    assert(spec_sum(rewards@) != 0);
                }
            }
            let qindex = sample_query_weighted_by_rewards(&rewards, rng);
            if qindex == rewards.len() {
                // every reachable tile's reward is zero: end the round
                done = true;
            } else {
                let qid = query_ids[qindex];
                let ulen = self.utility.len();
                proof {
                    assert(rewards@[qindex as int] > 0);
                    assert(qid < self.total_queries);
                    assert(state@[qid as int] < ulen);
                    assert(state0.len() == self.total_queries);
                    assert forall|q: int|
                        0 <= q < self.total_queries implies state@.update(
                        qid as int,
                        (state@[qid as int] + 1) as usize,
                    )[q] == state0[q] + spec_count(blocks@.push(qid), q) by {
                        lemma_count_push(blocks@, qid, q);
                        assert(state@[q] == state0[q] + spec_count(blocks@, q));
                        if q == qid as int {
                            assert(state@.update(qid as int, (state@[qid as int] + 1) as usize)[q]
                                == (state@[qid as int] + 1) as usize);
                            assert(spec_count(blocks@.push(qid), q)
                                == spec_count(blocks@, q) + 1);
                        } else {
                            assert(state@.update(qid as int, (state@[qid as int] + 1) as usize)[q]
                                == state@[q]);
                            assert(spec_count(blocks@.push(qid), q) == spec_count(blocks@, q));
                        }
                    }
                }
                let bumped = state[qid] + 1;
                state.set(qid, bumped);
                blocks.push(qid);
            }
            t = t + 1;
        }
        proof {
            assert forall|q: int|
                0 <= q < self.total_queries implies state0[q] + spec_count(blocks@, q)
                <= self.utility@.len() by {
                assert(state@[q] == state0[q] + spec_count(blocks@, q));
                assert(state@[q] <= self.utility@.len());
            }
        }
        blocks
    }

    /// One full scheduling round with an explicit random source: fills at
    /// most `min(cachesize - start_idx, batch)` cache slots, each with a tile
    /// index below the query-space size; a tile never collects more blocks
    /// than the utility curve has entries.
    pub fn run_scheduler_with_rng(
        &self,
        probs: LazyProb,
        state: Vec<usize>,
        start_idx: usize,
        rng: &mut rand::rngs::StdRng,
    ) -> (plan: Vec<usize>)
        requires
            self.wf(),
            probs.wf(),
            probs.total_queries == self.total_queries,
            start_idx <= self.cachesize,
            state@.len() == self.total_queries,
            forall|q: int|
                0 <= q < self.total_queries
                    ==> (#[trigger] state@[q]) <= self.utility@.len(),
            self.total_queries > 0
                ==> spec_horizon(self.cachesize as int, self.batch as int, start_idx as int)
                    < self.tm.deltas@.len(),
        ensures
            plan@.len() <= spec_horizon(self.cachesize as int, self.batch as int, start_idx as int),
            forall|i: int| 0 <= i < plan@.len() ==> (#[trigger] plan@[i]) < self.total_queries,
            self.total_queries == 0 ==> plan@.len() == 0,
            forall|q: int|
                0 <= q < self.total_queries
                    ==> state@[q] + spec_count(plan@, q) <= self.utility@.len(),
            ({
                let h = spec_horizon(self.cachesize as int, self.batch as int, start_idx as int);
                let gn = spec_isqrt(self.total_queries as int);
                &&& self.total_queries <= 1 ==> plan@.len() == 0
                &&& h > 0 && self.total_queries >= 2 && (forall|q: int|
                    0 <= q < self.total_queries && spec_reachable(gn, 1, q)
                        ==> #[trigger] spec_next_block_utility(self.utility@, state@[q] as int)
                            * probs.spec_integrate(
                            q,
                            self.tm.deltas@[0] as int,
                            self.tm.deltas@[h] as int,
                            probs.spec_lower_bound(0),
                        ) == 0) ==> plan@.len() == 0
                &&& (self.total_queries >= 2 && self.num_queries_searched >= 1 && state@[1] + h
                    <= self.utility@.len() && (forall|i: int|
                    0 <= i < self.utility@.len() ==> (#[trigger] self.utility@[i]) > 0) && (forall|
                    tt: int,
                |
                    0 <= tt < h ==> probs.spec_integrate(
                        1,
                        #[trigger] (self.tm.deltas@[tt]) as int,
                        self.tm.deltas@[h] as int,
                        probs.spec_lower_bound(tt),
                    ) > 0)) ==> plan@.len() == h
            }),
    {
        let total_queries = self.total_queries;
        let horizon = if self.cachesize - start_idx < self.batch {
            self.cachesize - start_idx
        } else {
            self.batch
        };
        if total_queries == 0 {
            let empty: Vec<usize> = Vec::new();
            proof {
                assert forall|q: int|
                    0 <= q < self.total_queries implies state@[q] + spec_count(empty@, q)
                    <= self.utility@.len() by {}
            }
            return empty;
        }
        self.generate_bfs_plan(probs, horizon, state, rng)
    }

    /// One full scheduling round from a 64-bit seed; the same seed and inputs
    /// walk the same random draws.
    pub fn run_scheduler_seeded(
        &self,
        probs: LazyProb,
        state: Vec<usize>,
        start_idx: usize,
        seed: u64,
    ) -> (plan: Vec<usize>)
        requires
            self.wf(),
            probs.wf(),
            probs.total_queries == self.total_queries,
            start_idx <= self.cachesize,
            state@.len() == self.total_queries,
            forall|q: int|
                0 <= q < self.total_queries
                    ==> (#[trigger] state@[q]) <= self.utility@.len(),
            self.total_queries > 0
                ==> spec_horizon(self.cachesize as int, self.batch as int, start_idx as int)
                    < self.tm.deltas@.len(),
        ensures
            plan@.len() <= spec_horizon(self.cachesize as int, self.batch as int, start_idx as int),
            forall|i: int| 0 <= i < plan@.len() ==> (#[trigger] plan@[i]) < self.total_queries,
            self.total_queries == 0 ==> plan@.len() == 0,
            forall|q: int|
                0 <= q < self.total_queries
                    ==> state@[q] + spec_count(plan@, q) <= self.utility@.len(),
            ({
                let h = spec_horizon(self.cachesize as int, self.batch as int, start_idx as int);
                let gn = spec_isqrt(self.total_queries as int);
                &&& self.total_queries <= 1 ==> plan@.len() == 0
                &&& h > 0 && self.total_queries >= 2 && (forall|q: int|
                    0 <= q < self.total_queries && spec_reachable(gn, 1, q)
                        ==> #[trigger] spec_next_block_utility(self.utility@, state@[q] as int)
                            * probs.spec_integrate(
                            q,
                            self.tm.deltas@[0] as int,
                            self.tm.deltas@[h] as int,
                            probs.spec_lower_bound(0),
                        ) == 0) ==> plan@.len() == 0
                &&& (self.total_queries >= 2 && self.num_queries_searched >= 1 && state@[1] + h
                    <= self.utility@.len() && (forall|i: int|
                    0 <= i < self.utility@.len() ==> (#[trigger] self.utility@[i]) > 0) && (forall|
                    tt: int,
                |
                    0 <= tt < h ==> probs.spec_integrate(
                        1,
                        #[trigger] (self.tm.deltas@[tt]) as int,
                        self.tm.deltas@[h] as int,
                        probs.spec_lower_bound(tt),
                    ) > 0)) ==> plan@.len() == h
            }),
    {
        let mut rng = crate::sampling::rng_from_seed(seed);
        self.run_scheduler_with_rng(probs, state, start_idx, &mut rng)
    }

    /// One full scheduling round with a fresh random seed.
    pub fn run_scheduler(&self, probs: LazyProb, state: Vec<usize>, start_idx: usize) -> (plan: Vec<
        usize,
    >)
        requires
            self.wf(),
            probs.wf(),
            probs.total_queries == self.total_queries,
            start_idx <= self.cachesize,
            state@.len() == self.total_queries,
            forall|q: int|
                0 <= q < self.total_queries
                    ==> (#[trigger] state@[q]) <= self.utility@.len(),
            self.total_queries > 0
                ==> spec_horizon(self.cachesize as int, self.batch as int, start_idx as int)
                    < self.tm.deltas@.len(),
        ensures
            plan@.len() <= spec_horizon(self.cachesize as int, self.batch as int, start_idx as int),
            forall|i: int| 0 <= i < plan@.len() ==> (#[trigger] plan@[i]) < self.total_queries,
            self.total_queries == 0 ==> plan@.len() == 0,
            forall|q: int|
                0 <= q < self.total_queries
                    ==> state@[q] + spec_count(plan@, q) <= self.utility@.len(),
            ({
                let h = spec_horizon(self.cachesize as int, self.batch as int, start_idx as int);
                let gn = spec_isqrt(self.total_queries as int);
                &&& self.total_queries <= 1 ==> plan@.len() == 0
                &&& h > 0 && self.total_queries >= 2 && (forall|q: int|
                    0 <= q < self.total_queries && spec_reachable(gn, 1, q)
                        ==> #[trigger] spec_next_block_utility(self.utility@, state@[q] as int)
                            * probs.spec_integrate(
                            q,
                            self.tm.deltas@[0] as int,
                            self.tm.deltas@[h] as int,
                            probs.spec_lower_bound(0),
                        ) == 0) ==> plan@.len() == 0
                &&& (self.total_queries >= 2 && self.num_queries_searched >= 1 && state@[1] + h
                    <= self.utility@.len() && (forall|i: int|
                    0 <= i < self.utility@.len() ==> (#[trigger] self.utility@[i]) > 0) && (forall|
                    tt: int,
                |
                    0 <= tt < h ==> probs.spec_integrate(
                        1,
                        #[trigger] (self.tm.deltas@[tt]) as int,
                        self.tm.deltas@[h] as int,
                        probs.spec_lower_bound(tt),
                    ) > 0)) ==> plan@.len() == h
            }),
    {
        let seed = crate::sampling::random_seed();
        self.run_scheduler_seeded(probs, state, start_idx, seed)
    }
}

/// Builds a BFS planner over `blocks_per_query.len()` tiles, deriving the
/// masked utility matrix from the curve and the budgets; each slot's search
/// ranks at most 100 tiles.
pub fn new(
    batch: usize,
    cachesize: usize,
    utility: Vec<u64>,
    blocks_per_query: Vec<usize>,
    tm: TimeManager,
) -> (r: BFSScheduler)
    requires
        blocks_per_query@.len() <= Q_LIMIT,
        blocks_per_query@.len() * utility@.len() <= usize::MAX,
        forall|i: int| 0 <= i < utility@.len() ==> (#[trigger] utility@[i]) <= UTILITY_MAX,
        tm.wf(),
    ensures
        r.wf(),
        r.batch == batch,
        r.cachesize == cachesize,
        r.utility@ == utility@,
        r.blocks_per_query@ == blocks_per_query@,
        r.total_queries == blocks_per_query@.len(),
        r.tm == tm,
        r.num_queries_searched == 100,
{
    let total_queries = blocks_per_query.len();
    let max_blocks_count = utility.len();
    proof {
        assert(0 <= total_queries * max_blocks_count) by (nonlinear_arith)
            requires 0 <= total_queries, 0 <= max_blocks_count;
    }
    let size: usize = total_queries * max_blocks_count;
    let mut utility_matrix: Vec<u64> = Vec::new();
    let mut z: usize = 0;
    while z < size
        invariant
            z <= size,
            utility_matrix@.len() == z,
        decreases size - z,
    {
        utility_matrix.push(0);
        z = z + 1;
    }
    populate_utility_matrix(&mut utility_matrix, &blocks_per_query, &utility);
    BFSScheduler {
        cachesize,
        utility,
        batch,
        total_queries,
        utility_matrix,
        tm,
        blocks_per_query,
        num_queries_searched: 100,
    }
}

} // verus!
