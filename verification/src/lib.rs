use vstd::prelude::*;

pub mod bfs;
pub mod codec;
pub mod greedy;
pub mod layout;
pub mod lazyprob;
pub mod sampling;
pub mod timing;

verus! {

/// Probabilities, mixing weights and utilities are carried as fixed-point
/// values in units of `1 / PROB_ONE`; a probability of one is `PROB_ONE`.
pub const PROB_ONE: u64 = 1_000_000;

/// Largest millisecond offset the oracle accepts; keeps all fixed-point
/// areas within `u64` and all sampling weights within `u128`.
pub const DELTA_MAX: u64 = 0x4000_0000;

pub open spec fn spec_uniform_floor(q: int) -> int {
    if q == 0 {
        0
    } else {
        PROB_ONE as int / q
    }
}

/// The uniform floor over a query space of `q` tiles, in fixed-point units.
pub fn uniform_floor(q: usize) -> (r: u64)
    ensures
        r == spec_uniform_floor(q as int),
        r <= PROB_ONE,
{
    if q == 0 {
        0
    } else {
        PROB_ONE / (q as u64)
    }
}

/// Largest fixed-point marginal utility a planner accepts; keeps every
/// reward product within `u128`.
pub const UTILITY_MAX: u64 = 0x1_0000_0000;

/// Largest query-space size a planner accepts; keeps the total sampling
/// weight within `u128`.
pub const Q_LIMIT: usize = 0x1000_0000;

/// How many times tile `q` occurs in a plan.
pub open spec fn spec_count(s: Seq<usize>, q: int) -> int
    decreases s.len(),
{
    if s.len() == 0 {
        0
    } else {
        spec_count(s.drop_last(), q) + if s.last() == q {
            1int
        } else {
            0int
        }
    }
}

pub proof fn lemma_count_push(s: Seq<usize>, v: usize, q: int)
    ensures
        spec_count(s.push(v), q) == spec_count(s, q) + if v == q {
            1int
        } else {
            0int
        },
{
    assert(s.push(v).drop_last() =~= s);
    assert(s.push(v).last() == v);
}

pub proof fn lemma_count_nonneg(s: Seq<usize>, q: int)
    ensures
        spec_count(s, q) >= 0,
    decreases s.len(),
{
    if s.len() > 0 {
        lemma_count_nonneg(s.drop_last(), q);
    }
}

pub proof fn lemma_count_le_len(s: Seq<usize>, q: int)
    ensures
        0 <= spec_count(s, q) <= s.len(),
    decreases s.len(),
{
    if s.len() > 0 {
        lemma_count_le_len(s.drop_last(), q);
    }
}

/// A product of nonnegative factors is positive exactly when both are.
pub proof fn lemma_pos_product(a: int, b: int)
    requires
        0 <= a,
        0 <= b,
    ensures
        a * b > 0 <==> (a > 0 && b > 0),
{
    assert(a * b > 0 <==> (a > 0 && b > 0)) by (nonlinear_arith)
        requires 0 <= a, 0 <= b;
}

pub open spec fn spec_isqrt(q: int) -> int {
    choose|n: int| 0 <= n && #[trigger] (n * n) <= q < (n + 1) * (n + 1)
}

proof fn lemma_isqrt_unique(q: int, n: int)
    requires
        0 <= n,
        n * n <= q < (n + 1) * (n + 1),
    ensures
        spec_isqrt(q) == n,
{
    assert(0 <= n && n * n <= q < (n + 1) * (n + 1));
    let m = spec_isqrt(q);
    assert(0 <= m && m * m <= q < (m + 1) * (m + 1));
    if m < n {
        assert((m + 1) * (m + 1) <= n * n) by (nonlinear_arith)
            requires 0 <= m, 0 <= n, m < n;
    }
    if n < m {
        assert((n + 1) * (n + 1) <= m * m) by (nonlinear_arith)
            requires 0 <= m, 0 <= n, n < m;
    }
}

/// Side length of the square tile grid that a query space of `q` tiles covers:
/// the integer square root of `q`.
pub fn isqrt(q: usize) -> (n: usize)
    ensures
        n * n <= q < (n + 1) * (n + 1),
        n == spec_isqrt(q as int),
{
    let mut n: usize = 0;
    while n < q && (n + 1) <= q / (n + 1)
        invariant
            n * n <= q,
            n <= q,
        decreases q - n,
    {
        assert((n + 1) * (n + 1) <= q) by (nonlinear_arith)
            requires (n + 1) as int <= q as int / (n + 1) as int, 0 < n + 1;
        n = n + 1;
    }
    assert(q < (n + 1) * (n + 1)) by (nonlinear_arith)
        requires
            n * n <= q,
            n == q || (n + 1) as int > q as int / (n + 1) as int,
            0 <= n,
            0 <= q;
    proof {
        lemma_isqrt_unique(q as int, n as int);
    }
    n
}

} // verus!
