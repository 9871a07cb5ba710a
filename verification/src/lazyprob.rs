//! The probability oracle: keyframed per-tile probabilities with a uniform
//! floor and a point-mass mixture, interpolated and integrated over time.
//!
//! All probabilities are fixed-point values in units of `1 / PROB_ONE`
//! (see the crate root); keyframe offsets are milliseconds.

use vstd::prelude::*;

use crate::DELTA_MAX;
use crate::PROB_ONE;
use crate::spec_isqrt;
use crate::spec_uniform_floor;

verus! {

/// A degenerate distribution concentrated on one tile index, mixed into a
/// base distribution with weight `1 - alpha` (`alpha` is the weight of the
/// base; both are fixed-point in units of `1 / PROB_ONE`).
pub struct PointDist {
    pub alpha: u64,
    pub q_index: usize,
}

impl PointDist {
    pub open spec fn wf(self) -> bool {
        self.alpha <= PROB_ONE
    }

    pub open spec fn spec_get_prob(self, key: int) -> int {
        if key == self.q_index as int {
            PROB_ONE as int
        } else {
            0
        }
    }

    /// Probability one on the concentrated index, zero elsewhere.
    pub fn get_prob(&self, key: usize) -> (r: u64)
        ensures
            r == self.spec_get_prob(key as int),
    {
        if key == self.q_index {
            PROB_ONE
        } else {
            0
        }
    }
}

/// One keyframe: the per-tile probabilities at a single millisecond offset,
/// together with the tile index of the distribution's center.
pub struct LazyProbInstance {
    pub probs: Vec<u64>,
    pub center: usize,
}

/// The total probability a keyframe table carries.
pub open spec fn spec_table_mass(probs: Seq<u64>) -> int
    decreases probs.len(),
{
    if probs.len() == 0 {
        0
    } else {
        spec_table_mass(probs.drop_last()) + probs.last()
    }
}

impl LazyProbInstance {
    /// A well-formed keyframe is a subdistribution: every entry is a
    /// probability and the whole table carries at most probability one.
    pub open spec fn wf(self) -> bool {
        &&& forall|i: int| 0 <= i < self.probs@.len() ==> self.probs@[i] <= PROB_ONE
        &&& spec_table_mass(self.probs@) <= PROB_ONE
    }

    /// Builds a keyframe from a per-tile probability table and its center
    /// tile index.
    pub fn new(probs: Vec<u64>, center: usize) -> (r: Self)
        requires
            forall|i: int| 0 <= i < probs@.len() ==> probs@[i] <= PROB_ONE,
            spec_table_mass(probs@) <= PROB_ONE,
        ensures
            r.wf(),
            r.probs@ == probs@,
            r.center == center,
    {
        LazyProbInstance { probs, center }
    }

    /// The probability of tile `key` under this keyframe.
    pub fn get(&self, key: usize) -> (r: u64)
        requires
            key < self.probs@.len(),
        ensures
            r == self.probs@[key as int],
    {
        self.probs[key]
    }

    /// The tile index of the distribution's center.
    pub fn get_center_query_id(&self) -> (r: usize)
        ensures
            r == self.center,
    {
        self.center
    }
}

/// The probability oracle consumed by one planner run. Keyframes are kept
/// sorted by millisecond offset; lookups between keyframes fall back to the
/// uniform floor `inf`, and every value is mixed with the point mass.
pub struct LazyProb {
    pub total_queries: usize,
    pub frames: Vec<(u64, LazyProbInstance)>,
    pub inf: u64,
    pub num_row: usize,
    pub point_dist: PointDist,
}

impl LazyProb {
    pub open spec fn wf(self) -> bool {
        &&& self.point_dist.wf()
        &&& self.inf == spec_uniform_floor(self.total_queries as int)
        &&& self.num_row == spec_isqrt(self.total_queries as int)
        &&& forall|i: int, j: int|
            0 <= i < j < self.frames@.len() ==> self.frames@[i].0 < self.frames@[j].0
        &&& forall|i: int|
            0 <= i < self.frames@.len() ==> (#[trigger] self.frames@[i]).0 <= DELTA_MAX
        &&& forall|i: int|
            0 <= i < self.frames@.len() ==> (#[trigger] self.frames@[i]).1.wf()
        &&& forall|i: int|
            0 <= i < self.frames@.len()
                ==> (#[trigger] self.frames@[i]).1.probs@.len() == self.total_queries
    }

    pub open spec fn spec_has_frame(self, delta: int) -> bool {
        exists|i: int| 0 <= i < self.frames@.len() && (#[trigger] self.frames@[i]).0 == delta
    }

    pub open spec fn spec_frame_index(self, delta: int) -> int {
        choose|i: int| 0 <= i < self.frames@.len() && (#[trigger] self.frames@[i]).0 == delta
    }

    /// The unmixed probability of tile `key` at offset `delta`: the keyframe
    /// table where one exists, the uniform floor otherwise.
    pub open spec fn spec_base_at(self, key: int, delta: int) -> int {
        if self.spec_has_frame(delta) {
            self.frames@[self.spec_frame_index(delta)].1.probs@[key] as int
        } else {
            self.inf as int
        }
    }

    /// Linear mixing of a base probability with the point mass:
    /// `alpha * p + (1 - alpha) * point`, in fixed point.
    pub open spec fn spec_mix(self, key: int, p: int) -> int {
        (self.point_dist.alpha * p
            + (PROB_ONE - self.point_dist.alpha) * self.point_dist.spec_get_prob(key))
            / (PROB_ONE as int)
    }

    /// The mixed probability of tile `key` at offset `delta`.
    pub open spec fn spec_probs_at(self, key: int, delta: int) -> int {
        self.spec_mix(key, self.spec_base_at(key, delta))
    }

    /// A fresh oracle over `total_queries` tiles: no keyframes, uniform
    /// floor `1 / total_queries`, and a point mass of weight zero.
    pub fn new(total_queries: usize) -> (r: Self)
        ensures
            r.wf(),
            r.total_queries == total_queries,
            r.frames@.len() == 0,
            r.point_dist.alpha == PROB_ONE,
            r.point_dist.q_index == 0,
    {
        let inf = crate::uniform_floor(total_queries);
        let num_row = crate::isqrt(total_queries);
        let point_dist = PointDist { alpha: PROB_ONE, q_index: 0 };
        LazyProb {
            total_queries,
            frames: Vec::new(),
            inf,
            num_row,
            point_dist,
        }
    }

    /// Sets the mixing weight of the base distribution and the tile the
    /// point mass concentrates on.
    pub fn set_point_dist(&mut self, alpha: u64, index: usize)
        requires
            alpha <= PROB_ONE,
        ensures
            final(self).point_dist == (PointDist { alpha, q_index: index }),
            final(self).total_queries == old(self).total_queries,
            final(self).frames@ == old(self).frames@,
            final(self).inf == old(self).inf,
            final(self).num_row == old(self).num_row,
            old(self).wf() ==> final(self).wf(),
    {
        self.point_dist.alpha = alpha;
        self.point_dist.q_index = index;
    }

    /// Mixes a base probability `p` for tile `key` with the point mass.
    pub fn get_linear_prob(&self, key: usize, p: u64) -> (r: u64)
        requires
            self.point_dist.wf(),
            p <= PROB_ONE,
        ensures
            r == self.spec_mix(key as int, p as int),
            r <= PROB_ONE,
    {
        let alpha = self.point_dist.alpha;
        let point = self.point_dist.get_prob(key);
        proof {
            lemma_mix_bounded(alpha as int, p as int, point as int);
        }
        (alpha * p + (PROB_ONE - alpha) * point) / PROB_ONE
    }
}

impl LazyProb {
    /// Some keyframe lies at or before `delta`.
    pub open spec fn spec_any_le(self, delta: int) -> bool {
        exists|i: int| 0 <= i < self.frames@.len() && (#[trigger] self.frames@[i]).0 <= delta
    }

    /// Some keyframe lies strictly after `delta`.
    pub open spec fn spec_any_gt(self, delta: int) -> bool {
        exists|i: int| 0 <= i < self.frames@.len() && (#[trigger] self.frames@[i]).0 > delta
    }

    /// `r` is the greatest keyframe offset at or before `delta`, or `delta`
    /// itself when no keyframe lies there.
    pub open spec fn spec_is_low(self, delta: int, r: int) -> bool {
        if self.spec_any_le(delta) {
            &&& self.spec_has_frame(r)
            &&& r <= delta
            &&& forall|i: int|
                0 <= i < self.frames@.len() && (#[trigger] self.frames@[i]).0 <= delta
                    ==> self.frames@[i].0 <= r
        } else {
            r == delta
        }
    }

    /// `r` is the least keyframe offset strictly after `delta`, or `delta + 1`
    /// when no keyframe lies there.
    pub open spec fn spec_is_up(self, delta: int, r: int) -> bool {
        if self.spec_any_gt(delta) {
            &&& self.spec_has_frame(r)
            &&& r > delta
            &&& forall|i: int|
                0 <= i < self.frames@.len() && (#[trigger] self.frames@[i]).0 > delta
                    ==> r <= self.frames@[i].0
        } else {
            r == delta + 1
        }
    }

    pub open spec fn spec_lower_bound(self, delta: int) -> int {
        choose|r: int| self.spec_is_low(delta, r)
    }

    pub open spec fn spec_upper_bound(self, delta: int) -> int {
        choose|r: int| self.spec_is_up(delta, r)
    }

    /// The greatest keyframe offset in `[0, delta]`, or `delta` if none.
    pub fn get_lower_bound(&self, delta: u64) -> (r: u64)
        requires
            self.wf(),
        ensures
            self.spec_is_low(delta as int, r as int),
            r == self.spec_lower_bound(delta as int),
            r <= delta,
    {
        let mut low: u64 = delta;
        let mut i: usize = 0;
        while i < self.frames.len() && self.frames[i].0 <= delta
            invariant
                self.wf(),
                i <= self.frames@.len(),
                forall|j: int| 0 <= j < i ==> (#[trigger] self.frames@[j]).0 <= delta,
                if i == 0 {
                    low == delta
                } else {
                    low == self.frames@[i - 1].0
                },
            decreases self.frames@.len() - i,
        {
            low = self.frames[i].0;
            i = i + 1;
        }
        proof {
            if i < self.frames@.len() {
                assert(forall|j: int|
                    i <= j < self.frames@.len()
                        ==> (#[trigger] self.frames@[j]).0 >= self.frames@[i as int].0);
            }
            assert(self.spec_is_low(delta as int, low as int));
            lemma_low_unique(*self, delta as int, low as int, self.spec_lower_bound(delta as int));
        }
        low
    }

    /// The greatest keyframe offset at or before `delta` (or `delta`), and
    /// the least keyframe offset strictly after `delta` (or `delta + 1`).
    pub fn get_time_bounds(&self, delta: u64) -> (r: (u64, u64))
        requires
            self.wf(),
            delta < u64::MAX,
        ensures
            self.spec_is_low(delta as int, r.0 as int),
            self.spec_is_up(delta as int, r.1 as int),
            r.0 == self.spec_lower_bound(delta as int),
            r.1 == self.spec_upper_bound(delta as int),
            r.0 <= delta < r.1,
            delta <= DELTA_MAX ==> r.1 <= DELTA_MAX + 1,
            self.frames@.len() == 0 ==> r.0 == delta && r.1 == delta + 1,
    {
        let low = self.get_lower_bound(delta);
        let mut up: u64 = delta + 1;
        let mut i: usize = 0;
        let mut found = false;
        while i < self.frames.len() && !found
            invariant
                self.wf(),
                i <= self.frames@.len(),
                delta < u64::MAX,
                if found {
                    i >= 1 && up == self.frames@[i - 1].0 && up > delta && forall|j: int|
                        0 <= j < i - 1 ==> (#[trigger] self.frames@[j]).0 <= delta
                } else {
                    up == delta + 1 && forall|j: int|
                        0 <= j < i ==> (#[trigger] self.frames@[j]).0 <= delta
                },
            decreases self.frames@.len() - i,
        {
            if self.frames[i].0 > delta {
                up = self.frames[i].0;
                found = true;
            }
            i = i + 1;
        }
        proof {
            if found {
                assert(forall|j: int|
                    i - 1 <= j < self.frames@.len()
                        ==> (#[trigger] self.frames@[j]).0 >= self.frames@[i - 1].0);
            }
            assert(self.spec_is_up(delta as int, up as int));
            lemma_up_unique(*self, delta as int, up as int, self.spec_upper_bound(delta as int));
        }
        (low, up)
    }

    /// The mixed probability of tile `key` at offset `delta`: the keyframe
    /// value where a keyframe sits exactly at `delta`, else the uniform
    /// floor, then mixed with the point mass.
    pub fn get_probs_at(&self, key: usize, delta: u64) -> (r: u64)
        requires
            self.wf(),
            key < self.total_queries,
        ensures
            r == self.spec_probs_at(key as int, delta as int),
            r <= PROB_ONE,
    {
        let mut i: usize = 0;
        let mut base: u64 = self.inf;
        let mut found = false;
        proof {
            vstd::arithmetic::div_mod::lemma_div_is_ordered(
                PROB_ONE as int,
                PROB_ONE as int,
                self.total_queries as int,
            );
            if self.total_queries >= 1 {
                assert(PROB_ONE as int / self.total_queries as int <= PROB_ONE as int / 1int) by {
                    vstd::arithmetic::div_mod::lemma_div_is_ordered_by_denominator(
                        PROB_ONE as int,
                        1int,
                        self.total_queries as int,
                    );
                }
            }
        }
        while i < self.frames.len() && !found
            invariant
                self.wf(),
                key < self.total_queries,
                i <= self.frames@.len(),
                if found {
                    i >= 1 && self.frames@[i - 1].0 == delta
                        && base == self.frames@[i - 1].1.probs@[key as int]
                } else {
                    base == self.inf && forall|j: int|
                        0 <= j < i ==> (#[trigger] self.frames@[j]).0 != delta
                },
            decreases self.frames@.len() - i,
        {
            if self.frames[i].0 == delta {
                base = self.frames[i].1.get(key);
                found = true;
            }
            i = i + 1;
        }
        proof {
            if found {
                lemma_frame_index_unique(*self, delta as int, i - 1);
            } else {
                assert(!self.spec_has_frame(delta as int));
            }
            assert(base as int == self.spec_base_at(key as int, delta as int));
        }
        self.get_linear_prob(key, base)
    }

    /// The probability of tile `key` at `delta`, linearly interpolated
    /// between the mixed values at the surrounding keyframe offsets.
    pub open spec fn spec_get(self, key: int, delta: int) -> int {
        let low = self.spec_lower_bound(delta);
        let up = self.spec_upper_bound(delta);
        let p0 = self.spec_probs_at(key, low);
        let p1 = self.spec_probs_at(key, up);
        if p1 >= p0 {
            p0 + (delta - low) * (p1 - p0) / (up - low)
        } else {
            p0 - (delta - low) * (p0 - p1) / (up - low)
        }
    }

    /// Linear interpolation of the mixed probability between the two
    /// keyframe offsets surrounding `delta`.
    pub fn get(&self, key: usize, delta: u64) -> (r: u64)
        requires
            self.wf(),
            key < self.total_queries,
            delta <= DELTA_MAX,
        ensures
            r == self.spec_get(key as int, delta as int),
            r <= PROB_ONE,
    {
        let (low, up) = self.get_time_bounds(delta);
        let p0 = self.get_probs_at(key, low);
        let p1 = self.get_probs_at(key, up);
        proof {
            lemma_interp_bounded(
                low as int,
                up as int,
                delta as int,
                p0 as int,
                p1 as int,
            );
        }
        if p1 >= p0 {
            p0 + (delta - low) * (p1 - p0) / (up - low)
        } else {
            p0 - (delta - low) * (p0 - p1) / (up - low)
        }
    }

    /// The center tile of the keyframe sitting exactly at `delta`, or tile 0
    /// when no keyframe sits there.
    pub open spec fn spec_center_at(self, delta: int) -> int {
        if self.spec_has_frame(delta) {
            self.frames@[self.spec_frame_index(delta)].1.center as int
        } else {
            0
        }
    }

    /// The center tile of the keyframe at exactly `delta`, else tile 0.
    pub fn get_center_query_id(&self, delta: u64) -> (r: usize)
        requires
            self.wf(),
        ensures
            r as int == self.spec_center_at(delta as int),
    {
        let mut i: usize = 0;
        while i < self.frames.len()
            invariant
                self.wf(),
                i <= self.frames@.len(),
                forall|j: int| 0 <= j < i ==> (#[trigger] self.frames@[j]).0 != delta,
            decreases self.frames@.len() - i,
        {
            if self.frames[i].0 == delta {
                proof {
                    lemma_frame_index_unique(*self, delta as int, i as int);
                }
                return self.frames[i].1.get_center_query_id();
            }
            i = i + 1;
        }
        0
    }

    /// Inserts (or overwrites) the keyframe at offset `delta`, keeping the
    /// offsets sorted.
    pub fn set_probs_at(&mut self, probs: LazyProbInstance, delta: u64)
        requires
            old(self).wf(),
            probs.wf(),
            probs.probs@.len() == old(self).total_queries,
            delta <= DELTA_MAX,
        ensures
            final(self).wf(),
            final(self).total_queries == old(self).total_queries,
            final(self).inf == old(self).inf,
            final(self).num_row == old(self).num_row,
            final(self).point_dist == old(self).point_dist,
            final(self).spec_has_frame(delta as int),
            final(self).frames@[final(self).spec_frame_index(delta as int)].1 == probs,
            forall|d: int|
                d != delta ==> (final(self).spec_has_frame(d) <==> old(self).spec_has_frame(d)),
            forall|d: int|
                d != delta && old(self).spec_has_frame(d)
                    ==> final(self).frames@[final(self).spec_frame_index(d)]
                        == old(self).frames@[old(self).spec_frame_index(d)],
    {
        let ghost pre = *self;
        let mut pos: usize = 0;
        while pos < self.frames.len() && self.frames[pos].0 < delta
            invariant
                self.wf(),
                pos <= self.frames@.len(),
                forall|j: int| 0 <= j < pos ==> (#[trigger] self.frames@[j]).0 < delta,
            decreases self.frames@.len() - pos,
        {
            pos = pos + 1;
        }
        if pos < self.frames.len() && self.frames[pos].0 == delta {
            // overwrite the keyframe already at this offset
            self.frames.set(pos, (delta, probs));
            proof {
                lemma_set_probs_post(pre, *self, delta as int, pos as int, true, probs);
            }
        } else {
            self.frames.insert(pos, (delta, probs));
            proof {
                lemma_set_probs_post(pre, *self, delta as int, pos as int, false, probs);
            }
        }
    }
}

impl LazyProb {
    /// Exact trapezoidal area over `[i, j]` of the straight line through
    /// `(low, probs_at(low))` and `(up, probs_at(up))`, in fixed point:
    /// `(j - i) * (p0 + slope * ((i + j) / 2 - low))` carried out over a
    /// common denominator of `2 * (up - low)`. Degenerate inputs give zero.
    pub open spec fn spec_area(self, qid: int, low: int, up: int, i: int, j: int) -> int {
        if i >= j || low > i || j > up || up < low {
            0
        } else {
            let p0 = self.spec_probs_at(qid, low);
            let pm = self.spec_probs_at(qid, up);
            ((j - i) * (2 * p0 * (up - low) + (pm - p0) * (i + j - 2 * low))) / (2 * (up - low))
        }
    }

    /// Trapezoidal area under the line through `(low, p(low))` and
    /// `(up, p(up))` over the window `[i, j]`, where `p` is the mixed
    /// probability of tile `qid`. When the left endpoint is the higher one,
    /// the endpoints are swapped and the window reflected around the
    /// segment, which leaves the area unchanged but keeps the slope
    /// nonnegative. Degenerate windows give zero.
    pub fn area_under_curve(&self, qid: usize, low: u64, up: u64, i: u64, j: u64) -> (r: u64)
        requires
            self.wf(),
            qid < self.total_queries,
            up <= DELTA_MAX + 500,
        ensures
            r as int == self.spec_area(qid as int, low as int, up as int, i as int, j as int),
            r as int <= (if i < j { j - i } else { 0 }) * PROB_ONE,
    {
        if i >= j || low > i || j > up || up < low {
            return 0;
        }
        let p0 = self.get_probs_at(qid, low);
        let pm = self.get_probs_at(qid, up);
        let (a0, am, ii, jj) = if p0 > pm {
            // mirror the window around the segment so the slope stays
            // nonnegative; the trapezoid's area is unchanged
            (pm, p0, up - (j - low), up - (i - low))
        } else {
            (p0, pm, i, j)
        };
        let d: u128 = (up - low) as u128;
        let m: u128 = (ii - low) as u128 + (jj - low) as u128;
        let base: u128 = (jj - ii) as u128;
        proof {
            lemma_area_formula(
                low as int,
                up as int,
                i as int,
                j as int,
                p0 as int,
                pm as int,
            );
            assert(0 <= 2 * (a0 as int) * (d as int)) by (nonlinear_arith)
                requires 0 <= a0, 0 <= d;
            assert(0 <= ((am - a0) as int) * (m as int)) by (nonlinear_arith)
                requires 0 <= (am - a0) as int, 0 <= m;
            assert(2 * (a0 as int) * (d as int) <= 0x10_0000_0000_0000) by (nonlinear_arith)
                requires 0 <= a0 <= 0x10_0000, 0 <= d <= 0x4000_0400;
            assert(((am - a0) as int) * (m as int) <= 0x10_0000_0000_0000) by (nonlinear_arith)
                requires 0 <= (am - a0) as int <= 0x10_0000, 0 <= m <= 0x8000_0800;
            assert((base as int) * ((2 * (a0 as int) * (d as int)) + ((am - a0) as int) * (m as int))
                <= 0x1000_0000_0000_0000_0000_0000) by (nonlinear_arith)
                requires
                    0 <= base <= 0x4000_0400,
                    0 <= (2 * (a0 as int) * (d as int)) + ((am - a0) as int) * (m as int)
                        <= 0x20_0000_0000_0000;
        }
        let num: u128 = base * (2 * (a0 as u128) * d + ((am - a0) as u128) * m);
        let r: u64 = (num / (2 * d)) as u64;
        r
    }
}

/// The mirrored nonnegative-slope form of the trapezoid numerator equals the
/// direct form, the numerator is nonnegative, and the quotient is at most
/// `(j - i) * PROB_ONE`.
proof fn lemma_area_formula(low: int, up: int, i: int, j: int, p0: int, pm: int)
    requires
        low <= i < j <= up,
        0 <= low,
        up <= DELTA_MAX + 500,
        0 <= p0 <= PROB_ONE,
        0 <= pm <= PROB_ONE,
    ensures
        ({
            let a0 = if p0 > pm { pm } else { p0 };
            let am = if p0 > pm { p0 } else { pm };
            let ii = if p0 > pm { up - (j - low) } else { i };
            let jj = if p0 > pm { up - (i - low) } else { j };
            &&& low <= ii < jj <= up
            &&& (jj - ii) * (2 * a0 * (up - low) + (am - a0) * ((ii - low) + (jj - low)))
                == (j - i) * (2 * p0 * (up - low) + (pm - p0) * (i + j - 2 * low))
            &&& 0 <= (j - i) * (2 * p0 * (up - low) + (pm - p0) * (i + j - 2 * low))
            &&& (j - i) * (2 * p0 * (up - low) + (pm - p0) * (i + j - 2 * low))
                <= (j - i) * PROB_ONE * (2 * (up - low))
            &&& (j - i) * (2 * p0 * (up - low) + (pm - p0) * (i + j - 2 * low))
                / (2 * (up - low)) <= (j - i) * PROB_ONE
        }),
{
    let d = up - low;
    let a0 = if p0 > pm { pm } else { p0 };
    let am = if p0 > pm { p0 } else { pm };
    let ii = if p0 > pm { up - (j - low) } else { i };
    let jj = if p0 > pm { up - (i - low) } else { j };
    assert(low <= ii < jj <= up);
    let m = i + j - 2 * low;
    assert(0 <= m <= 2 * d - 1);
    assert((ii - low) + (jj - low) == if p0 > pm { 2 * d - m } else { m });
    if p0 > pm {
        assert((jj - ii) * (2 * pm * d + (p0 - pm) * (2 * d - m))
            == (j - i) * (2 * p0 * d + (pm - p0) * m)) by (nonlinear_arith)
            requires jj - ii == j - i;
    }
    // the numerator is nonnegative and at most (j - i) * PROB_ONE * 2d
    assert(0 <= 2 * a0 * d + (am - a0) * ((ii - low) + (jj - low))) by (nonlinear_arith)
        requires
            0 <= a0 <= am,
            0 <= (ii - low) + (jj - low),
            0 < d;
    assert(2 * a0 * d + (am - a0) * ((ii - low) + (jj - low)) <= 2 * am * d) by (nonlinear_arith)
        requires
            0 <= a0 <= am,
            0 <= (ii - low) + (jj - low) <= 2 * d,
            0 < d;
    let inner = 2 * a0 * d + (am - a0) * ((ii - low) + (jj - low));
    assert((jj - ii) * inner >= 0) by (nonlinear_arith)
        requires 0 <= jj - ii, 0 <= inner;
    assert((jj - ii) * inner <= (jj - ii) * (2 * am * d)) by (nonlinear_arith)
        requires 0 <= jj - ii, inner <= 2 * am * d;
    assert((jj - ii) * (2 * am * d) <= (jj - ii) * PROB_ONE * (2 * d)) by (nonlinear_arith)
        requires 0 <= jj - ii, 0 <= am <= PROB_ONE, 0 < d;
    let num = (j - i) * (2 * p0 * d + (pm - p0) * m);
    if p0 > pm {
        assert(inner == 2 * pm * d + (p0 - pm) * (2 * d - m));
        assert(num == (jj - ii) * inner);
    } else {
        assert(inner == 2 * p0 * d + (pm - p0) * m);
        assert(num == (jj - ii) * inner);
    }
    assert(num / (2 * d) <= (j - i) * PROB_ONE) by {
        vstd::arithmetic::div_mod::lemma_div_is_ordered(num, (j - i) * PROB_ONE * (2 * d), 2 * d);
        vstd::arithmetic::div_mod::lemma_div_multiples_vanish((j - i) * PROB_ONE, 2 * d);
        assert((j - i) * PROB_ONE * (2 * d) == 2 * d * ((j - i) * PROB_ONE)) by (nonlinear_arith);
    }
}

pub open spec fn spec_min(a: int, b: int) -> int {
    if a < b { a } else { b }
}

pub open spec fn spec_max(a: int, b: int) -> int {
    if a < b { b } else { a }
}

impl LazyProb {
    /// The walk state after the first `k` keyframes have been considered:
    /// `(accumulated area, left edge of the next segment, last window start,
    /// last window end)`. Keyframes outside `(delta_0, delta_m]` are skipped.
    pub open spec fn spec_integrate_state(
        self,
        qid: int,
        delta_0: int,
        delta_m: int,
        low0: int,
        k: int,
    ) -> (int, int, int, int)
        decreases k,
    {
        if k <= 0 {
            (0, low0, delta_0, delta_m)
        } else {
            let s = self.spec_integrate_state(qid, delta_0, delta_m, low0, k - 1);
            let d = self.frames@[k - 1].0 as int;
            if delta_0 < d <= delta_m {
                let upper = spec_min(d, delta_m);
                let lower = spec_max(delta_0, s.1);
                (s.0 + self.spec_area(qid, s.1, d, lower, upper), d, lower, upper)
            } else {
                s
            }
        }
    }

    /// The piecewise-linear integral of the mixed probability of tile `qid`
    /// over `(delta_0, delta_m]`: one trapezoid per keyframe in the range,
    /// and, when the walk stops short of `delta_m`, one more trapezoid on a
    /// segment extrapolated 500 ms past `delta_m` over the last window.
    pub open spec fn spec_integrate(self, qid: int, delta_0: int, delta_m: int, low0: int) -> int {
        if delta_0 >= delta_m {
            0
        } else {
            let s = self.spec_integrate_state(
                qid,
                delta_0,
                delta_m,
                low0,
                self.frames@.len() as int,
            );
            if s.1 < delta_m {
                s.0 + self.spec_area(qid, s.1, delta_m + 500, s.2, s.3)
            } else {
                s.0
            }
        }
    }

    /// Integrates the mixed probability of tile `qid` over `(delta_0,
    /// delta_m]` by walking the keyframes in that range and accumulating one
    /// trapezoid per segment; a final trapezoid extrapolated 500 ms past
    /// `delta_m` covers the stretch no keyframe reached. Every trapezoid is
    /// nonnegative by construction. Returns zero when the range is empty.
    pub fn integrate_over_range(&self, qid: usize, delta_0: u64, delta_m: u64, low: u64) -> (r: u64)
        requires
            self.wf(),
            qid < self.total_queries,
            delta_m <= DELTA_MAX,
        ensures
            r as int == self.spec_integrate(qid as int, delta_0 as int, delta_m as int, low as int),
            delta_0 < delta_m ==> r <= 2 * PROB_ONE * (delta_m - delta_0),
            delta_0 >= delta_m ==> r == 0,
            r as int <= 2 * (PROB_ONE as int) * (DELTA_MAX as int),
    {
        if delta_0 >= delta_m {
            return 0;
        }
        let inf_up = delta_m + 500;
        let mut p: u64 = 0;
        let mut low_cur: u64 = low;
        let mut lower_delta: u64 = delta_0;
        let mut upper_delta: u64 = delta_m;
        let mut k: usize = 0;
        while k < self.frames.len()
            invariant
                self.wf(),
                qid < self.total_queries,
                delta_0 < delta_m <= DELTA_MAX,
                k <= self.frames@.len(),
                (p as int, low_cur as int, lower_delta as int, upper_delta as int)
                    == self.spec_integrate_state(
                        qid as int, delta_0 as int, delta_m as int, low as int, k as int),
                delta_0 <= lower_delta,
                upper_delta <= delta_m,
                p as int <= PROB_ONE
                    * (spec_min(spec_max(low_cur as int, delta_0 as int), delta_m as int)
                        - delta_0),
                if (exists|jx: int|
                    0 <= jx < k && delta_0 < (#[trigger] self.frames@[jx]).0
                        && self.frames@[jx].0 <= delta_m) {
                    exists|jx: int|
                        0 <= jx < k && delta_0 < (#[trigger] self.frames@[jx]).0
                            && self.frames@[jx].0 <= delta_m && self.frames@[jx].0 == low_cur
                } else {
                    low_cur == low && p == 0
                },
            decreases self.frames@.len() - k,
        {
            let d = self.frames[k].0;
            if delta_0 < d && d <= delta_m {
                let upper = if d < delta_m { d } else { delta_m };
                let lower = if delta_0 >= low_cur { delta_0 } else { low_cur };
                let a = self.area_under_curve(qid, low_cur, d, lower, upper);
                proof {
                    assert(upper as int == spec_min(d as int, delta_m as int));
                    assert(lower as int == spec_max(delta_0 as int, low_cur as int));
                    if low_cur >= d {
                        // no keyframe in the range has been walked yet (a
                        // walked one would sit strictly before this one), so
                        // nothing has been accumulated and this window is
                        // empty
                        if exists|jx: int|
                            0 <= jx < k && delta_0 < (#[trigger] self.frames@[jx]).0
                                && self.frames@[jx].0 <= delta_m {
                            let jx = choose|jx: int|
                                0 <= jx < k && delta_0 < (#[trigger] self.frames@[jx]).0
                                    && self.frames@[jx].0 <= delta_m
                                    && self.frames@[jx].0 == low_cur;
                            assert(self.frames@[jx].0 < self.frames@[k as int].0);
                            assert(false);
                        }
                        assert(p == 0);
                        assert(lower >= upper);
                        assert(a == 0);
                    }
                    assert(p + a <= PROB_ONE * (d - delta_0)) by {
                        if lower < upper {
                            assert(a <= (upper - lower) * PROB_ONE);
                            let cl = spec_min(spec_max(low_cur as int, delta_0 as int),
                                delta_m as int);
                            assert(cl - delta_0 + (upper - lower) <= d - delta_0);
                            assert(p + a <= PROB_ONE * (cl - delta_0)
                                + (upper - lower) * PROB_ONE);
                            assert(PROB_ONE * (cl - delta_0) + (upper - lower) * PROB_ONE
                                <= PROB_ONE * (d - delta_0)) by (nonlinear_arith)
                                requires cl - delta_0 + (upper as int - lower as int)
                                    <= d - delta_0, 0 <= upper as int - lower as int;
                        } else {
                            assert(a == 0);
                            let cl = spec_min(spec_max(low_cur as int, delta_0 as int),
                                delta_m as int);
                            assert(cl <= d || p == 0);
                            assert(p + a <= PROB_ONE * (d - delta_0)) by (nonlinear_arith)
                                requires
                                    a == 0,
                                    0 <= p,
                                    p <= PROB_ONE * (cl - delta_0) || p == 0,
                                    cl <= d || p == 0,
                                    delta_0 < d;
                        }
                    };
                }
                p = p + a;
                low_cur = d;
                lower_delta = lower;
                upper_delta = upper;
            }
            k = k + 1;
        }
        if low_cur < delta_m {
            let t = self.area_under_curve(qid, low_cur, inf_up, lower_delta, upper_delta);
            proof {
                if lower_delta < upper_delta {
                    assert(t <= (upper_delta - lower_delta) * PROB_ONE);
                    assert((upper_delta - lower_delta) * PROB_ONE
                        <= (delta_m - delta_0) * PROB_ONE) by (nonlinear_arith)
                        requires
                            0 <= upper_delta - lower_delta <= delta_m - delta_0,
                            0 <= PROB_ONE;
                    assert((delta_m - delta_0) * PROB_ONE
                        == PROB_ONE * (delta_m - delta_0)) by (nonlinear_arith);
                } else {
                    assert(t == 0);
                }
                assert(p as int <= PROB_ONE * (delta_m - delta_0));
                assert(PROB_ONE * (delta_m - delta_0) + PROB_ONE * (delta_m - delta_0)
                    == 2 * PROB_ONE * (delta_m - delta_0)) by (nonlinear_arith);
                assert(2 * PROB_ONE * (delta_m - delta_0)
                    <= 2 * PROB_ONE * (DELTA_MAX as int)) by (nonlinear_arith)
                    requires 0 < delta_m - delta_0 <= DELTA_MAX;
            }
            p = p + t;
        } else {
            proof {
                assert(p as int <= PROB_ONE * (delta_m - delta_0));
                assert(PROB_ONE * (delta_m - delta_0)
                    <= 2 * PROB_ONE * (delta_m - delta_0)) by (nonlinear_arith)
                    requires 0 < delta_m - delta_0;
            }
        }
        proof {
            assert(2 * (PROB_ONE as int) * (delta_m - delta_0)
                <= 2 * (PROB_ONE as int) * (DELTA_MAX as int)) by (nonlinear_arith)
                requires 0 < delta_m - delta_0 <= DELTA_MAX;
        }
        p
    }

    /// Tile `q` has an explicit (nonzero) entry in some keyframe.
    pub open spec fn spec_explicit(self, q: int) -> bool {
        exists|i: int|
            0 <= i < self.frames@.len() && (#[trigger] self.frames@[i]).1.probs@[q] > 0
    }

    fn has_explicit(&self, q: usize) -> (r: bool)
        requires
            self.wf(),
            q < self.total_queries,
        ensures
            r == self.spec_explicit(q as int),
    {
        let mut i: usize = 0;
        while i < self.frames.len()
            invariant
                self.wf(),
                q < self.total_queries,
                i <= self.frames@.len(),
                forall|j: int| 0 <= j < i ==> (#[trigger] self.frames@[j]).1.probs@[q as int] == 0,
            decreases self.frames@.len() - i,
        {
            if self.frames[i].1.get(q) > 0 {
                return true;
            }
            i = i + 1;
        }
        false
    }

    /// The tiles with explicit representation in the oracle: every tile with
    /// a nonzero entry in some keyframe, in ascending order.
    pub fn get_k(&self) -> (r: Vec<usize>)
        requires
            self.wf(),
        ensures
            r@.len() <= self.total_queries,
            forall|a: int, b: int| 0 <= a < b < r@.len() ==> r@[a] < r@[b],
            forall|a: int| 0 <= a < r@.len() ==> r@[a] < self.total_queries,
            forall|q: int|
                0 <= q < self.total_queries
                    ==> (r@.contains(q as usize) <==> self.spec_explicit(q)),
    {
        let mut r: Vec<usize> = Vec::new();
        let mut q: usize = 0;
        while q < self.total_queries
            invariant
                self.wf(),
                q <= self.total_queries,
                r@.len() <= q,
                forall|a: int, b: int| 0 <= a < b < r@.len() ==> r@[a] < r@[b],
                forall|a: int| 0 <= a < r@.len() ==> r@[a] < q,
                forall|qq: int|
                    0 <= qq < q ==> (r@.contains(qq as usize) <==> self.spec_explicit(qq)),
            decreases self.total_queries - q,
        {
            let ghost r_pre = r@;
            if self.has_explicit(q) {
                r.push(q);
                proof {
                    assert(r@ == r_pre.push(q));
                    assert(r@[r@.len() - 1] == q);
                    assert forall|qq: int| 0 <= qq < q + 1 implies (r@.contains(qq as usize)
                        <==> self.spec_explicit(qq)) by {
                        if qq < q {
                            assert(r_pre.contains(qq as usize) <==> self.spec_explicit(qq));
                            if r_pre.contains(qq as usize) {
                                let w = choose|w: int|
                                    0 <= w < r_pre.len() && r_pre[w] == qq as usize;
                                assert(r@[w] == qq as usize);
                            }
                            if r@.contains(qq as usize) {
                                let w = choose|w: int| 0 <= w < r@.len() && r@[w] == qq as usize;
                                assert(w < r_pre.len());
                                assert(r_pre[w] == qq as usize);
                            }
                        } else {
                            assert(r@.contains(q));
                        }
                    }
                }
            } else {
                proof {
                    assert forall|qq: int| 0 <= qq < q + 1 implies (r@.contains(qq as usize)
                        <==> self.spec_explicit(qq)) by {
                        if qq == q {
                            if r@.contains(q) {
                                let w = choose|w: int| 0 <= w < r@.len() && r@[w] == q;
                                assert(r@[w] < q);
                            }
                        }
                    }
                }
            }
            q = q + 1;
        }
        r
    }
}

/// Every mixed probability the oracle hands out lies in `[0, PROB_ONE]`.
pub proof fn lemma_probs_at_bounded(p: LazyProb, key: int, delta: int)
    requires
        p.wf(),
        0 <= key < p.total_queries,
    ensures
        0 <= p.spec_probs_at(key, delta) <= PROB_ONE,
{
    let base = p.spec_base_at(key, delta);
    if p.spec_has_frame(delta) {
        let i = p.spec_frame_index(delta);
        assert(0 <= i < p.frames@.len() && p.frames@[i].0 == delta);
        assert(p.frames@[i].1.probs@[key] <= PROB_ONE);
    } else {
        if p.total_queries > 0 {
            vstd::arithmetic::div_mod::lemma_div_pos_is_pos(
                PROB_ONE as int,
                p.total_queries as int,
            );
            vstd::arithmetic::div_mod::lemma_div_is_ordered_by_denominator(
                PROB_ONE as int,
                1int,
                p.total_queries as int,
            );
        }
    }
    assert(0 <= base <= PROB_ONE);
    lemma_mix_bounded(
        p.point_dist.alpha as int,
        base,
        p.point_dist.spec_get_prob(key),
    );
}

/// Every trapezoid the oracle computes has nonnegative area.
pub proof fn lemma_area_nonneg(p: LazyProb, qid: int, low: int, up: int, i: int, j: int)
    requires
        p.wf(),
        0 <= qid < p.total_queries,
    ensures
        p.spec_area(qid, low, up, i, j) >= 0,
{
    if !(i >= j || low > i || j > up || up < low) {
        let p0 = p.spec_probs_at(qid, low);
        let pm = p.spec_probs_at(qid, up);
        lemma_probs_at_bounded(p, qid, low);
        lemma_probs_at_bounded(p, qid, up);
        let d = up - low;
        let m = i + j - 2 * low;
        assert(0 <= m <= 2 * d - 1);
        let inner = 2 * p0 * d + (pm - p0) * m;
        assert(2 * p0 * d + (pm - p0) * m >= 0) by (nonlinear_arith)
            requires 0 <= p0, 0 <= pm, 0 < d, 0 <= m <= 2 * d;
        assert((j - i) * inner >= 0) by (nonlinear_arith)
            requires 0 <= j - i, 0 <= inner;
        vstd::arithmetic::div_mod::lemma_div_pos_is_pos((j - i) * inner, 2 * d);
    }
}

proof fn lemma_integrate_state_nonneg(
    p: LazyProb,
    qid: int,
    delta_0: int,
    delta_m: int,
    low0: int,
    k: int,
)
    requires
        p.wf(),
        0 <= qid < p.total_queries,
    ensures
        p.spec_integrate_state(qid, delta_0, delta_m, low0, k).0 >= 0,
    decreases k,
{
    if k > 0 {
        lemma_integrate_state_nonneg(p, qid, delta_0, delta_m, low0, k - 1);
        let s = p.spec_integrate_state(qid, delta_0, delta_m, low0, k - 1);
        let d = p.frames@[k - 1].0 as int;
        if delta_0 < d <= delta_m {
            lemma_area_nonneg(p, qid, s.1, d, spec_max(delta_0, s.1), spec_min(d, delta_m));
        }
    }
}

/// The integral of a probability over any time range is nonnegative, for
/// every oracle, every tile, and every pair of range endpoints.
pub proof fn lemma_integrate_nonneg(
    p: LazyProb,
    qid: int,
    delta_0: int,
    delta_m: int,
    low0: int,
)
    requires
        p.wf(),
        0 <= qid < p.total_queries,
    ensures
        p.spec_integrate(qid, delta_0, delta_m, low0) >= 0,
{
    if delta_0 < delta_m {
        let n = p.frames@.len() as int;
        lemma_integrate_state_nonneg(p, qid, delta_0, delta_m, low0, n);
        let s = p.spec_integrate_state(qid, delta_0, delta_m, low0, n);
        if s.1 < delta_m {
            lemma_area_nonneg(p, qid, s.1, delta_m + 500, s.2, s.3);
        }
    }
}

/// When the point mass carries no weight (`alpha == PROB_ONE`), the mixture
/// hands back the base distribution unchanged, at every tile; and when the
/// base carries no weight (`alpha == 0`), the mixture is the pure point
/// mass: one at the concentrated tile, zero elsewhere.
pub proof fn lemma_mixture_degenerate(p: LazyProb, key: int, delta: int)
    requires
        p.wf(),
        0 <= key < p.total_queries,
    ensures
        p.point_dist.alpha == PROB_ONE
            ==> p.spec_probs_at(key, delta) == p.spec_base_at(key, delta),
        p.point_dist.alpha == 0
            ==> p.spec_probs_at(key, delta) == p.point_dist.spec_get_prob(key),
{
    let base = p.spec_base_at(key, delta);
    let point = p.point_dist.spec_get_prob(key);
    if p.point_dist.alpha == PROB_ONE {
        assert(PROB_ONE * base + 0 * point == PROB_ONE as int * base);
        assert((PROB_ONE as int * base) / (PROB_ONE as int) == base) by {
            vstd::arithmetic::div_mod::lemma_div_multiples_vanish(base, PROB_ONE as int);
        }
    }
    if p.point_dist.alpha == 0 {
        assert(0 * base + PROB_ONE * point == PROB_ONE as int * point);
        assert((PROB_ONE as int * point) / (PROB_ONE as int) == point) by {
            vstd::arithmetic::div_mod::lemma_div_multiples_vanish(point, PROB_ONE as int);
        }
    }
}

/// A trapezoid between two equal endpoint values `v` over a window `[i, j]`
/// has area exactly `(j - i) * v`.
proof fn lemma_area_constant(p: LazyProb, qid: int, low: int, up: int, i: int, j: int, v: int)
    requires
        p.wf(),
        0 <= qid < p.total_queries,
        p.spec_probs_at(qid, low) == v,
        p.spec_probs_at(qid, up) == v,
        low <= i < j <= up,
    ensures
        p.spec_area(qid, low, up, i, j) == (j - i) * v,
{
    lemma_probs_at_bounded(p, qid, low);
    let d = up - low;
    let m = i + j - 2 * low;
    assert(p.spec_area(qid, low, up, i, j)
        == ((j - i) * (2 * v * d + 0 * m)) / (2 * d));
    assert((j - i) * (2 * v * d) == (2 * d) * ((j - i) * v)) by (nonlinear_arith);
    vstd::arithmetic::div_mod::lemma_div_multiples_vanish((j - i) * v, 2 * d);
}

proof fn lemma_integrate_state_skipped(
    p: LazyProb,
    qid: int,
    delta_0: int,
    delta_m: int,
    low0: int,
    k1: int,
    k2: int,
)
    requires
        0 <= k1 <= k2 <= p.frames@.len(),
        forall|jx: int|
            k1 <= jx < k2
                ==> !(delta_0 < (#[trigger] p.frames@[jx]).0 && p.frames@[jx].0 <= delta_m),
    ensures
        p.spec_integrate_state(qid, delta_0, delta_m, low0, k2)
            == p.spec_integrate_state(qid, delta_0, delta_m, low0, k1),
    decreases k2 - k1,
{
    if k1 < k2 {
        lemma_integrate_state_skipped(p, qid, delta_0, delta_m, low0, k1, k2 - 1);
    }
}

/// When the mixed probability of tile `qid` is the constant `v` and no
/// keyframe lies strictly inside `(delta_0, delta_m)`, the integral over
/// `(delta_0, delta_m]` is exactly `v * (delta_m - delta_0)`: the
/// extrapolated trailing trapezoid does not distort a constant integrand.
pub proof fn lemma_integrate_constant(
    p: LazyProb,
    qid: int,
    delta_0: int,
    delta_m: int,
    low0: int,
    v: int,
)
    requires
        p.wf(),
        0 <= qid < p.total_queries,
        0 <= low0 <= delta_0 < delta_m <= DELTA_MAX,
        forall|t: int| p.spec_probs_at(qid, t) == v,
        forall|jx: int|
            0 <= jx < p.frames@.len()
                ==> !(delta_0 < (#[trigger] p.frames@[jx]).0 && p.frames@[jx].0 < delta_m),
    ensures
        p.spec_integrate(qid, delta_0, delta_m, low0) == v * (delta_m - delta_0),
{
    let n = p.frames@.len() as int;
    if p.spec_has_frame(delta_m) {
        let k0 = p.spec_frame_index(delta_m);
        assert(0 <= k0 < n && p.frames@[k0].0 == delta_m);
        assert(forall|jx: int|
            0 <= jx < k0
                ==> !(delta_0 < (#[trigger] p.frames@[jx]).0 && p.frames@[jx].0 <= delta_m)) by {
            assert(forall|jx: int|
                0 <= jx < k0 ==> (#[trigger] p.frames@[jx]).0 < p.frames@[k0].0);
        }
        lemma_integrate_state_skipped(p, qid, delta_0, delta_m, low0, 0, k0);
        let s = p.spec_integrate_state(qid, delta_0, delta_m, low0, k0);
        assert(s == (0int, low0, delta_0, delta_m));
        let s1 = p.spec_integrate_state(qid, delta_0, delta_m, low0, k0 + 1);
        assert(spec_min(delta_m, delta_m) == delta_m);
        assert(spec_max(delta_0, low0) == delta_0);
        lemma_area_constant(p, qid, low0, delta_m, delta_0, delta_m, v);
        assert(s1.0 == (delta_m - delta_0) * v);
        assert(s1.1 == delta_m);
        assert(forall|jx: int|
            k0 + 1 <= jx < n
                ==> !(delta_0 < (#[trigger] p.frames@[jx]).0 && p.frames@[jx].0 <= delta_m)) by {
            assert(forall|jx: int|
                k0 < jx < n ==> (#[trigger] p.frames@[jx]).0 > p.frames@[k0].0);
        }
        lemma_integrate_state_skipped(p, qid, delta_0, delta_m, low0, k0 + 1, n);
        let sf = p.spec_integrate_state(qid, delta_0, delta_m, low0, n);
        assert(sf == s1);
        assert(!(sf.1 < delta_m));
        assert((delta_m - delta_0) * v == v * (delta_m - delta_0)) by (nonlinear_arith);
    } else {
        assert(forall|jx: int|
            0 <= jx < n
                ==> !(delta_0 < (#[trigger] p.frames@[jx]).0 && p.frames@[jx].0 <= delta_m));
        lemma_integrate_state_skipped(p, qid, delta_0, delta_m, low0, 0, n);
        let sf = p.spec_integrate_state(qid, delta_0, delta_m, low0, n);
        assert(sf == (0int, low0, delta_0, delta_m));
        lemma_area_constant(p, qid, low0, delta_m + 500, delta_0, delta_m, v);
        assert(p.spec_integrate(qid, delta_0, delta_m, low0) == (delta_m - delta_0) * v);
        assert((delta_m - delta_0) * v == v * (delta_m - delta_0)) by (nonlinear_arith);
    }
}

/// Between two adjacent keyframes at offsets `a < b`, the interpolated
/// probability at any `d` in `[a, b)` is exactly the fixed-point straight
/// line through the two keyframes' mixed values: `p0 + (d - a) * (p1 - p0) /
/// (b - a)`, with the division mirrored on falling slopes.
pub proof fn lemma_get_interpolates(p: LazyProb, q: int, a: int, b: int, d: int)
    requires
        p.wf(),
        0 <= q < p.total_queries,
        p.spec_has_frame(a),
        p.spec_has_frame(b),
        a <= d < b,
        forall|i: int|
            0 <= i < p.frames@.len() ==> !(a < (#[trigger] p.frames@[i]).0 < b),
    ensures
        ({
            let p0 = p.spec_probs_at(q, a);
            let p1 = p.spec_probs_at(q, b);
            p.spec_get(q, d) == if p1 >= p0 {
                p0 + (d - a) * (p1 - p0) / (b - a)
            } else {
                p0 - (d - a) * (p0 - p1) / (b - a)
            }
        }),
{
    assert(p.spec_is_low(d, a)) by {
        let ia = p.spec_frame_index(a);
        lemma_frame_index_unique(p, a, ia);
        assert(p.frames@[ia].0 <= d);
        assert forall|i: int|
            0 <= i < p.frames@.len() && (#[trigger] p.frames@[i]).0 <= d implies p.frames@[i].0
            <= a by {
            assert(!(a < p.frames@[i].0 < b));
        }
    }
    assert(p.spec_is_up(d, b)) by {
        let ib = p.spec_frame_index(b);
        lemma_frame_index_unique(p, b, ib);
        assert(p.frames@[ib].0 > d);
        assert forall|i: int|
            0 <= i < p.frames@.len() && (#[trigger] p.frames@[i]).0 > d implies b
            <= p.frames@[i].0 by {
            assert(!(a < p.frames@[i].0 < b));
        }
    }
    lemma_low_unique(p, d, a, p.spec_lower_bound(d));
    lemma_up_unique(p, d, b, p.spec_upper_bound(d));
}

/// The unique keyframe index carrying a given offset in a sorted frame list.
proof fn lemma_frame_index_unique(p: LazyProb, delta: int, i: int)
    requires
        p.wf(),
        0 <= i < p.frames@.len(),
        p.frames@[i].0 == delta,
    ensures
        p.spec_has_frame(delta),
        p.spec_frame_index(delta) == i,
{
    assert(p.spec_has_frame(delta));
    let j = p.spec_frame_index(delta);
    assert(0 <= j < p.frames@.len() && p.frames@[j].0 == delta);
    if i < j {
        assert(p.frames@[i].0 < p.frames@[j].0);
    }
    if j < i {
        assert(p.frames@[j].0 < p.frames@[i].0);
    }
}

proof fn lemma_low_unique(p: LazyProb, delta: int, r1: int, r2: int)
    requires
        p.spec_is_low(delta, r1),
        r2 == p.spec_lower_bound(delta),
    ensures
        r1 == r2,
{
    assert(p.spec_is_low(delta, r2));
    if p.spec_any_le(delta) {
        let i1 = p.spec_frame_index(r1);
        let i2 = p.spec_frame_index(r2);
        assert(p.frames@[i1].0 <= delta ==> p.frames@[i1].0 <= r2);
        assert(p.frames@[i2].0 <= delta ==> p.frames@[i2].0 <= r1);
    }
}

proof fn lemma_up_unique(p: LazyProb, delta: int, r1: int, r2: int)
    requires
        p.spec_is_up(delta, r1),
        r2 == p.spec_upper_bound(delta),
    ensures
        r1 == r2,
{
    assert(p.spec_is_up(delta, r2));
    if p.spec_any_gt(delta) {
        let i1 = p.spec_frame_index(r1);
        let i2 = p.spec_frame_index(r2);
        assert(p.frames@[i1].0 > delta ==> r2 <= p.frames@[i1].0);
        assert(p.frames@[i2].0 > delta ==> r1 <= p.frames@[i2].0);
    }
}

/// An interpolated value between two probabilities stays a probability, and
/// the fixed-point interpolation arithmetic stays within `u64`.
proof fn lemma_interp_bounded(low: int, up: int, delta: int, p0: int, p1: int)
    requires
        0 <= low <= delta < up,
        up <= DELTA_MAX + 1,
        0 <= p0 <= PROB_ONE,
        0 <= p1 <= PROB_ONE,
    ensures
        p1 >= p0 ==> 0 <= (delta - low) * (p1 - p0) / (up - low) <= p1 - p0,
        p1 < p0 ==> 0 <= (delta - low) * (p0 - p1) / (up - low) <= p0 - p1,
        (delta - low) * (p1 - p0) <= DELTA_MAX * PROB_ONE + PROB_ONE,
        (delta - low) * (p0 - p1) <= DELTA_MAX * PROB_ONE + PROB_ONE,
{
    let d = up - low;
    if p1 >= p0 {
        assert((delta - low) * (p1 - p0) <= d * (p1 - p0)) by (nonlinear_arith)
            requires 0 <= delta - low, delta - low <= d, 0 <= p1 - p0;
        vstd::arithmetic::div_mod::lemma_div_is_ordered((delta - low) * (p1 - p0), d * (p1 - p0), d);
        vstd::arithmetic::div_mod::lemma_div_multiples_vanish(p1 - p0, d);
        assert((delta - low) * (p1 - p0) >= 0) by (nonlinear_arith)
            requires 0 <= delta - low, 0 <= p1 - p0;
        vstd::arithmetic::div_mod::lemma_div_pos_is_pos((delta - low) * (p1 - p0), d);
    } else {
        assert((delta - low) * (p0 - p1) <= d * (p0 - p1)) by (nonlinear_arith)
            requires 0 <= delta - low, delta - low <= d, 0 <= p0 - p1;
        vstd::arithmetic::div_mod::lemma_div_is_ordered((delta - low) * (p0 - p1), d * (p0 - p1), d);
        vstd::arithmetic::div_mod::lemma_div_multiples_vanish(p0 - p1, d);
        assert((delta - low) * (p0 - p1) >= 0) by (nonlinear_arith)
            requires 0 <= delta - low, 0 <= p0 - p1;
        vstd::arithmetic::div_mod::lemma_div_pos_is_pos((delta - low) * (p0 - p1), d);
    }
    assert((delta - low) * (p1 - p0) <= (DELTA_MAX + 1) * PROB_ONE) by (nonlinear_arith)
        requires 0 <= delta - low, delta - low <= DELTA_MAX + 1, p1 - p0 <= PROB_ONE;
    assert((delta - low) * (p0 - p1) <= (DELTA_MAX + 1) * PROB_ONE) by (nonlinear_arith)
        requires 0 <= delta - low, delta - low <= DELTA_MAX + 1, p0 - p1 <= PROB_ONE;
}

/// After a sorted insert or an in-place overwrite at `pos`, the frame list is
/// well formed again and carries exactly the old keyframes plus the new one.
proof fn lemma_set_probs_post(
    pre: LazyProb,
    post: LazyProb,
    delta: int,
    pos: int,
    overwrote: bool,
    probs: LazyProbInstance,
)
    requires
        pre.wf(),
        probs.wf(),
        probs.probs@.len() == pre.total_queries,
        0 <= delta <= DELTA_MAX,
        post.total_queries == pre.total_queries,
        post.inf == pre.inf,
        post.num_row == pre.num_row,
        post.point_dist == pre.point_dist,
        0 <= pos <= pre.frames@.len(),
        forall|j: int| 0 <= j < pos ==> (#[trigger] pre.frames@[j]).0 < delta,
        pos < pre.frames@.len() ==> pre.frames@[pos].0 >= delta,
        overwrote ==> pos < pre.frames@.len() && pre.frames@[pos].0 == delta
            && post.frames@ == pre.frames@.update(pos, ((delta as u64), probs)),
        !overwrote ==> (pos == pre.frames@.len() || pre.frames@[pos].0 > delta)
            && post.frames@ == pre.frames@.insert(pos, ((delta as u64), probs)),
    ensures
        post.wf(),
        post.spec_has_frame(delta),
        post.frames@[post.spec_frame_index(delta)].1 == probs,
        forall|d: int| d != delta ==> (post.spec_has_frame(d) <==> pre.spec_has_frame(d)),
        forall|d: int|
            d != delta && pre.spec_has_frame(d)
                ==> post.frames@[post.spec_frame_index(d)]
                    == pre.frames@[pre.spec_frame_index(d)],
{
    if overwrote {
        assert(forall|i: int, j: int|
            0 <= i < j < post.frames@.len() ==> post.frames@[i].0 < post.frames@[j].0);
    } else {
        assert(forall|j: int|
            pos <= j < pre.frames@.len() ==> (#[trigger] pre.frames@[j]).0 > delta);
        assert(forall|i: int, j: int|
            0 <= i < j < post.frames@.len() ==> post.frames@[i].0 < post.frames@[j].0) by {
            assert(forall|i: int|
                0 <= i < pos ==> post.frames@[i] == pre.frames@[i]);
            assert(post.frames@[pos].0 == delta);
            assert(forall|i: int|
                pos < i < post.frames@.len() ==> post.frames@[i] == pre.frames@[i - 1]);
        }
    }
    assert(post.wf());
    let newpos = if overwrote { pos } else { pos };
    assert(post.frames@[pos].0 == delta);
    lemma_frame_index_unique(post, delta, pos);
    assert forall|d: int| d != delta implies (post.spec_has_frame(d) <==> pre.spec_has_frame(
        d,
    )) by {
        if post.spec_has_frame(d) {
            let i = choose|i: int|
                0 <= i < post.frames@.len() && (#[trigger] post.frames@[i]).0 == d;
            if overwrote {
                assert(i != pos);
                assert(pre.frames@[i].0 == d);
            } else {
                assert(i != pos);
                if i < pos {
                    assert(pre.frames@[i].0 == d);
                } else {
                    assert(pre.frames@[i - 1].0 == d);
                }
            }
        }
        if pre.spec_has_frame(d) {
            let i = pre.spec_frame_index(d);
            if overwrote {
                assert(i != pos);
                assert(post.frames@[i].0 == d);
            } else {
                if i < pos {
                    assert(post.frames@[i].0 == d);
                } else {
                    assert(post.frames@[i + 1].0 == d);
                }
            }
        }
    }
    assert forall|d: int| d != delta && pre.spec_has_frame(d) implies post.frames@[
        post.spec_frame_index(d)
    ] == pre.frames@[pre.spec_frame_index(d)] by {
        let i = pre.spec_frame_index(d);
        lemma_frame_index_unique(pre, d, i);
        if overwrote {
            assert(i != pos);
            assert(post.frames@[i].0 == d);
            lemma_frame_index_unique(post, d, i);
        } else {
            if i < pos {
                assert(post.frames@[i].0 == d);
                lemma_frame_index_unique(post, d, i);
            } else {
                assert(post.frames@[i + 1].0 == d);
                lemma_frame_index_unique(post, d, i + 1);
            }
        }
    }
}

/// The fixed-point mixture of two probabilities is again a probability.
proof fn lemma_mix_bounded(alpha: int, p: int, point: int)
    requires
        0 <= alpha <= PROB_ONE,
        0 <= p <= PROB_ONE,
        0 <= point <= PROB_ONE,
    ensures
        0 <= alpha * p + (PROB_ONE - alpha) * point <= PROB_ONE * PROB_ONE,
        0 <= (alpha * p + (PROB_ONE - alpha) * point) / (PROB_ONE as int) <= PROB_ONE,
{
    assert(alpha * p + (PROB_ONE - alpha) * point <= PROB_ONE * PROB_ONE) by (nonlinear_arith)
        requires
            0 <= alpha <= PROB_ONE,
            0 <= p <= PROB_ONE,
            0 <= point <= PROB_ONE;
    assert(alpha * p >= 0) by (nonlinear_arith)
        requires 0 <= alpha, 0 <= p;
    assert((PROB_ONE - alpha) * point >= 0) by (nonlinear_arith)
        requires alpha <= PROB_ONE, 0 <= point;
    let num = alpha * p + (PROB_ONE - alpha) * point;
    assert(num / (PROB_ONE as int) <= PROB_ONE) by {
        vstd::arithmetic::div_mod::lemma_div_is_ordered(num, PROB_ONE * PROB_ONE, PROB_ONE as int);
        vstd::arithmetic::div_mod::lemma_div_multiples_vanish(PROB_ONE as int, PROB_ONE as int);
    }
    assert(num / (PROB_ONE as int) >= 0) by {
        vstd::arithmetic::div_mod::lemma_div_pos_is_pos(num, PROB_ONE as int);
    }
}

} // verus!
