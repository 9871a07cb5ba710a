//! Tile-space geometry: pixel coordinates to tile indices, per-query
//! bounding boxes, and the decoding of a client's predictor state into a
//! probability oracle.

use vstd::prelude::*;

use crate::DELTA_MAX;
use crate::PROB_ONE;
use crate::codec::Query;
use crate::codec::spec_parse_query;
use crate::lazyprob::LazyProb;
use crate::lazyprob::LazyProbInstance;

verus! {

/// Why a predictor state could not be decoded into an oracle.
#[derive(PartialEq, Eq, Structural, Clone, Copy, Debug)]
pub enum DecodeError {
    /// The model tag is not one this layout can decode.
    UnknownModel,
    /// The distribution payload did not deserialize.
    MalformedDist,
}

/// The bounding box of one tile, in pixel coordinates scaled by the layout's
/// factor: the true pixel value is the stored value divided by `factor`.
#[derive(PartialEq, Eq, Structural, Clone, Copy, Debug)]
pub struct BoundingBox {
    pub x_min: u64,
    pub x_max: u64,
    pub y_min: u64,
    pub y_max: u64,
}

/// The point-mass parameters decoded from a predictor state: the mixing
/// weight of the base distribution (fixed point, in units of `1 / PROB_ONE`)
/// and the pixel the mass concentrates on.
pub struct PointParams {
    pub alpha: u64,
    pub x_px: u64,
    pub y_px: u64,
}

/// A decoded distribution payload: the point mass and the Gaussian keyframes,
/// each already evaluated into a per-tile probability table at its
/// millisecond offset.
pub struct DecodedDist {
    pub point: PointParams,
    pub frames: Vec<(u64, LazyProbInstance)>,
}

/// Tile-space geometry over a `dim x dim` pixel image cut into an
/// `factor x factor` tile grid; each tile covers `dim / factor` pixels per
/// side.
#[derive(PartialEq, Eq, Structural, Clone, Copy, Debug)]
pub struct Layout {
    pub dim: u32,
    pub factor: u32,
}

pub open spec fn spec_is_space(b: u8) -> bool {
    b == 32 || b == 9 || b == 10 || b == 13
}

/// `s` with leading and trailing ASCII whitespace removed.
pub open spec fn spec_trim(s: Seq<u8>) -> Seq<u8>
    decreases s.len(),
{
    if s.len() == 0 {
        s
    } else if spec_is_space(s[0]) {
        spec_trim(s.drop_first())
    } else if spec_is_space(s.last()) {
        spec_trim(s.drop_last())
    } else {
        s
    }
}

/// The model tag this layout can decode: "LGP", the linear Gaussian mixed
/// with a point mass.
pub open spec fn spec_lgp_tag() -> Seq<u8> {
    seq![76u8, 71u8, 80u8]
}

/// Whether the model tag, once trimmed, reads "LGP".
fn model_is_lgp(model: &Vec<u8>) -> (r: bool)
    ensures
        r == (spec_trim(model@) == spec_lgp_tag()),
{
    let mut a: usize = 0;
    let mut b: usize = model.len();
    proof {
        assert(model@.subrange(0, model@.len() as int) =~= model@);
    }
    while a < b && (model[a] == 32 || model[a] == 9 || model[a] == 10 || model[a] == 13)
        invariant
            a <= b <= model@.len(),
            spec_trim(model@) == spec_trim(model@.subrange(a as int, b as int)),
        decreases b - a,
    {
        proof {
            let sub = model@.subrange(a as int, b as int);
            assert(sub.drop_first() =~= model@.subrange(a as int + 1, b as int));
        }
        a = a + 1;
    }
    while a < b && (model[b - 1] == 32 || model[b - 1] == 9 || model[b - 1] == 10
        || model[b - 1] == 13)
        invariant
            a <= b <= model@.len(),
            spec_trim(model@) == spec_trim(model@.subrange(a as int, b as int)),
            a < b ==> !spec_is_space(model@[a as int]),
        decreases b - a,
    {
        proof {
            let sub = model@.subrange(a as int, b as int);
            assert(sub.drop_last() =~= model@.subrange(a as int, b as int - 1));
        }
        b = b - 1;
    }
    proof {
        let sub = model@.subrange(a as int, b as int);
        assert(spec_trim(sub) == sub);
    }
    if b - a != 3 {
        proof {
            assert(spec_trim(model@).len() == b - a);
        }
        return false;
    }
    let r = model[a] == 76 && model[a + 1] == 71 && model[a + 2] == 80;
    proof {
        let sub = model@.subrange(a as int, b as int);
        if r {
            assert(sub =~= spec_lgp_tag());
        } else {
            assert(sub[0] == model@[a as int] && sub[1] == model@[a as int + 1] && sub[2]
                == model@[a as int + 2]);
        }
    }
    r
}

impl Layout {
    pub open spec fn wf(self) -> bool {
        self.dim >= 1 && self.factor >= 1
    }

    /// A layout over a `dim x dim` image cut into `factor x factor` tiles.
    pub fn new(dim: u32, factor: u32) -> (r: Layout)
        requires
            dim >= 1,
            factor >= 1,
        ensures
            r.wf(),
            r.dim == dim,
            r.factor == factor,
    {
        Layout { dim, factor }
    }

    /// The tile under pixel `(x, y)`: coordinate `c` maps to grid cell
    /// `floor(c * factor / dim)`, the exact form of dividing by the tile's
    /// pixel width `dim / factor`.
    pub fn pixel_to_query(&self, x: u64, y: u64) -> (r: Query)
        requires
            self.wf(),
            x < self.dim,
            y < self.dim,
        ensures
            r.x as int == (x as int) * (self.factor as int) / (self.dim as int),
            r.y as int == (y as int) * (self.factor as int) / (self.dim as int),
            r.x < self.factor,
            r.y < self.factor,
    {
        proof {
            lemma_pixel_cell_in_grid(x as int, self.factor as int, self.dim as int);
            lemma_pixel_cell_in_grid(y as int, self.factor as int, self.dim as int);
            assert((x as int) * (self.factor as int) <= 0xFFFF_FFFE_0000_0001)
                by (nonlinear_arith)
                requires 0 <= (x as int) <= 0xFFFF_FFFF, 0 <= (self.factor as int) <= 0xFFFF_FFFF;
            assert((y as int) * (self.factor as int) <= 0xFFFF_FFFE_0000_0001)
                by (nonlinear_arith)
                requires 0 <= (y as int) <= 0xFFFF_FFFF, 0 <= (self.factor as int) <= 0xFFFF_FFFF;
        }
        let qx = (x * (self.factor as u64)) / (self.dim as u64);
        let qy = (y * (self.factor as u64)) / (self.dim as u64);
        Query { x: qx as u32, y: qy as u32 }
    }

    /// The bounding box of each serialized query, one row per query: the
    /// tile's pixel extent, scaled by `factor` so the box stays integral
    /// (`x_min = qx * dim` stands for the pixel `qx * dim / factor`). Every
    /// query must be in the canonical serialized form `{"x":N,"y":M}` that
    /// the codec produces: no whitespace, no reordered keys.
    pub fn get_layout(&self, queries: &Vec<Vec<u8>>) -> (r: Vec<BoundingBox>)
        requires
            self.wf(),
            forall|i: int|
                0 <= i < queries@.len() ==> spec_parse_query((#[trigger] queries@[i])@) is Some,
        ensures
            r@.len() == queries@.len(),
            forall|i: int|
                0 <= i < queries@.len() ==> {
                    let q = spec_parse_query(queries@[i]@).unwrap();
                    (#[trigger] r@[i]) == (BoundingBox {
                        x_min: (q.x * self.dim) as u64,
                        x_max: ((q.x + 1) * self.dim) as u64,
                        y_min: (q.y * self.dim) as u64,
                        y_max: ((q.y + 1) * self.dim) as u64,
                    })
                },
    {
        let mut layout_matrix: Vec<BoundingBox> = Vec::new();
        let mut i: usize = 0;
        while i < queries.len()
            invariant
                self.wf(),
                i <= queries@.len(),
                layout_matrix@.len() == i,
                forall|k: int|
                    0 <= k < queries@.len()
                        ==> spec_parse_query((#[trigger] queries@[k])@) is Some,
                forall|k: int|
                    0 <= k < i ==> {
                        let q = spec_parse_query(queries@[k]@).unwrap();
                        (#[trigger] layout_matrix@[k]) == (BoundingBox {
                            x_min: (q.x * self.dim) as u64,
                            x_max: ((q.x + 1) * self.dim) as u64,
                            y_min: (q.y * self.dim) as u64,
                            y_max: ((q.y + 1) * self.dim) as u64,
                        })
                    },
            decreases queries@.len() - i,
        {
            let query = match crate::codec::parse_query(&queries[i]) {
                Some(q) => q,
                None => {
                    proof {
                        assert(spec_parse_query(queries@[i as int]@) is Some);
                        assert(false);
                    }
                    Query { x: 0, y: 0 }
                },
            };
            let dim64 = self.dim as u64;
            proof {
                assert(((query.x as int) + 1) * (dim64 as int) <= 0xFFFF_FFFF_0000_0000)
                    by (nonlinear_arith)
                    requires
                        0 <= (query.x as int) + 1 <= 0x1_0000_0000,
                        0 <= (dim64 as int) <= 0xFFFF_FFFF;
                assert(((query.y as int) + 1) * (dim64 as int) <= 0xFFFF_FFFF_0000_0000)
                    by (nonlinear_arith)
                    requires
                        0 <= (query.y as int) + 1 <= 0x1_0000_0000,
                        0 <= (dim64 as int) <= 0xFFFF_FFFF;
                assert(0 <= (query.x as int) * (dim64 as int)
                    <= ((query.x as int) + 1) * (dim64 as int)) by (nonlinear_arith)
                    requires 0 <= query.x as int, 0 <= dim64 as int;
                assert(0 <= (query.y as int) * (dim64 as int)
                    <= ((query.y as int) + 1) * (dim64 as int)) by (nonlinear_arith)
                    requires 0 <= query.y as int, 0 <= dim64 as int;
            }
            let x_min = (query.x as u64) * dim64;
            let x_max = (query.x as u64 + 1) * dim64;
            let y_min = (query.y as u64) * dim64;
            let y_max = (query.y as u64 + 1) * dim64;
            layout_matrix.push(BoundingBox { x_min, x_max, y_min, y_max });
            i = i + 1;
        }
        layout_matrix
    }

    /// Decodes a predictor state into a probability oracle. Only the "LGP"
    /// model (a Gaussian keyframe series mixed with a point mass) is known;
    /// any other tag is `UnknownModel`, and a payload that did not
    /// deserialize (`dist` of `None`) is `MalformedDist`. On success the
    /// oracle covers `factor * factor` tiles, carries every keyframe of the
    /// payload, and concentrates its point mass on the tile under the
    /// decoded pixel.
    pub fn decode_dist(&self, model: &Vec<u8>, dist: Option<DecodedDist>) -> (r: Result<
        LazyProb,
        DecodeError,
    >)
        requires
            self.wf(),
            (self.factor * self.factor) as int <= usize::MAX,
            dist is Some ==> {
                let d = dist.unwrap();
                &&& d.point.alpha <= PROB_ONE
                &&& d.point.x_px < self.dim
                &&& d.point.y_px < self.dim
                &&& forall|k: int|
                    0 <= k < d.frames@.len() ==> (#[trigger] d.frames@[k]).0 <= DELTA_MAX
                &&& forall|k: int| 0 <= k < d.frames@.len() ==> (#[trigger] d.frames@[k]).1.wf()
                &&& forall|k: int|
                    0 <= k < d.frames@.len()
                        ==> (#[trigger] d.frames@[k]).1.probs@.len()
                            == self.factor * self.factor
            },
        ensures
            spec_trim(model@) != spec_lgp_tag() ==> r == Result::<LazyProb, DecodeError>::Err(
                DecodeError::UnknownModel,
            ),
            spec_trim(model@) == spec_lgp_tag() && dist is None ==> r == Result::<
                LazyProb,
                DecodeError,
            >::Err(DecodeError::MalformedDist),
            spec_trim(model@) == spec_lgp_tag() && dist is Some ==> r is Ok && {
                let d = dist.unwrap();
                let o = r.unwrap();
                let qx = (d.point.x_px as int) * (self.factor as int) / (self.dim as int);
                let qy = (d.point.y_px as int) * (self.factor as int) / (self.dim as int);
                &&& o.wf()
                &&& o.total_queries == self.factor * self.factor
                &&& o.point_dist.alpha == d.point.alpha
                &&& o.point_dist.q_index as int == qx * self.factor + qy
                &&& forall|delta: int|
                    #[trigger] o.spec_has_frame(delta) <==> exists|k: int|
                        0 <= k < d.frames@.len() && (#[trigger] d.frames@[k]).0 == delta
                &&& forall|k: int|
                    0 <= k < d.frames@.len() && (forall|k2: int|
                        k < k2 < d.frames@.len() ==> (#[trigger] d.frames@[k2]).0
                            != d.frames@[k].0) ==> o.frames@[o.spec_frame_index(
                        (#[trigger] d.frames@[k]).0 as int,
                    )].1 == d.frames@[k].1
            },
    {
        if !model_is_lgp(model) {
            return Err(DecodeError::UnknownModel);
        }
        let d = match dist {
            Some(d) => d,
            None => {
                return Err(DecodeError::MalformedDist);
            },
        };
        proof {
            lemma_pixel_cell_in_grid(d.point.x_px as int, self.factor as int, self.dim as int);
            lemma_pixel_cell_in_grid(d.point.y_px as int, self.factor as int, self.dim as int);
            assert((d.point.x_px as int) * (self.factor as int) <= 0xFFFF_FFFE_0000_0001)
                by (nonlinear_arith)
                requires
                    0 <= (d.point.x_px as int) <= 0xFFFF_FFFF,
                    0 <= (self.factor as int) <= 0xFFFF_FFFF;
            assert((d.point.y_px as int) * (self.factor as int) <= 0xFFFF_FFFE_0000_0001)
                by (nonlinear_arith)
                requires
                    0 <= (d.point.y_px as int) <= 0xFFFF_FFFF,
                    0 <= (self.factor as int) <= 0xFFFF_FFFF;
        }
        let qx = (d.point.x_px * (self.factor as u64)) / (self.dim as u64);
        let qy = (d.point.y_px * (self.factor as u64)) / (self.dim as u64);
        proof {
            assert((qx as int) * (self.factor as int) + (qy as int)
                < (self.factor as int) * (self.factor as int)) by (nonlinear_arith)
                requires
                    0 <= (qx as int) < (self.factor as int),
                    0 <= (qy as int) < (self.factor as int);
            assert(0 <= (qx as int) * (self.factor as int)) by (nonlinear_arith)
                requires 0 <= qx, 0 <= self.factor;
        }
        let index = (qx as usize) * (self.factor as usize) + (qy as usize);
        let total: usize = (self.factor as usize) * (self.factor as usize);
        let mut prob = LazyProb::new(total);
        prob.set_point_dist(d.point.alpha, index);
        let mut frames = d.frames;
        let ghost frames0 = frames@;
        let nframes = frames.len();
        let mut k: usize = 0;
        while frames.len() > 0
            invariant
                prob.wf(),
                prob.total_queries == total,
                total == self.factor * self.factor,
                prob.point_dist.alpha == d.point.alpha,
                prob.point_dist.q_index == index,
                nframes == frames0.len(),
                k + frames@.len() == frames0.len(),
                frames@ == frames0.subrange(k as int, frames0.len() as int),
                k <= frames0.len(),
                forall|kk: int| 0 <= kk < frames0.len() ==> (#[trigger] frames0[kk]).0 <= DELTA_MAX,
                forall|kk: int| 0 <= kk < frames0.len() ==> (#[trigger] frames0[kk]).1.wf(),
                forall|kk: int|
                    0 <= kk < frames0.len() ==> (#[trigger] frames0[kk]).1.probs@.len() == total,
                forall|delta: int|
                    #[trigger] prob.spec_has_frame(delta) <==> exists|kk: int|
                        0 <= kk < k && (#[trigger] frames0[kk]).0 == delta,
                forall|kk: int|
                    0 <= kk < k && (forall|k2: int|
                        kk < k2 < k ==> (#[trigger] frames0[k2]).0 != frames0[kk].0)
                        ==> prob.frames@[prob.spec_frame_index(
                        (#[trigger] frames0[kk]).0 as int,
                    )].1 == frames0[kk].1,
            decreases frames@.len(),
        {
            let ghost pre = prob;
            let (delta, inst) = frames.remove(0);
            proof {
                assert(frames0.subrange(k as int, frames0.len() as int)[0] == frames0[k as int]);
                assert(frames0[k as int] == (delta, inst));
                assert(frames@ =~= frames0.subrange(k as int + 1, frames0.len() as int));
            }
            prob.set_probs_at(inst, delta);
            proof {
                assert forall|d2: int| #[trigger] prob.spec_has_frame(d2) implies exists|kk: int|
                    0 <= kk < k + 1 && (#[trigger] frames0[kk]).0 == d2 by {
                    if d2 == delta {
                        assert(frames0[k as int].0 == d2);
                    } else {
                        assert(pre.spec_has_frame(d2));
                        let kk = choose|kk: int| 0 <= kk < k && (#[trigger] frames0[kk]).0 == d2;
                        assert(frames0[kk].0 == d2);
                    }
                }
                assert forall|kk: int|
                    0 <= kk < k + 1 && (#[trigger] frames0[kk]).0 == frames0[kk].0 implies
                    prob.spec_has_frame(frames0[kk].0 as int) by {
                    if kk == k {
                    } else {
                        assert(pre.spec_has_frame(frames0[kk].0 as int));
                    }
                }
                assert forall|kk: int|
                    0 <= kk < k + 1 && (forall|k2: int|
                        kk < k2 < k + 1 ==> (#[trigger] frames0[k2]).0 != frames0[kk].0) implies
                    prob.frames@[prob.spec_frame_index((#[trigger] frames0[kk]).0 as int)].1
                    == frames0[kk].1 by {
                    if kk == k {
                        assert(prob.frames@[prob.spec_frame_index(delta as int)].1 == inst);
                    } else {
                        assert(frames0[k as int].0 != frames0[kk].0);
                        let d2 = frames0[kk].0 as int;
                        assert(d2 != delta);
                        assert(forall|k2: int|
                            kk < k2 < k ==> (#[trigger] frames0[k2]).0 != frames0[kk].0);
                        assert(pre.frames@[pre.spec_frame_index(d2)].1 == frames0[kk].1);
                        assert(pre.spec_has_frame(d2));
                        assert(prob.frames@[prob.spec_frame_index(d2)]
                            == pre.frames@[pre.spec_frame_index(d2)]);
                    }
                }
            }
            k = k + 1;
        }
        Ok(prob)
    }
}

/// A pixel inside the image lands on a grid cell inside the tile grid.
proof fn lemma_pixel_cell_in_grid(x: int, factor: int, dim: int)
    requires
        0 <= x < dim,
        1 <= factor,
        1 <= dim,
    ensures
        0 <= x * factor / dim < factor,
        0 <= x * factor < dim * factor,
{
    assert(x * factor <= (dim - 1) * factor) by (nonlinear_arith)
        requires x <= dim - 1, 0 <= factor;
    assert(0 <= x * factor) by (nonlinear_arith)
        requires 0 <= x, 0 <= factor;
    assert((dim - 1) * factor < dim * factor) by (nonlinear_arith)
        requires 1 <= factor, 1 <= dim;
    assert(x * factor < dim * factor);
    vstd::arithmetic::div_mod::lemma_multiply_divide_lt(x * factor, dim, factor);
    vstd::arithmetic::div_mod::lemma_div_pos_is_pos(x * factor, dim);
}

} // verus!
