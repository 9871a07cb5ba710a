use prefetch_sched::codec::{parse_query, serialize_query, Query};
use prefetch_sched::layout::{DecodeError, DecodedDist, Layout, PointParams};
use prefetch_sched::lazyprob::{LazyProb, LazyProbInstance};
use prefetch_sched::{isqrt, uniform_floor, PROB_ONE};

fn uniform_instance(total: usize, center: usize) -> LazyProbInstance {
    let inf = uniform_floor(total);
    LazyProbInstance::new(vec![inf; total], center)
}

#[test]
fn isqrt_matches_perfect_and_ragged_squares() {
    assert_eq!(isqrt(0), 0);
    assert_eq!(isqrt(1), 1);
    assert_eq!(isqrt(3), 1);
    assert_eq!(isqrt(4), 2);
    assert_eq!(isqrt(16), 4);
    assert_eq!(isqrt(17), 4);
}

#[test]
fn uniform_floor_is_one_over_q() {
    assert_eq!(uniform_floor(0), 0);
    assert_eq!(uniform_floor(4), 250_000);
    assert_eq!(uniform_floor(3), 333_333);
}

#[test]
fn time_bounds_on_empty_oracle() {
    // with no keyframes the bounds collapse to (delta, delta + 1)
    let p = LazyProb::new(4);
    assert_eq!(p.get_time_bounds(120), (120, 121));
    assert_eq!(p.get_lower_bound(120), 120);
}

#[test]
fn time_bounds_bracket_the_query_offset() {
    let mut p = LazyProb::new(4);
    p.set_probs_at(uniform_instance(4, 0), 50);
    p.set_probs_at(uniform_instance(4, 0), 150);
    assert_eq!(p.get_time_bounds(100), (50, 150));
    assert_eq!(p.get_time_bounds(50), (50, 150));
    assert_eq!(p.get_time_bounds(150), (150, 151));
    assert_eq!(p.get_time_bounds(10), (10, 50));
    assert_eq!(p.get_lower_bound(10), 10);
    assert_eq!(p.get_lower_bound(160), 150);
}

#[test]
fn keyframe_overwrite_keeps_one_frame_per_offset() {
    let mut p = LazyProb::new(4);
    p.set_probs_at(LazyProbInstance::new(vec![0, 0, PROB_ONE, 0], 2), 50);
    p.set_probs_at(LazyProbInstance::new(vec![PROB_ONE, 0, 0, 0], 0), 50);
    assert_eq!(p.get_time_bounds(60), (50, 61));
    assert_eq!(p.get_probs_at(0, 50), PROB_ONE);
    assert_eq!(p.get_probs_at(2, 50), 0);
}

#[test]
fn probs_fall_back_to_uniform_floor() {
    let p = LazyProb::new(4);
    // alpha starts at one: the point mass carries no weight
    assert_eq!(p.get_probs_at(0, 77), 250_000);
    assert_eq!(p.get_probs_at(3, 0), 250_000);
}

#[test]
fn point_mass_override_is_pure_dirac() {
    // alpha of zero concentrates everything on the chosen tile
    let mut p = LazyProb::new(16);
    p.set_probs_at(uniform_instance(16, 0), 100);
    p.set_point_dist(0, 7);
    for q in 0..16 {
        let expect = if q == 7 { PROB_ONE } else { 0 };
        assert_eq!(p.get_probs_at(q, 100), expect);
        assert_eq!(p.get_probs_at(q, 5), expect);
    }
}

#[test]
fn mixture_blends_base_and_point() {
    let mut p = LazyProb::new(4);
    p.set_point_dist(500_000, 1);
    // base is the uniform floor 250_000; tile 1 gains half the point mass
    assert_eq!(p.get_probs_at(1, 0), 625_000);
    assert_eq!(p.get_probs_at(0, 0), 125_000);
    assert_eq!(p.get_linear_prob(1, 250_000), 625_000);
}

#[test]
fn interpolation_hits_the_midpoint() {
    // keyframes at 50 and 150 with values 200_000 and 400_000 for tile 2
    let mut p = LazyProb::new(4);
    p.set_probs_at(LazyProbInstance::new(vec![0, 0, 200_000, 0], 2), 50);
    p.set_probs_at(LazyProbInstance::new(vec![0, 0, 400_000, 0], 2), 150);
    assert_eq!(p.get(2, 100), 300_000);
    assert_eq!(p.get(2, 50), 200_000);
    assert_eq!(p.get(2, 125), 350_000);
}

#[test]
fn integral_of_two_keyframes_is_the_trapezoid() {
    let mut p = LazyProb::new(4);
    p.set_probs_at(LazyProbInstance::new(vec![0, 0, 200_000, 0], 2), 50);
    p.set_probs_at(LazyProbInstance::new(vec![0, 0, 400_000, 0], 2), 150);
    let low = p.get_lower_bound(50);
    // 100 ms at the average height (200_000 + 400_000) / 2
    assert_eq!(p.integrate_over_range(2, 50, 150, low), 100 * 300_000);
}

#[test]
fn integral_of_constant_curve_is_height_times_width() {
    // a single keyframe past the range end leaves the curve constant
    let mut p = LazyProb::new(4);
    p.set_probs_at(uniform_instance(4, 0), 200);
    let low = p.get_lower_bound(50);
    assert_eq!(p.integrate_over_range(0, 50, 150, low), 100 * 250_000);
    // an empty range integrates to zero
    assert_eq!(p.integrate_over_range(0, 150, 150, low), 0);
    assert_eq!(p.integrate_over_range(0, 200, 150, low), 0);
}

#[test]
fn area_under_curve_matches_hand_computation() {
    let mut p = LazyProb::new(4);
    p.set_probs_at(LazyProbInstance::new(vec![0, 0, 200_000, 0], 2), 0);
    p.set_probs_at(LazyProbInstance::new(vec![0, 0, 400_000, 0], 2), 100);
    // full span: trapezoid of width 100, heights 200_000 and 400_000
    assert_eq!(p.area_under_curve(2, 0, 100, 0, 100), 100 * 300_000);
    // first half: heights 200_000 and 300_000
    assert_eq!(p.area_under_curve(2, 0, 100, 0, 50), 50 * 250_000);
    // degenerate windows give zero
    assert_eq!(p.area_under_curve(2, 0, 100, 60, 60), 0);
    assert_eq!(p.area_under_curve(2, 70, 100, 60, 80), 0);
}

#[test]
fn area_is_symmetric_under_falling_slope() {
    // falling from 400_000 to 200_000: same half-window area mirrored
    let mut p = LazyProb::new(4);
    p.set_probs_at(LazyProbInstance::new(vec![0, 0, 400_000, 0], 2), 0);
    p.set_probs_at(LazyProbInstance::new(vec![0, 0, 200_000, 0], 2), 100);
    assert_eq!(p.area_under_curve(2, 0, 100, 0, 100), 100 * 300_000);
    assert_eq!(p.area_under_curve(2, 0, 100, 0, 50), 50 * 350_000);
}

#[test]
fn get_k_lists_tiles_with_nonzero_entries() {
    let mut p = LazyProb::new(4);
    assert_eq!(p.get_k(), Vec::<usize>::new());
    p.set_probs_at(LazyProbInstance::new(vec![0, 100, 0, 0], 1), 50);
    p.set_probs_at(LazyProbInstance::new(vec![0, 0, 0, 200], 3), 150);
    assert_eq!(p.get_k(), vec![1, 3]);
}

#[test]
fn center_query_id_requires_exact_keyframe() {
    let mut p = LazyProb::new(16);
    p.set_probs_at(uniform_instance(16, 5), 100);
    assert_eq!(p.get_center_query_id(100), 5);
    assert_eq!(p.get_center_query_id(99), 0);
}

#[test]
fn gaussian_keyframe_mass_stays_within_one() {
    // a centered, narrow Gaussian puts nearly all its mass on the grid
    let f = 8usize;
    let table = gauss_table(4.0, 4.0, 1.0, 1.0, f);
    let total: u64 = table.iter().sum();
    assert!(total <= PROB_ONE, "mass {} exceeds one", total);
    assert!(total >= 990_000, "mass {} lost too much", total);
}

#[test]
fn sharp_gaussian_concentrates_on_its_center_tile() {
    let f = 4usize;
    let table = gauss_table(0.0, 0.0, 0.3, 0.3, f);
    let mut p = LazyProb::new(f * f);
    p.set_probs_at(LazyProbInstance::new(table, 0), 100);
    assert_eq!(p.get_center_query_id(100), 0);
    // the Gaussian sits on the grid corner, so only the on-grid quadrant of
    // its mass (about a quarter) lands on tile 0 -- still far above any
    // other tile
    let top = p.get_probs_at(0, 100);
    assert!(top > 200_000);
    for q in 1..16 {
        assert!(top > p.get_probs_at(q, 100));
    }
}

#[test]
fn query_round_trip_through_bytes() {
    for &(x, y) in &[(0u32, 0u32), (3, 7), (10, 0), (4294967295, 1)] {
        let q = Query { x, y };
        let bytes = serialize_query(&q);
        let back = parse_query(&bytes).expect("canonical form must parse");
        assert_eq!(back.x, x);
        assert_eq!(back.y, y);
    }
}

#[test]
fn query_serialization_is_the_json_serde_reads() {
    let q = Query { x: 12, y: 34 };
    let bytes = serialize_query(&q);
    let text = String::from_utf8(bytes).unwrap();
    assert_eq!(text, "{\"x\":12,\"y\":34}");
    let v: serde_json::Value = serde_json::from_str(&text).unwrap();
    assert_eq!(v["x"].as_u64(), Some(12));
    assert_eq!(v["y"].as_u64(), Some(34));
}

#[test]
fn parser_rejects_non_canonical_forms() {
    let cases: [&str; 7] = [
        "{\"x\":01,\"y\":2}",
        "{\"x\": 1,\"y\":2}",
        "{\"x\":1,\"y\":2} ",
        "{\"x\":1,\"y\":4294967296}",
        "{\"y\":1,\"x\":2}",
        "{\"x\":,\"y\":2}",
        "",
    ];
    for c in cases.iter() {
        assert_eq!(parse_query(&c.as_bytes().to_vec()), None, "accepted {:?}", c);
    }
    assert!(parse_query(&"{\"x\":0,\"y\":2}".as_bytes().to_vec()).is_some());
}

#[test]
fn pixel_to_query_floors_by_tile_width() {
    let l = Layout::new(256, 4);
    // tile width 64 pixels
    assert_eq!(l.pixel_to_query(0, 0), Query { x: 0, y: 0 });
    assert_eq!(l.pixel_to_query(63, 64), Query { x: 0, y: 1 });
    assert_eq!(l.pixel_to_query(255, 255), Query { x: 3, y: 3 });
    // a width that does not divide evenly still floors exactly
    let l2 = Layout::new(10, 3);
    assert_eq!(l2.pixel_to_query(9, 3), Query { x: 2, y: 0 });
}

#[test]
fn layout_rows_carry_each_query_box() {
    let l = Layout::new(256, 4);
    let queries = vec![
        serialize_query(&Query { x: 0, y: 0 }),
        serialize_query(&Query { x: 1, y: 2 }),
    ];
    let rows = l.get_layout(&queries);
    assert_eq!(rows.len(), 2);
    // boxes are scaled by the factor: stored value / 4 is the pixel
    assert_eq!(rows[0].x_min, 0);
    assert_eq!(rows[0].x_max, 256);
    assert_eq!(rows[1].x_min, 256);
    assert_eq!(rows[1].x_max, 512);
    assert_eq!(rows[1].y_min, 512);
    assert_eq!(rows[1].y_max, 768);
}

#[test]
fn uniform_integral_is_range_over_query_count() {
    // with no keyframes every tile integrates to (delta_m - delta_0) / Q
    let p = LazyProb::new(4);
    for q in 0..4 {
        assert_eq!(p.integrate_over_range(q, 0, 400, 0), 400 * 250_000);
    }
}

#[test]
fn decode_keeps_the_last_keyframe_per_offset() {
    let l = Layout::new(256, 4);
    let total = 16usize;
    let mut early = vec![0u64; total];
    early[2] = 300_000;
    let mut late = vec![0u64; total];
    late[5] = 700_000;
    let frames = vec![
        (100u64, LazyProbInstance::new(early, 2)),
        (100u64, LazyProbInstance::new(late, 5)),
    ];
    let dist = DecodedDist {
        point: PointParams { alpha: PROB_ONE, x_px: 0, y_px: 0 },
        frames,
    };
    let oracle = l.decode_dist(&b"LGP".to_vec(), Some(dist)).expect("decodes");
    assert_eq!(oracle.get_probs_at(5, 100), 700_000);
    assert_eq!(oracle.get_probs_at(2, 100), 0);
    assert_eq!(oracle.get_center_query_id(100), 5);
}

#[test]
fn decode_rejects_unknown_models() {
    let l = Layout::new(256, 4);
    let r = l.decode_dist(&b"GM".to_vec(), None);
    assert_eq!(r.err(), Some(DecodeError::UnknownModel));
}

#[test]
fn decode_rejects_malformed_payloads() {
    let l = Layout::new(256, 4);
    let r = l.decode_dist(&b"  LGP \n".to_vec(), None);
    assert_eq!(r.err(), Some(DecodeError::MalformedDist));
}

#[test]
fn decode_builds_the_oracle_with_point_mass() {
    let l = Layout::new(256, 4);
    let total = 16usize;
    let frames = vec![(100u64, uniform_instance(total, 3))];
    let dist = DecodedDist {
        point: PointParams { alpha: 0, x_px: 70, y_px: 200 },
        frames,
    };
    let oracle = l.decode_dist(&b"LGP".to_vec(), Some(dist)).expect("decodes");
    // pixel (70, 200) lands on tile (1, 3): index 1 * 4 + 3 = 7
    assert_eq!(oracle.get_probs_at(7, 100), PROB_ONE);
    assert_eq!(oracle.get_probs_at(0, 100), 0);
    assert_eq!(oracle.get_time_bounds(50), (50, 100));
}

fn norm_cdf(x: f64, mu: f64, sigma: f64) -> f64 {
    let z = (x - mu) / sigma;
    let y = z / std::f64::consts::SQRT_2;
    if x >= 3.0 {
        0.5 * statrs::function::erf::erfc(-y)
    } else {
        0.5 + 0.5 * statrs::function::erf::erf(y)
    }
}

fn gauss_table(xmu: f64, ymu: f64, xsigma: f64, ysigma: f64, f: usize) -> Vec<u64> {
    let mut table = Vec::new();
    let mut remaining = 1_000_000u64;
    for key in 0..f * f {
        let x = (key / f) as f64;
        let y = (key % f) as f64;
        let xpw = norm_cdf(x, xmu, xsigma);
        let xmw = norm_cdf(x + 1.0, xmu, xsigma);
        let yph = norm_cdf(y, ymu, ysigma);
        let ymh = norm_cdf(y + 1.0, ymu, ysigma);
        let prob = xpw * yph - xpw * ymh - xmw * yph + xmw * ymh;
        let fixed = (prob.max(0.0).min(1.0) * 1_000_000.0) as u64;
        // keep the table a subdistribution, as the keyframe invariant asks
        let cell = fixed.min(remaining);
        remaining -= cell;
        table.push(cell);
    }
    table
}
