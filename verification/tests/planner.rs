use prefetch_sched::bfs;
use prefetch_sched::greedy;
use prefetch_sched::lazyprob::{LazyProb, LazyProbInstance};
use prefetch_sched::sampling::sample_query_weighted_by_rewards;
use prefetch_sched::timing::TimeManager;
use prefetch_sched::{uniform_floor, PROB_ONE};

fn uniform_instance(total: usize, center: usize) -> LazyProbInstance {
    let inf = uniform_floor(total);
    LazyProbInstance::new(vec![inf; total], center)
}

fn slot_table(horizon: usize) -> TimeManager {
    let mut deltas = Vec::new();
    for t in 0..=horizon {
        deltas.push((t as u64) * 100);
    }
    TimeManager::new(deltas)
}

#[test]
fn empty_query_space_gives_empty_plan() {
    // greedy planner
    let g = greedy::new(4, 4, vec![PROB_ONE], Vec::new(), slot_table(4));
    let plan = g.run_scheduler(LazyProb::new(0), Vec::new(), 0);
    assert_eq!(plan, Vec::<usize>::new());
    // bfs planner
    let b = bfs::new(4, 4, vec![PROB_ONE], Vec::new(), slot_table(4));
    let plan = b.run_scheduler(LazyProb::new(0), Vec::new(), 0);
    assert_eq!(plan, Vec::<usize>::new());
}

#[test]
fn uniform_baseline_draws_uniformly() {
    // no keyframes, full base weight: one uniform rest row stands for every
    // tile, and the round lives as long as that row's representative tile
    // keeps a block budget
    let utility = vec![1_000_000u64, 500_000];
    let blocks = vec![2usize, 2, 2, 2];
    let g = greedy::new(4, 4, utility, blocks, slot_table(4));
    let plan = g.run_scheduler_seeded(LazyProb::new(4), vec![0, 0, 0, 0], 0, 11);
    assert!(plan.len() <= 4);
    assert!(!plan.is_empty());
    for &q in plan.iter() {
        assert!(q < 4);
    }
    // no tile can take more than its two blocks
    for q in 0..4 {
        assert!(plan.iter().filter(|&&x| x == q).count() <= 2);
    }
}

#[test]
fn uniform_baseline_with_deep_budgets_fills_every_slot() {
    // with budgets as deep as the horizon the uniform round can never end
    // early, whatever the draws
    let utility = vec![1_000_000u64, 500_000, 250_000, 125_000];
    let blocks = vec![4usize, 4, 4, 4];
    let g = greedy::new(4, 4, utility, blocks, slot_table(4));
    let plan = g.run_scheduler_seeded(LazyProb::new(4), vec![0, 0, 0, 0], 0, 11);
    assert_eq!(plan.len(), 4);
    for &q in plan.iter() {
        assert!(q < 4);
    }
}

#[test]
fn seeded_runs_are_reproducible() {
    let utility = vec![1_000_000u64, 500_000];
    let blocks = vec![2usize, 2, 2, 2];
    let g = greedy::new(4, 4, utility.clone(), blocks.clone(), slot_table(4));
    let p1 = g.run_scheduler_seeded(LazyProb::new(4), vec![0, 0, 0, 0], 0, 42);
    let p2 = g.run_scheduler_seeded(LazyProb::new(4), vec![0, 0, 0, 0], 0, 42);
    assert_eq!(p1, p2);
    let b = bfs::new(4, 4, utility, blocks, slot_table(4));
    let mut frames = LazyProb::new(4);
    frames.set_probs_at(uniform_instance(4, 0), 100);
    let mut frames2 = LazyProb::new(4);
    frames2.set_probs_at(uniform_instance(4, 0), 100);
    let q1 = b.run_scheduler_seeded(frames, vec![0, 0, 0, 0], 0, 42);
    let q2 = b.run_scheduler_seeded(frames2, vec![0, 0, 0, 0], 0, 42);
    assert_eq!(q1, q2);
}

#[test]
fn plan_length_respects_cache_and_batch() {
    let utility = vec![1_000_000u64; 8];
    let blocks = vec![8usize; 4];
    let g = greedy::new(3, 10, utility, blocks, slot_table(3));
    // only 2 slots left past start_idx 8, though the batch allows 3
    let plan = g.run_scheduler_seeded(LazyProb::new(4), vec![0, 0, 0, 0], 8, 5);
    assert!(plan.len() <= 2);
}

#[test]
fn degenerate_weights_end_the_round_empty() {
    // zero block budgets: every reward is zero on the first slot
    let utility = vec![1_000_000u64, 500_000];
    let blocks = vec![0usize, 0, 0, 0];
    let g = greedy::new(4, 4, utility, blocks, slot_table(4));
    let plan = g.run_scheduler_seeded(LazyProb::new(4), vec![0, 0, 0, 0], 0, 9);
    assert_eq!(plan, Vec::<usize>::new());
}

#[test]
fn point_mass_forces_every_draw_to_one_tile() {
    // alpha zero, point mass on tile 7: it is the only tile with any
    // probability, so both planners can only ever pick it
    let utility = vec![10_000_000u64, 1_000_000, 1_000_000, 1_000_000];
    let blocks = vec![4usize; 16];
    let mut probs = LazyProb::new(16);
    probs.set_probs_at(uniform_instance(16, 0), 100);
    probs.set_point_dist(0, 7);
    let g = greedy::new(4, 4, utility.clone(), blocks.clone(), slot_table(4));
    let plan = g.run_scheduler_seeded(probs, vec![0; 16], 0, 3);
    assert_eq!(plan, vec![7, 7, 7, 7]);

    // the BFS planner reaches tile 7 from its fixed seed tile 1 because the
    // 4x4 grid is fully explored within the search cap
    let mut probs2 = LazyProb::new(16);
    probs2.set_probs_at(uniform_instance(16, 0), 100);
    probs2.set_point_dist(0, 7);
    let b = bfs::new(4, 4, utility, blocks, slot_table(4));
    let plan = b.run_scheduler_seeded(probs2, vec![0; 16], 0, 3);
    assert_eq!(plan, vec![7, 7, 7, 7]);
}

#[test]
fn bfs_seed_outside_the_grid_ends_the_round() {
    // the search always seeds at tile 1; with a single-tile query space the
    // seed lies outside the grid and the round yields nothing -- a known
    // limitation of the fixed seed
    let utility = vec![1_000_000u64];
    let blocks = vec![1usize];
    let b = bfs::new(1, 1, utility, blocks, slot_table(1));
    let plan = b.run_scheduler_seeded(LazyProb::new(1), vec![0], 0, 1);
    assert_eq!(plan, Vec::<usize>::new());
}

#[test]
fn sharp_gaussian_favors_its_center_tile() {
    let f = 4usize;
    let mut table = vec![0u64; f * f];
    // a hand-sharpened keyframe: almost everything on tile 0
    table[0] = 900_000;
    table[1] = 50_000;
    table[4] = 50_000;
    let mut probs = LazyProb::new(f * f);
    probs.set_probs_at(LazyProbInstance::new(table, 0), 100);
    assert_eq!(probs.get_center_query_id(100), 0);
    let utility = vec![10_000_000u64, 1_000_000, 1_000_000, 1_000_000];
    let blocks = vec![4usize; 16];
    let g = greedy::new(4, 4, utility, blocks, slot_table(4));
    let plan = g.run_scheduler_seeded(probs, vec![0; 16], 0, 123);
    assert_eq!(plan.len(), 4);
    // every pick lies on the grid
    for &q in plan.iter() {
        assert!(q < 16);
    }
}

#[test]
fn integrate_probs_partition_covers_listed_and_rest() {
    let utility = vec![1_000_000u64, 500_000];
    let blocks = vec![2usize; 4];
    let g = greedy::new(2, 4, utility, blocks, slot_table(2));
    let mut probs = LazyProb::new(4);
    // only tile 1 has explicit mass
    probs.set_probs_at(LazyProbInstance::new(vec![0, 400_000, 0, 0], 1), 100);
    let (matrix, qids) = g.integrate_probs_partition(&probs, 4, 2);
    // one explicit row and the uniform rest row (smallest unlisted tile: 0)
    assert_eq!(qids, vec![1, 0]);
    assert_eq!(matrix.len(), 2);
    assert_eq!(matrix[0].len(), 2);
    // both rows integrate over (deltas[t], 200]; the oracle mixes nothing
    let low0 = probs.get_lower_bound(0);
    assert_eq!(matrix[0][0], probs.integrate_over_range(1, 0, 200, low0));
    assert_eq!(matrix[1][0], probs.integrate_over_range(0, 0, 200, low0));
}

#[test]
fn bfs_neighbours_follow_the_grid() {
    let utility = vec![1_000_000u64];
    let blocks = vec![1usize; 16];
    let b = bfs::new(1, 1, utility, blocks, slot_table(1));
    // tile 5 = (1, 1) on the 4x4 grid; probe order: right, left, below, above
    assert_eq!(b.neighbours(5), vec![9, 1, 6, 4]);
    // corner tile 0 keeps only the in-grid neighbors
    assert_eq!(b.neighbours(0), vec![4, 1]);
    // corner tile 15 = (3, 3)
    assert_eq!(b.neighbours(15), vec![11, 14]);
}

#[test]
fn weighted_sampling_picks_only_positive_weights() {
    let mut rng: rand::rngs::StdRng = rand::SeedableRng::seed_from_u64(7);
    // a single positive weight is always chosen
    let one = vec![0u128, 5, 0];
    for _ in 0..10 {
        assert_eq!(sample_query_weighted_by_rewards(&one, &mut rng), 1);
    }
    // no weights, or all-zero weights, report the out-of-range sentinel
    let none: Vec<u128> = Vec::new();
    assert_eq!(sample_query_weighted_by_rewards(&none, &mut rng), 0);
    let zeros = vec![0u128, 0];
    assert_eq!(sample_query_weighted_by_rewards(&zeros, &mut rng), 2);
}

#[test]
fn time_manager_reads_back_its_table() {
    let tm = TimeManager::new(vec![0, 50, 120]);
    assert_eq!(tm.num_slots(), 3);
    assert_eq!(tm.slot_to_client_delta(0), 0);
    assert_eq!(tm.slot_to_client_delta(2), 120);
}
