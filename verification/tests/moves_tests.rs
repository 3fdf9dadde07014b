use rand::SeedableRng;
use rand_xoshiro::Xoshiro256PlusPlus;
use stagehand::model::{Attendee, Point, Solution, Task};
use stagehand::moves::{
    all_optimizers, apply_swaps, change_count, draw_swaps, final_optimizers, identity,
    random_swap_positions, refresh_due, relocation_targets, safe_optimizers, sample_some,
    shuffled_order, swap_count, ForceParams, Move, RIGID_BODY_REFRESH_RATE, RIGID_BODY_STEPS,
    SAMPLE_LIMIT,
};

fn is_permutation(v: &[usize]) -> bool {
    let mut seen = vec![false; v.len()];
    for &x in v {
        if x >= v.len() || seen[x] {
            return false;
        }
        seen[x] = true;
    }
    true
}

#[test]
fn move_names_are_fixed() {
    assert_eq!(Move::RigidBody.name(), "Rigid body based");
    assert_eq!(Move::Force.name(), "Force based");
    assert_eq!(Move::ForceBigStep.name(), "Force based with big steps");
    assert_eq!(Move::ForceBigGap.name(), "Force based with big gaps");
    assert_eq!(Move::ForceBigGapBigStep.name(), "Force based with big gaps and big steps");
    assert_eq!(Move::ForceRandomWalk.name(), "Force based random walk");
    assert_eq!(Move::SilentTogether.name(), "Force based silent musicians together");
    assert_eq!(Move::AllTogether.name(), "Force based musicians together");
    assert_eq!(Move::OutOfTheWay.name(), "Force based out of the way");
    assert_eq!(Move::ZerosAway.name(), "Wrong taste away from audience");
    assert_eq!(Move::Greedy.name(), "Greedy placement");
    assert_eq!(Move::RandomSwap.name(), "Random swap positions");
    assert_eq!(Move::RandomChange.name(), "Random change positions");
    assert_eq!(Move::Border.name(), "Optimize border");
}

#[test]
fn move_sets_have_their_members() {
    let safe = safe_optimizers();
    assert_eq!(safe.len(), 11);
    assert_eq!(safe[0], Move::RigidBody);
    assert_eq!(safe[10], Move::Greedy);
    let all = all_optimizers();
    assert_eq!(all.len(), 13);
    assert_eq!(&all[..11], &safe[..]);
    assert_eq!(all[11], Move::RandomSwap);
    assert_eq!(all[12], Move::RandomChange);
    assert_eq!(final_optimizers(), vec![Move::RigidBody, Move::SilentTogether, Move::Greedy]);
}

#[test]
fn force_params_presets() {
    let d = ForceParams::default();
    assert_eq!(d.steps, 100);
    assert_eq!(d.refresh_visibility_rate, 10);
    assert_eq!(d.random_walk_multiplier, 500);
    assert_eq!(d.random_walk_decay, 900);
    assert_eq!(d.optimizing_force_multiplier, 1000);
    assert_eq!(d.optimizing_force_decay, 999);
    assert_eq!(d.relaxing_force_multiplier, 500);
    assert_eq!(d.relaxing_force_decay, 999);
    assert_eq!(d.force_gap_size, 0);

    let b = ForceParams::big_step();
    assert_eq!(
        b,
        ForceParams {
            optimizing_force_multiplier: 100_000,
            optimizing_force_decay: 990,
            relaxing_force_multiplier: 2000,
            relaxing_force_decay: 950,
            ..d
        }
    );
    assert_eq!(ForceParams::big_gap(), ForceParams { force_gap_size: 10_000, ..d });
    assert_eq!(
        ForceParams::big_gap_big_step(),
        ForceParams {
            optimizing_force_multiplier: 100_000,
            optimizing_force_decay: 990,
            force_gap_size: 10_000,
            ..d
        }
    );
}

#[test]
fn thousandths_give_back_the_decimal_fractions() {
    let d = ForceParams::default();
    assert_eq!(d.optimizing_force_decay as f64 / 1000.0, 0.999);
    assert_eq!(d.random_walk_decay as f64 / 1000.0, 0.9);
    assert_eq!(d.random_walk_multiplier as f64 / 1000.0, 0.5);
    assert_eq!(ForceParams::big_step().relaxing_force_decay as f64 / 1000.0, 0.95);
    assert_eq!(ForceParams::big_step().optimizing_force_decay as f64 / 1000.0, 0.99);
    assert_eq!(ForceParams::big_gap().force_gap_size as f64 / 1000.0, 10.0);
}

#[test]
fn refresh_is_due_after_every_rate_th_step() {
    let due: Vec<usize> = (0..30).filter(|s| refresh_due(*s, 10)).collect();
    assert_eq!(due, vec![9, 19, 29]);
    assert!(refresh_due(0, 1));
    assert!(!refresh_due(0, 2));
    assert_eq!(RIGID_BODY_STEPS, 200);
    assert_eq!(RIGID_BODY_REFRESH_RATE, 10);
}

#[test]
fn swap_count_is_clamped() {
    assert_eq!(swap_count(0), 2);
    assert_eq!(swap_count(39), 2);
    assert_eq!(swap_count(40), 2);
    assert_eq!(swap_count(60), 3);
    assert_eq!(swap_count(100), 5);
    assert_eq!(swap_count(119), 5);
    assert_eq!(swap_count(10_000), 5);
}

#[test]
fn change_count_is_a_tenth_but_at_least_one() {
    assert_eq!(change_count(0), 1);
    assert_eq!(change_count(9), 1);
    assert_eq!(change_count(10), 1);
    assert_eq!(change_count(25), 2);
    assert_eq!(change_count(1000), 100);
}

#[test]
fn identity_counts_up() {
    assert_eq!(identity(4), vec![0, 1, 2, 3]);
    assert_eq!(identity(0), Vec::<usize>::new());
}

#[test]
fn apply_swaps_exchanges_in_sequence() {
    assert_eq!(apply_swaps(4, &vec![(0, 1)]), vec![1, 0, 2, 3]);
    assert_eq!(apply_swaps(4, &vec![(0, 1), (1, 2)]), vec![1, 2, 0, 3]);
    assert_eq!(apply_swaps(4, &vec![(2, 2)]), vec![0, 1, 2, 3]);
    assert_eq!(apply_swaps(4, &vec![(0, 3), (0, 3)]), vec![0, 1, 2, 3]);
    assert_eq!(apply_swaps(3, &Vec::new()), vec![0, 1, 2]);
}

#[test]
fn draw_swaps_is_a_permutation_that_moves_something() {
    let mut rng = Xoshiro256PlusPlus::seed_from_u64(42);
    let mut moved = false;
    for _ in 0..20 {
        let source = draw_swaps(50, &mut rng);
        assert_eq!(source.len(), 50);
        assert!(is_permutation(&source));
        let displaced = source.iter().enumerate().filter(|(i, s)| i != *s).count();
        assert!(displaced <= 4);
        moved = moved || displaced > 0;
    }
    assert!(moved);
}

#[test]
fn draw_swaps_with_one_musician_is_identity() {
    let mut rng = Xoshiro256PlusPlus::seed_from_u64(1);
    assert_eq!(draw_swaps(1, &mut rng), vec![0]);
}

#[test]
fn random_moves_without_musicians_do_nothing() {
    let mut rng = Xoshiro256PlusPlus::seed_from_u64(1);
    assert_eq!(draw_swaps(0, &mut rng), Vec::<usize>::new());
    assert_eq!(relocation_targets(0, &mut rng), Vec::<usize>::new());
    let mut untouched = Xoshiro256PlusPlus::seed_from_u64(1);
    assert_eq!(shuffled_order(5, &mut rng), shuffled_order(5, &mut untouched));

    let task = swap_task(0);
    let empty = Solution { placements: Vec::<Point<f64>>::new(), volumes: Vec::new() };
    assert_eq!(random_swap_positions(&task, &empty, &mut rng), empty);
}

#[test]
fn random_swap_hands_back_a_solution_that_does_not_fit_the_task() {
    let mut rng = Xoshiro256PlusPlus::seed_from_u64(42);
    let task = swap_task(40);
    let short = Solution {
        placements: (0..39).map(|i| Point { x: i as f64, y: 0.0 }).collect(),
        volumes: vec![1.0; 39],
    };
    let lopsided = Solution {
        placements: (0..40).map(|i| Point { x: i as f64, y: 0.0 }).collect(),
        volumes: vec![1.0; 3],
    };
    for _ in 0..10 {
        assert_eq!(random_swap_positions(&task, &short, &mut rng), short);
        assert_eq!(random_swap_positions(&task, &lopsided, &mut rng), lopsided);
    }
}

#[test]
fn random_swap_displaces_at_most_two_slots_per_exchange() {
    let mut rng = Xoshiro256PlusPlus::seed_from_u64(5);
    for n in [1usize, 2, 39, 60, 100, 400] {
        let task = swap_task(n);
        let solution = Solution {
            placements: (0..n).map(|i| Point { x: i as f64, y: 0.0 }).collect(),
            volumes: (0..n).map(|i| i as f64).collect(),
        };
        for _ in 0..20 {
            let swapped = random_swap_positions(&task, &solution, &mut rng);
            let displaced =
                (0..n).filter(|k| swapped.volumes[*k] != solution.volumes[*k]).count();
            assert!(displaced <= 2 * swap_count(n));
        }
    }
}

fn swap_task(n: usize) -> Task<f64> {
    Task {
        room_width: 0.0,
        room_height: 0.0,
        stage_width: 0.0,
        stage_height: 0.0,
        stage_bottom_left: Point { x: 0.0, y: 0.0 },
        musicians: vec![0; n],
        attendees: vec![Attendee { x: 0.0, y: 0.0, tastes: vec![1.0] }],
        pillars: Vec::new(),
    }
}

#[test]
fn random_swap_positions_moves_positions_and_volumes_together() {
    let n = 40;
    let task = Task {
        room_width: 0.0,
        room_height: 0.0,
        stage_width: 0.0,
        stage_height: 0.0,
        stage_bottom_left: Point { x: 0.0, y: 0.0 },
        musicians: vec![0; n],
        attendees: vec![Attendee { x: 0.0, y: 0.0, tastes: vec![1.0] }],
        pillars: Vec::new(),
    };
    let solution = Solution {
        placements: (0..n).map(|i| Point { x: i as f64, y: 2.0 * i as f64 }).collect(),
        volumes: (0..n).map(|i| i as f64).collect(),
    };
    let mut rng = Xoshiro256PlusPlus::seed_from_u64(42);
    let mut moved = false;
    for _ in 0..10 {
        let swapped = random_swap_positions(&task, &solution, &mut rng);
        assert_eq!(swapped.placements.len(), n);
        assert_eq!(swapped.volumes.len(), n);
        for k in 0..n {
            assert_eq!(swapped.placements[k].x, swapped.volumes[k]);
            assert_eq!(swapped.placements[k].y, 2.0 * swapped.volumes[k]);
        }
        let mut volumes = swapped.volumes.clone();
        volumes.sort_by(|a, b| a.partial_cmp(b).unwrap());
        assert_eq!(volumes, solution.volumes);
        moved = moved || swapped != solution;
    }
    assert!(moved);
}

#[test]
fn relocation_targets_are_in_range_and_vary() {
    let mut rng = Xoshiro256PlusPlus::seed_from_u64(42);
    let targets = relocation_targets(200, &mut rng);
    assert_eq!(targets.len(), 20);
    assert!(targets.iter().all(|t| *t < 200));
    assert!(targets.iter().any(|t| *t != targets[0]));
    assert!(targets.iter().any(|t| *t != 0));
    assert_eq!(relocation_targets(5, &mut rng).len(), 1);
}

#[test]
fn shuffled_order_is_a_permutation_that_differs_from_identity() {
    let mut rng = Xoshiro256PlusPlus::seed_from_u64(42);
    let order = shuffled_order(100, &mut rng);
    assert_eq!(order.len(), 100);
    assert!(is_permutation(&order));
    assert_ne!(order, identity(100));
    assert_eq!(shuffled_order(0, &mut rng), Vec::<usize>::new());
}

#[test]
fn same_seed_gives_same_draws() {
    let mut a = Xoshiro256PlusPlus::seed_from_u64(7);
    let mut b = Xoshiro256PlusPlus::seed_from_u64(7);
    assert_eq!(shuffled_order(30, &mut a), shuffled_order(30, &mut b));
    assert_eq!(draw_swaps(30, &mut a), draw_swaps(30, &mut b));
    assert_eq!(relocation_targets(30, &mut a), relocation_targets(30, &mut b));
}

#[test]
fn sample_some_draws_distinct_indices() {
    let mut rng = Xoshiro256PlusPlus::seed_from_u64(42);
    assert_eq!(SAMPLE_LIMIT, 20);
    let few = sample_some(7, &mut rng);
    assert_eq!(few.len(), 7);
    let mut sorted = few.clone();
    sorted.sort();
    assert_eq!(sorted, vec![0, 1, 2, 3, 4, 5, 6]);

    let many = sample_some(1000, &mut rng);
    assert_eq!(many.len(), 20);
    assert!(many.iter().all(|i| *i < 1000));
    let mut unique = many.clone();
    unique.sort();
    unique.dedup();
    assert_eq!(unique.len(), 20);
    assert!(many.iter().any(|i| *i >= 20));
    assert!(sample_some(0, &mut rng).is_empty());
}

#[test]
fn every_force_move_has_its_parameters() {
    let d = ForceParams::default();
    assert_eq!(Move::Force.force_params(), Some(d));
    assert_eq!(Move::ForceBigStep.force_params(), Some(ForceParams::big_step()));
    assert_eq!(Move::ForceBigGap.force_params(), Some(ForceParams::big_gap()));
    assert_eq!(Move::ForceBigGapBigStep.force_params(), Some(ForceParams::big_gap_big_step()));
    for m in [
        Move::ForceRandomWalk,
        Move::SilentTogether,
        Move::AllTogether,
        Move::OutOfTheWay,
        Move::ZerosAway,
    ] {
        assert_eq!(m.force_params(), Some(d));
    }
    for m in [Move::RigidBody, Move::Greedy, Move::RandomSwap, Move::RandomChange, Move::Border] {
        assert_eq!(m.force_params(), None);
    }
}

#[test]
fn pulling_together_needs_pillars() {
    assert!(!Move::SilentTogether.applies(false));
    assert!(!Move::AllTogether.applies(false));
    assert!(Move::SilentTogether.applies(true));
    assert!(Move::AllTogether.applies(true));
    for m in all_optimizers() {
        assert!(m.applies(true));
        assert_eq!(m.applies(false), m != Move::SilentTogether && m != Move::AllTogether);
    }
}
