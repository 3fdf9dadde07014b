use stagehand::model::{Attendee, Point, Solution, Task, UNSCORABLE};
use stagehand::score::{
    attendee_score, calc_ex, clamp_to, is_position_possible, musician_score, placement_check,
    potential_fits, potential_score, recalc_volumes, scorable, score_or_sentinel, shapes_agree,
    slots_scorable, total_score, validate, Bounds, ConstraintViolation, PlacementCheck,
    ScoreExtended,
};
use stagehand::visibility::Visibility;

fn ok_check() -> PlacementCheck {
    PlacementCheck { in_stage: true, crowded_by: None }
}

fn task_of(musicians: Vec<usize>, attendees: usize) -> Task<i64> {
    Task {
        room_width: 0,
        room_height: 0,
        stage_width: 0,
        stage_height: 0,
        stage_bottom_left: Point { x: 0, y: 0 },
        musicians,
        attendees: vec![Attendee { x: 0, y: 0, tastes: vec![0; 3] }; attendees],
        pillars: Vec::new(),
    }
}

fn solution_of(placements: usize) -> Solution<i64> {
    Solution { placements: vec![Point { x: 0, y: 0 }; placements], volumes: vec![1; placements] }
}

fn sample_terms() -> Vec<Vec<i64>> {
    vec![vec![10, -4, 7], vec![-3, 8, 100]]
}

fn sample_visibility() -> Visibility {
    Visibility { visibility: vec![vec![true, true, false], vec![true, false, true]] }
}

fn score_of(checks: &Vec<PlacementCheck>, vis: &Visibility, terms: &Vec<Vec<i64>>) -> Result<i64, ConstraintViolation> {
    let task = task_of(vec![0, 1, 2], 2);
    stagehand::score::calc(&task, &solution_of(checks.len()), vis, checks, terms)
}

#[test]
fn validate_accepts_acceptable_placements() {
    let task = task_of(vec![0, 1, 2], 1);
    assert_eq!(validate(&task, &solution_of(3), &vec![ok_check(); 3]), Ok(()));
}

#[test]
fn validate_accepts_empty_solution_of_empty_task() {
    let task = task_of(Vec::new(), 1);
    assert_eq!(validate(&task, &solution_of(0), &Vec::new()), Ok(()));
}

#[test]
fn validate_reports_wrong_count_first() {
    let task = task_of(vec![0, 1, 2], 1);
    let checks = vec![PlacementCheck { in_stage: false, crowded_by: Some(1) }; 2];
    assert_eq!(
        validate(&task, &solution_of(2), &checks),
        Err(ConstraintViolation::StructuralMismatch { expected: 3, got: 2 })
    );
}

#[test]
fn validate_reports_out_of_bounds() {
    let task = task_of(vec![0, 1, 2], 1);
    let checks = vec![ok_check(), PlacementCheck { in_stage: false, crowded_by: None }, ok_check()];
    assert_eq!(
        validate(&task, &solution_of(3), &checks),
        Err(ConstraintViolation::OutOfBounds { musician: 1 })
    );
}

#[test]
fn validate_reports_overlap_with_nearest_neighbour() {
    let task = task_of(vec![0, 1, 2], 1);
    let checks =
        vec![ok_check(), ok_check(), PlacementCheck { in_stage: true, crowded_by: Some(0) }];
    assert_eq!(
        validate(&task, &solution_of(3), &checks),
        Err(ConstraintViolation::Overlap { musician: 2, other: 0 })
    );
}

#[test]
fn validate_reports_first_musician_with_a_violation() {
    let task = task_of(vec![0, 1, 2], 1);
    let checks = vec![
        ok_check(),
        PlacementCheck { in_stage: true, crowded_by: Some(2) },
        PlacementCheck { in_stage: false, crowded_by: Some(1) },
    ];
    assert_eq!(
        validate(&task, &solution_of(3), &checks),
        Err(ConstraintViolation::Overlap { musician: 1, other: 2 })
    );
}

#[test]
fn validate_prefers_out_of_bounds_over_overlap_for_one_musician() {
    let task = task_of(vec![0], 1);
    let checks = vec![PlacementCheck { in_stage: false, crowded_by: Some(0) }];
    assert_eq!(
        validate(&task, &solution_of(1), &checks),
        Err(ConstraintViolation::OutOfBounds { musician: 0 })
    );
}

#[test]
fn bounds_include_their_borders() {
    let inset = Bounds { left: 10, right: 90, bottom: -5, top: 5 };
    assert!(inset.musician_in_stage(10, -5));
    assert!(inset.musician_in_stage(90, 5));
    assert!(inset.musician_in_stage(50, 0));
    assert!(!inset.musician_in_stage(9, 0));
    assert!(!inset.musician_in_stage(91, 0));
    assert!(!inset.musician_in_stage(50, -6));
    assert!(!inset.musician_in_stage(50, 6));
}

#[test]
fn placement_check_finds_the_nearest_neighbour() {
    let inset = Bounds { left: 0, right: 100, bottom: 0, top: 100 };
    // Musician 1 with distances to slots 0..5; its own entry is ignored.
    let distances = vec![900, 0, 350, 399, 350];
    let c = placement_check(&inset, 50, 50, 1, &distances, 400);
    assert!(c.in_stage);
    assert_eq!(c.crowded_by, Some(2));
    let c = placement_check(&inset, 50, 50, 1, &distances, 350);
    assert_eq!(c.crowded_by, None);
    let c = placement_check(&inset, 50, 50, 1, &distances, 351);
    assert_eq!(c.crowded_by, Some(2));
}

#[test]
fn placement_check_of_a_lone_musician_is_never_crowded() {
    let inset = Bounds { left: 0, right: 100, bottom: 0, top: 100 };
    let c = placement_check(&inset, 101, 50, 0, &vec![0], i64::MAX);
    assert!(!c.in_stage);
    assert_eq!(c.crowded_by, None);
    let c = placement_check(&inset, 0, 100, 0, &Vec::new(), i64::MAX);
    assert!(c.in_stage);
    assert_eq!(c.crowded_by, None);
}

#[test]
fn a_close_pair_is_rejected_from_both_sides() {
    // Three placements on a line at 0, 15 and 100: the first two are closer
    // than the minimum separation of 20.
    let inset = Bounds { left: 0, right: 100, bottom: 0, top: 0 };
    let xs: [i64; 3] = [0, 15, 100];
    let checks: Vec<PlacementCheck> = (0..3)
        .map(|i| {
            let distances = xs.iter().map(|x| (x - xs[i]) * (x - xs[i])).collect();
            placement_check(&inset, xs[i], 0, i, &distances, 400)
        })
        .collect();
    assert_eq!(checks[0].crowded_by, Some(1));
    assert_eq!(checks[1].crowded_by, Some(0));
    assert_eq!(checks[2].crowded_by, None);
    let task = task_of(vec![0, 1, 2], 1);
    assert_eq!(
        validate(&task, &solution_of(3), &checks),
        Err(ConstraintViolation::Overlap { musician: 0, other: 1 })
    );
}

#[test]
fn score_or_sentinel_maps_failure_to_sentinel() {
    assert_eq!(score_or_sentinel(Ok(17)), 17);
    assert_eq!(score_or_sentinel(Ok(-5)), -5);
    assert_eq!(
        score_or_sentinel(Err(ConstraintViolation::OutOfBounds { musician: 0 })),
        -1_000_000_000_000
    );
}

#[test]
fn attendee_score_adds_heard_terms() {
    assert_eq!(attendee_score(&vec![10, -4, 7], &vec![true, true, false]), 6);
    assert_eq!(attendee_score(&vec![10, -4, 7], &vec![false, false, false]), 0);
    assert_eq!(attendee_score(&Vec::new(), &Vec::new()), 0);
}

#[test]
fn attendee_score_does_not_overflow_on_extreme_terms() {
    let sum = attendee_score(&vec![i64::MAX, i64::MAX, i64::MAX], &vec![true, true, true]);
    assert_eq!(sum, 3 * (i64::MAX as i128));
}

#[test]
fn musician_score_adds_a_column() {
    let terms = sample_terms();
    let vis = sample_visibility();
    assert_eq!(musician_score(&terms, &vis, 0), 7);
    assert_eq!(musician_score(&terms, &vis, 1), -4);
    assert_eq!(musician_score(&terms, &vis, 2), 100);
}

#[test]
fn total_score_adds_everything_heard() {
    assert_eq!(total_score(&sample_terms(), &sample_visibility()), 103);
}

#[test]
fn run_time_checks_of_shape_and_range() {
    let terms = sample_terms();
    let vis = sample_visibility();
    assert!(shapes_agree(&terms, &vis, 3));
    assert!(!shapes_agree(&terms, &vis, 2));
    assert!(!shapes_agree(&vec![vec![1, 2, 3]], &vis, 3));
    assert!(scorable(&terms, &vis, 3));
    assert!(slots_scorable(&terms, &vis, 3));

    let huge = vec![vec![i64::MAX, i64::MAX, 0], vec![i64::MIN, 0, 0]];
    let all = Visibility { visibility: vec![vec![true; 3]; 2] };
    assert!(!scorable(&huge, &all, 3));
    let cancel = vec![vec![i64::MAX, 0, 0], vec![0, i64::MAX, 0]];
    assert!(!scorable(&cancel, &all, 3));
    let column = vec![vec![i64::MAX, 0, 0], vec![i64::MAX, i64::MIN, 0]];
    assert!(scorable(&column, &all, 3));
    assert!(!slots_scorable(&column, &all, 3));
}

#[test]
fn calc_scores_a_valid_solution() {
    assert_eq!(score_of(&vec![ok_check(); 3], &sample_visibility(), &sample_terms()), Ok(103));
}

#[test]
fn calc_surfaces_the_violation() {
    let checks = vec![ok_check(), ok_check(), PlacementCheck { in_stage: false, crowded_by: None }];
    assert_eq!(
        score_of(&checks, &sample_visibility(), &sample_terms()),
        Err(ConstraintViolation::OutOfBounds { musician: 2 })
    );
}

#[test]
fn calc_of_silent_stage_is_zero() {
    let vis = Visibility { visibility: vec![vec![false; 3]; 2] };
    assert_eq!(score_of(&vec![ok_check(); 3], &vis, &sample_terms()), Ok(0));
}

#[test]
fn calc_ex_breakdown_adds_up_to_score() {
    let task = task_of(vec![0, 1, 2], 2);
    let checks = vec![ok_check(); 3];
    let ex =
        calc_ex(&task, &solution_of(3), &sample_visibility(), &checks, &sample_terms()).unwrap();
    assert_eq!(ex, ScoreExtended { score: 103, attendee: vec![6, 97], musician: vec![7, -4, 100] });
    assert_eq!(ex.attendee.iter().sum::<i64>(), ex.score);
    assert_eq!(ex.musician.iter().sum::<i64>(), ex.score);
    assert_eq!(score_of(&checks, &sample_visibility(), &sample_terms()), Ok(ex.score));
}

#[test]
fn calc_ex_surfaces_the_violation() {
    let task = task_of(vec![0, 1, 2], 2);
    let checks =
        vec![ok_check(), PlacementCheck { in_stage: true, crowded_by: Some(0) }, ok_check()];
    let r = calc_ex(&task, &solution_of(3), &sample_visibility(), &checks, &sample_terms());
    assert_eq!(r, Err(ConstraintViolation::Overlap { musician: 1, other: 0 }));
    assert_eq!(r.map(|ex| ex.score), score_of(&checks, &sample_visibility(), &sample_terms()));

    let outside = vec![PlacementCheck { in_stage: false, crowded_by: None }; 3];
    let r = calc_ex(&task, &solution_of(3), &sample_visibility(), &outside, &sample_terms());
    assert_eq!(r, Err(ConstraintViolation::OutOfBounds { musician: 0 }));

    let r = calc_ex(&task, &solution_of(2), &sample_visibility(), &vec![ok_check(); 2], &Vec::new());
    assert_eq!(r, Err(ConstraintViolation::StructuralMismatch { expected: 3, got: 2 }));
}

#[test]
fn only_the_caller_maps_a_rejected_solution_to_the_sentinel() {
    let task = task_of(vec![0, 1, 2], 2);
    let outside = vec![PlacementCheck { in_stage: false, crowded_by: None }; 3];
    let r = calc_ex(&task, &solution_of(3), &sample_visibility(), &outside, &sample_terms());
    assert_eq!(score_or_sentinel(r.map(|ex| ex.score)), UNSCORABLE);
}

#[test]
fn potential_is_not_below_a_score_whose_terms_it_covers() {
    // Every heard term is at most the positive part of its best case.
    let best_case = vec![vec![12, -4, 7], vec![0, 8, 100]];
    let terms = vec![vec![10, -4, 7], vec![-3, 8, 100]];
    let potential = potential_score(&best_case);
    assert_eq!(potential, 127);
    for vis in [
        sample_visibility(),
        Visibility { visibility: vec![vec![true; 3]; 2] },
        Visibility { visibility: vec![vec![false; 3]; 2] },
    ] {
        let score = score_of(&vec![ok_check(); 3], &vis, &terms).unwrap();
        assert!(score <= potential);
    }
    // Both are zero where nothing is liked.
    let nothing = vec![vec![0, -1, 0], vec![-5, 0, 0]];
    assert_eq!(potential_score(&nothing), 0);
    let all = Visibility { visibility: vec![vec![true; 3]; 2] };
    assert_eq!(score_of(&vec![ok_check(); 3], &all, &vec![vec![0; 3]; 2]), Ok(0));
}

#[test]
fn raising_a_term_from_zero_never_lowers_the_total() {
    let vis = sample_visibility();
    let checks = vec![ok_check(); 3];
    let muted = vec![vec![0, -4, 7], vec![0, 8, 100]];
    let liked = vec![vec![25, -4, 7], vec![3, 8, 100]];
    let disliked = vec![vec![-25, -4, 7], vec![-3, 8, 100]];
    let base = score_of(&checks, &vis, &muted).unwrap();
    let up = score_of(&checks, &vis, &liked).unwrap();
    let down = score_of(&checks, &vis, &disliked).unwrap();
    assert_eq!(base, 96);
    assert_eq!(up, 124);
    assert_eq!(down, 68);
    assert!(up >= base);
    assert!(down <= base);
}

#[test]
fn recalc_volumes_silences_unliked_musicians() {
    let task = task_of(vec![0, 1, 2], 2);
    let impact = vec![vec![10, -4, 7], vec![-10, 8, 100]];
    let mut solution = Solution {
        placements: vec![Point { x: 1, y: 2 }, Point { x: 3, y: 4 }, Point { x: 5, y: 6 }],
        volumes: vec![1, 1, 1],
    };
    let placements = solution.placements.clone();
    recalc_volumes(&task, &mut solution, &sample_visibility(), &impact, 0, 10);
    assert_eq!(solution.volumes, vec![0, 0, 10]);
    assert_eq!(solution.placements, placements);
    let all = Visibility { visibility: vec![vec![true; 3]; 2] };
    recalc_volumes(&task, &mut solution, &all, &impact, 0, 10);
    assert_eq!(solution.volumes, vec![0, 10, 10]);
}

#[test]
fn recalc_volumes_works_on_real_volumes() {
    let task = Task {
        room_width: 0.0,
        room_height: 0.0,
        stage_width: 0.0,
        stage_height: 0.0,
        stage_bottom_left: Point { x: 0.0, y: 0.0 },
        musicians: vec![0, 0],
        attendees: vec![Attendee { x: 0.0, y: 0.0, tastes: vec![1.0] }],
        pillars: Vec::new(),
    };
    let mut solution = Solution {
        placements: vec![Point { x: 1.0, y: 2.0 }, Point { x: 3.0, y: 4.0 }],
        volumes: Vec::new(),
    };
    let vis = Visibility { visibility: vec![vec![true, true]] };
    recalc_volumes(&task, &mut solution, &vis, &vec![vec![1, -1]], 0.0, 10.0);
    assert_eq!(solution.volumes, vec![10.0, 0.0]);
}

#[test]
fn potential_score_counts_only_positive_parts() {
    assert_eq!(potential_score(&vec![vec![5, -3, 0], vec![-1, -1, 9], Vec::new()]), 14);
    assert_eq!(potential_score(&Vec::new()), 0);
    assert_eq!(potential_score(&vec![vec![i64::MIN, i64::MAX]]), i64::MAX);
}

#[test]
fn potential_fits_detects_overflow() {
    assert!(potential_fits(&vec![vec![i64::MAX, -1], vec![0]]));
    assert!(!potential_fits(&vec![vec![i64::MAX], vec![1]]));
    assert!(!potential_fits(&vec![vec![i64::MAX, i64::MAX]]));
    assert!(potential_fits(&Vec::new()));
}

#[test]
fn position_is_possible_unless_someone_else_is_too_near() {
    let distances = vec![900, 0, 400, 401];
    assert!(is_position_possible(&distances, 1, 400));
    assert!(!is_position_possible(&distances, 1, 401));
    assert!(!is_position_possible(&distances, 0, 400));
    assert!(is_position_possible(&distances, 1, i64::MIN));
    assert!(is_position_possible(&Vec::new(), 0, i64::MAX));
    // A musician that joins: its index is past the end, so every entry counts.
    assert!(!is_position_possible(&distances, 4, 1));
}

#[test]
fn clamp_to_pulls_values_into_the_range() {
    let low = (10.0, 100);
    let high = (90.0, 900);
    assert_eq!(clamp_to((5.0, 50), low, high), low);
    assert_eq!(clamp_to((95.5, 955), low, high), high);
    assert_eq!(clamp_to((42.25, 422), low, high), (42.25, 422));
    assert_eq!(clamp_to((10.0, 100), low, high), (10.0, 100));
    assert_eq!(clamp_to((90.0, 900), low, high), (90.0, 900));
    assert_eq!(clamp_to((7, 7), (3, 3), (3, 3)), (3, 3));
}
