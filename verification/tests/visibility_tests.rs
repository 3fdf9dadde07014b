use stagehand::sweep::{Obstacle, Viewer};
use stagehand::visibility::{calc_visibility_fast, line_is_clear, Scene, Visibility};

fn sample_matrix() -> Visibility {
    Visibility {
        visibility: vec![
            vec![true, false, true, true],
            vec![false, false, false, false],
            vec![true, true, true, true],
        ],
    }
}

#[test]
fn is_visible_reads_the_matrix() {
    let vis = sample_matrix();
    assert!(vis.is_visible(0, 0));
    assert!(!vis.is_visible(0, 1));
    assert!(!vis.is_visible(1, 3));
    assert!(vis.is_visible(2, 3));
}

#[test]
fn for_attendee_lists_heard_slots_in_order() {
    let vis = sample_matrix();
    assert_eq!(vis.for_attendee(0), vec![0, 2, 3]);
    assert_eq!(vis.for_attendee(1), Vec::<usize>::new());
    assert_eq!(vis.for_attendee(2), vec![0, 1, 2, 3]);
}

#[test]
fn from_columns_transposes() {
    let columns = vec![vec![true, false], vec![false, false], vec![true, true]];
    let vis = Visibility::from_columns(&columns, 2);
    assert_eq!(vis.visibility, vec![vec![true, false, true], vec![false, false, true]]);
}

#[test]
fn from_columns_without_musicians_keeps_one_row_per_attendee() {
    let vis = Visibility::from_columns(&Vec::new(), 3);
    assert_eq!(vis.visibility, vec![Vec::<bool>::new(), Vec::new(), Vec::new()]);
}

#[test]
fn calc_visibility_fast_sweeps_every_slot() {
    let viewers0 = vec![Viewer { angle: 10, dist: 100 }, Viewer { angle: 50, dist: 100 }];
    let viewers1 = vec![Viewer { angle: 12, dist: 90 }, Viewer { angle: 55, dist: 95 }];
    let scenes = vec![
        Scene { obstacles: vec![Obstacle { enter: 5, exit: 15, dist: 40 }], viewers: viewers0 },
        Scene { obstacles: vec![Obstacle { enter: 50, exit: 60, dist: 96 }], viewers: viewers1 },
    ];
    let vis = calc_visibility_fast(&scenes, 2);
    assert_eq!(vis.visibility, vec![vec![false, true], vec![true, true]]);
}

#[test]
fn line_is_clear_ignores_the_musician_itself() {
    let radii = vec![5, 5, 5, 8];
    assert!(line_is_clear(&vec![0, 5, 70, 8], &radii, 0));
    assert!(!line_is_clear(&vec![0, 5, 70, 8], &radii, 1));
    assert!(!line_is_clear(&vec![0, 4, 70, 8], &radii, 0));
    assert!(!line_is_clear(&vec![0, 5, 70, 7], &radii, 0));
    assert!(line_is_clear(&vec![9, 9, 4, 9], &radii, 2));
    assert!(line_is_clear(&Vec::new(), &Vec::new(), 0));
}

#[test]
fn tangent_obstacle_does_not_block() {
    assert!(line_is_clear(&vec![5], &vec![5], 1));
    assert!(!line_is_clear(&vec![4], &vec![5], 1));
}
