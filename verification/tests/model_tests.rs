use stagehand::model::{
    simplify, Attendee, Pillar, Point, Solution, Task, DEFAULT_VOLUME, MAX_VOLUME, MIN_SEPARATION,
    MIN_VOLUME, MUSICIAN_BLOCK_RADIUS, MUSICIAN_RADIUS, SCORE_CONST, UNSCORABLE,
};

fn sample_task() -> Task<f64> {
    Task {
        room_width: 2000.0,
        room_height: 5000.0,
        stage_width: 1000.0,
        stage_height: 200.0,
        stage_bottom_left: Point { x: 500.0, y: 0.25 },
        musicians: vec![0, 1, 0],
        attendees: vec![
            Attendee { x: 100.0, y: 500.5, tastes: vec![1000.0, -1000.0] },
            Attendee { x: 200.0, y: 1000.0, tastes: vec![200.0, 200.0] },
            Attendee { x: 1100.0, y: 800.0, tastes: vec![800.0, 1500.0] },
        ],
        pillars: vec![Pillar { center: Point { x: 345.0, y: 255.0 }, radius: 4.0 }],
    }
}

fn plain_task(musicians: Vec<usize>, instruments: usize) -> Task<i64> {
    Task {
        room_width: 0,
        room_height: 0,
        stage_width: 0,
        stage_height: 0,
        stage_bottom_left: Point { x: 0, y: 0 },
        musicians,
        attendees: vec![
            Attendee { x: 0, y: 0, tastes: vec![0; instruments] },
            Attendee { x: 1, y: 1, tastes: vec![0; instruments] },
        ],
        pillars: Vec::new(),
    }
}

#[test]
fn constants_have_their_values() {
    assert_eq!(MUSICIAN_RADIUS, 10);
    assert_eq!(MUSICIAN_BLOCK_RADIUS, 5);
    assert_eq!(MIN_SEPARATION, 20);
    assert_eq!(SCORE_CONST, 1_000_000);
    assert_eq!(MIN_VOLUME, 0);
    assert_eq!(MAX_VOLUME, 10);
    assert_eq!(DEFAULT_VOLUME, 1);
    assert_eq!(UNSCORABLE, -1_000_000_000_000);
}

#[test]
fn point_transpose_exchanges_coordinates() {
    assert_eq!(Point { x: 1.5, y: -2.0 }.transpose(), Point { x: -2.0, y: 1.5 });
}

#[test]
fn pillar_transpose_keeps_radius() {
    let p = Pillar { center: Point { x: 3, y: 4 }, radius: 9 };
    assert_eq!(p.transpose(), Pillar { center: Point { x: 4, y: 3 }, radius: 9 });
    assert_eq!(p.point(), Point { x: 3, y: 4 });
}

#[test]
fn attendee_transpose_keeps_tastes() {
    let a = Attendee { x: 1.0, y: 2.0, tastes: vec![5.0, -6.0] };
    assert_eq!(a.coord(), Point { x: 1.0, y: 2.0 });
    assert_eq!(a.transpose(), Attendee { x: 2.0, y: 1.0, tastes: vec![5.0, -6.0] });
}

#[test]
fn task_transpose_exchanges_the_axes() {
    let t = sample_task().transpose();
    assert_eq!(t.room_width, 5000.0);
    assert_eq!(t.room_height, 2000.0);
    assert_eq!(t.stage_width, 200.0);
    assert_eq!(t.stage_height, 1000.0);
    assert_eq!(t.stage_bottom_left, Point { x: 0.25, y: 500.0 });
    assert_eq!(t.musicians, vec![0, 1, 0]);
    assert_eq!(t.attendees[0], Attendee { x: 500.5, y: 100.0, tastes: vec![1000.0, -1000.0] });
    assert_eq!(t.attendees[2], Attendee { x: 800.0, y: 1100.0, tastes: vec![800.0, 1500.0] });
    assert_eq!(t.pillars, vec![Pillar { center: Point { x: 255.0, y: 345.0 }, radius: 4.0 }]);
}

#[test]
fn task_transpose_is_an_involution() {
    let t = sample_task();
    let back = t.clone().transpose().transpose();
    assert_eq!(back, t);
    let close = |a: f64, b: f64| (a - b).abs() < 1e-9;
    assert!(close(back.room_width, t.room_width));
    assert!(close(back.room_height, t.room_height));
    assert!(close(back.stage_width, t.stage_width));
    assert!(close(back.stage_height, t.stage_height));
    assert!(close(back.stage_bottom_left.x, t.stage_bottom_left.x));
    assert!(close(back.stage_bottom_left.y, t.stage_bottom_left.y));
    for (a, b) in back.attendees.iter().zip(t.attendees.iter()) {
        assert!(close(a.x, b.x) && close(a.y, b.y));
        assert!(a.tastes.iter().zip(b.tastes.iter()).all(|(p, q)| close(*p, *q)));
    }
    for (a, b) in back.pillars.iter().zip(t.pillars.iter()) {
        assert!(close(a.center.x, b.center.x));
        assert!(close(a.center.y, b.center.y));
        assert!(close(a.radius, b.radius));
    }
}

#[test]
fn solution_transpose_is_an_involution() {
    let s = Solution {
        placements: vec![Point { x: 1.0, y: 2.0 }, Point { x: -3.5, y: 0.0 }],
        volumes: vec![1.0, 10.0],
    };
    let t = s.clone().transpose();
    assert_eq!(t.placements, vec![Point { x: 2.0, y: 1.0 }, Point { x: 0.0, y: -3.5 }]);
    assert_eq!(t.volumes, vec![1.0, 10.0]);
    assert_eq!(t.transpose(), s);
}

#[test]
fn stage_corner_getters() {
    let t = sample_task();
    assert_eq!(t.stage_left(), 500.0);
    assert_eq!(t.stage_bottom(), 0.25);
}

#[test]
fn instruments_len_is_the_first_taste_length() {
    assert_eq!(sample_task().instruments_len(), 2);
    assert_eq!(plain_task(vec![0, 1, 0], 4).instruments_len(), 4);
}

#[test]
fn musician_by_instrument_partitions_slots() {
    let task = plain_task(vec![2, 0, 2, 1, 0, 2], 4);
    assert_eq!(
        task.musician_by_instrument(),
        vec![vec![1, 4], vec![3], vec![0, 2, 5], Vec::<usize>::new()]
    );
}

#[test]
fn musician_by_instrument_without_musicians_is_all_empty() {
    let task = plain_task(Vec::new(), 2);
    assert_eq!(task.musician_by_instrument(), vec![Vec::<usize>::new(), Vec::new()]);
}

#[test]
fn has_pillars_counts_pillars() {
    assert!(sample_task().has_pillars());
    assert!(!plain_task(vec![0], 1).has_pillars());
}

#[test]
fn simplify_finds_instruments_that_nobody_tells_apart() {
    // Instruments 0 and 2 and 3 agree for every attendee, 1 differs.
    let tastes = vec![vec![5, 1, 5, 5], vec![-2, -2, -2, -2], vec![0, 9, 0, 0]];
    assert_eq!(simplify(&tastes, 4), vec![(0, 2), (0, 3), (2, 3)]);
}

#[test]
fn simplify_without_agreement_finds_nothing() {
    assert_eq!(simplify(&vec![vec![1, 2, 3]], 3), Vec::<(usize, usize)>::new());
    assert_eq!(simplify(&vec![vec![1]], 1), Vec::<(usize, usize)>::new());
    assert_eq!(simplify(&vec![Vec::new()], 0), Vec::<(usize, usize)>::new());
}

#[test]
fn simplify_without_attendees_pairs_everything() {
    assert_eq!(simplify(&Vec::new(), 3), vec![(0, 1), (0, 2), (1, 2)]);
}
