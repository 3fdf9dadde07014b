use stagehand::greedy::{assign_greedily, optimize_placements_greedy, rearrange};
use stagehand::model::{Attendee, Point, Solution, Task};
use stagehand::score::{validate, PlacementCheck};
use stagehand::visibility::Visibility;

fn task_of(musicians: Vec<usize>, instruments: usize) -> Task<f64> {
    Task {
        room_width: 1000.0,
        room_height: 1000.0,
        stage_width: 100.0,
        stage_height: 100.0,
        stage_bottom_left: Point { x: 0.0, y: 0.0 },
        musicians,
        attendees: vec![Attendee { x: 50.0, y: 150.0, tastes: vec![100.0; instruments] }],
        pillars: Vec::new(),
    }
}

fn per_contribution(taste: f64, musician: Point<f64>, attendee: Point<f64>) -> i64 {
    let dx = musician.x - attendee.x;
    let dy = musician.y - attendee.y;
    (taste * 1_000_000.0 / (dx * dx + dy * dy)).ceil() as i64
}

fn checks_for(task: &Task<f64>, placements: &[Point<f64>]) -> Vec<PlacementCheck> {
    let left = task.stage_left();
    let bottom = task.stage_bottom();
    let right = left + task.stage_width;
    let top = bottom + task.stage_height;
    placements
        .iter()
        .enumerate()
        .map(|(i, p)| {
            let in_stage = p.x >= left + 10.0
                && p.x <= right - 10.0
                && p.y >= bottom + 10.0
                && p.y <= top - 10.0;
            let mut nearest: Option<(usize, f64)> = None;
            for (j, q) in placements.iter().enumerate() {
                if j == i {
                    continue;
                }
                let d = (p.x - q.x) * (p.x - q.x) + (p.y - q.y) * (p.y - q.y);
                if nearest.map(|(_, best)| d < best).unwrap_or(true) {
                    nearest = Some((j, d));
                }
            }
            let crowded_by = nearest.filter(|(_, d)| *d < 400.0).map(|(j, _)| j);
            PlacementCheck { in_stage, crowded_by }
        })
        .collect()
}

#[test]
fn greedy_on_two_musicians_and_one_attendee() {
    // A stage of 100 by 100, two musicians of distinct instruments, one
    // attendee behind the stage who likes both instruments, no pillars.
    let mut task = task_of(vec![0, 1], 2);
    task.attendees[0].tastes = vec![100.0, 50.0];
    let attendee = task.attendees[0].coord();
    let solution = Solution {
        placements: vec![Point { x: 20.0, y: 20.0 }, Point { x: 60.0, y: 20.0 }],
        volumes: vec![1.0, 1.0],
    };
    let visibility = Visibility { visibility: vec![vec![true, true]] };

    let values: Vec<Vec<i64>> = (0..2)
        .map(|i| {
            (0..2)
                .map(|p| per_contribution(task.attendees[0].tastes[i], solution.placements[p], attendee))
                .collect()
        })
        .collect();
    assert_eq!(values, vec![vec![5618, 5883], vec![2809, 2942]]);

    assert_eq!(assign_greedily(&task, &values, 2), vec![1, 0]);
    let placed = optimize_placements_greedy(&task, &solution, &values);
    assert_eq!(placed.placements, vec![Point { x: 60.0, y: 20.0 }, Point { x: 20.0, y: 20.0 }]);
    assert_eq!(placed.volumes, vec![1.0, 1.0]);

    let checks = checks_for(&task, &placed.placements);
    assert_eq!(validate(&task, &placed, &checks), Ok(()));

    let terms: Vec<Vec<i64>> = vec![(0..2)
        .map(|k| {
            per_contribution(
                task.attendees[0].tastes[task.musicians[k]],
                placed.placements[k],
                attendee,
            )
        })
        .collect()];
    let score = stagehand::score::calc(&task, &placed, &visibility, &checks, &terms).unwrap();
    assert_eq!(score, 5883 + 2809);
    assert!(score > 0);
    assert_eq!(
        score,
        per_contribution(100.0, Point { x: 60.0, y: 20.0 }, attendee)
            + per_contribution(50.0, Point { x: 20.0, y: 20.0 }, attendee)
    );
}

#[test]
fn greedy_applied_to_its_own_result_changes_nothing() {
    let task = task_of(vec![0, 1], 2);
    let values = vec![vec![5618, 5883], vec![2809, 2942]];
    let first = assign_greedily(&task, &values, 2);
    assert_eq!(first, vec![1, 0]);
    // After the rearrangement musician 0 stands on the old slot 1, so the
    // value matrix has its columns exchanged.
    let again = vec![vec![5883, 5618], vec![2942, 2809]];
    let second = assign_greedily(&task, &again, 2);
    assert_eq!(second, vec![0, 1]);
    let third = assign_greedily(&task, &again, 2);
    assert_eq!(third, second);
}

#[test]
fn greedy_serves_highest_value_first_and_highest_musician_first() {
    // Three musicians of one instrument: the best slot goes to the musician
    // with the highest index.
    let task = task_of(vec![0, 0, 0], 1);
    let values = vec![vec![5, 9, 7]];
    assert_eq!(assign_greedily(&task, &values, 3), vec![0, 2, 1]);
}

#[test]
fn greedy_breaks_value_ties_by_instrument_then_slot() {
    let task = task_of(vec![0, 1], 2);
    let values = vec![vec![4, 4], vec![4, 4]];
    // Served first: instrument 1 on slot 1, then instrument 0 on slot 0.
    assert_eq!(assign_greedily(&task, &values, 2), vec![0, 1]);
}

#[test]
fn greedy_handles_negative_values() {
    let task = task_of(vec![1, 0], 2);
    let values = vec![vec![-5, -1], vec![-2, -9]];
    // Pairs in descending order: (-1, 0, 1), (-2, 1, 0), ...
    assert_eq!(assign_greedily(&task, &values, 2), vec![0, 1]);
}

#[test]
fn greedy_result_is_a_permutation() {
    let task = task_of(vec![2, 0, 1, 0, 2, 1, 1], 3);
    let values = vec![
        vec![3, 1, 4, 1, 5, 9, 2],
        vec![6, 5, 3, 5, 8, 9, 7],
        vec![9, 3, 2, 3, 8, 4, 6],
    ];
    let mut source = assign_greedily(&task, &values, 7);
    assert_eq!(source, vec![4, 1, 3, 2, 0, 6, 5]);
    source.sort();
    assert_eq!(source, vec![0, 1, 2, 3, 4, 5, 6]);
}

#[test]
fn greedy_without_musicians_keeps_slots() {
    let task = task_of(Vec::new(), 1);
    assert_eq!(assign_greedily(&task, &vec![vec![1, 2]], 2), vec![0, 1]);
}

#[test]
fn rearrange_moves_items_by_source() {
    assert_eq!(rearrange(&vec!['a', 'b', 'c'], &vec![2, 0, 1]), vec!['c', 'a', 'b']);
    assert_eq!(rearrange(&Vec::<u8>::new(), &Vec::new()), Vec::<u8>::new());
}

fn rearranged(values: &Vec<Vec<i64>>, source: &Vec<usize>) -> Vec<Vec<i64>> {
    values.iter().map(|row| source.iter().map(|p| row[*p]).collect()).collect()
}

fn worth(musicians: &[usize], values: &Vec<Vec<i64>>, source: &Vec<usize>) -> i64 {
    musicians.iter().enumerate().map(|(m, instrument)| values[*instrument][source[m]]).sum()
}

#[test]
fn without_ties_a_second_greedy_run_moves_nothing() {
    let mut seed: u64 = 99;
    for _ in 0..100 {
        let mut next = |bound: u64| {
            seed = seed.wrapping_mul(6364136223846793005).wrapping_add(1442695040888963407);
            (seed >> 33) % bound
        };
        let instruments = 1 + next(4) as usize;
        let slots = 1 + next(8) as usize;
        let musicians: Vec<usize> = (0..slots).map(|_| next(instruments as u64) as usize).collect();
        let base = next(1000) as i64 - 500;
        // Distinct values: a shuffled run of consecutive numbers.
        let mut pool: Vec<i64> = (0..(instruments * slots) as i64).map(|v| base + 3 * v).collect();
        for i in (1..pool.len()).rev() {
            pool.swap(i, next(i as u64 + 1) as usize);
        }
        let values: Vec<Vec<i64>> = pool.chunks(slots).map(|row| row.to_vec()).collect();
        let task = task_of(musicians.clone(), instruments);

        let first = assign_greedily(&task, &values, slots);
        let again = rearranged(&values, &first);
        let second = assign_greedily(&task, &again, slots);
        assert_eq!(second, (0..slots).collect::<Vec<usize>>());
        let identity: Vec<usize> = (0..slots).collect();
        assert_eq!(worth(&musicians, &again, &second), worth(&musicians, &values, &first));
        assert_eq!(worth(&musicians, &again, &identity), worth(&musicians, &values, &first));
    }
}

#[test]
fn with_ties_repeated_greedy_runs_can_go_back_and_forth() {
    // Instrument 0 earns the same on both slots; instrument 1 prefers slot 1.
    let musicians = [0, 1];
    let task = task_of(musicians.to_vec(), 2);
    let values = vec![vec![5, 5], vec![1, 3]];
    let first = assign_greedily(&task, &values, 2);
    assert_eq!(first, vec![1, 0]);
    assert_eq!(worth(&musicians, &values, &first), 6);

    let after_first = rearranged(&values, &first);
    assert_eq!(after_first, vec![vec![5, 5], vec![3, 1]]);
    let second = assign_greedily(&task, &after_first, 2);
    assert_eq!(second, vec![1, 0]);
    assert_eq!(worth(&musicians, &after_first, &second), 8);

    let after_second = rearranged(&after_first, &second);
    assert_eq!(after_second, values);
    let third = assign_greedily(&task, &after_second, 2);
    assert_eq!(worth(&musicians, &after_second, &third), 6);
}
