use std::collections::{BTreeMap, BinaryHeap};

use stagehand::greedy::assign_greedily;
use stagehand::model::{Attendee, Point, Task};
use stagehand::sweep::{sweep, Obstacle, Viewer};

struct Lcg(u64);

impl Lcg {
    fn next(&mut self, bound: u64) -> u64 {
        self.0 = self.0.wrapping_mul(6364136223846793005).wrapping_add(1442695040888963407);
        (self.0 >> 33) % bound
    }
}

/// The greedy rule with a priority queue: the most valuable pair is taken
/// out first.
fn greedy_with_queue(musicians: &[usize], values: &[Vec<i64>], slots: usize) -> Vec<usize> {
    let mut moves = BinaryHeap::new();
    for (instrument, row) in values.iter().enumerate() {
        for (pos_index, value) in row.iter().enumerate() {
            moves.push((*value, instrument, pos_index));
        }
    }
    let mut free: Vec<Vec<usize>> = vec![Vec::new(); values.len()];
    for (index, instrument) in musicians.iter().enumerate() {
        free[*instrument].push(index);
    }
    let mut picked = vec![false; slots];
    let mut source: Vec<usize> = (0..slots).collect();
    while let Some((_, instrument, pos_index)) = moves.pop() {
        if picked[pos_index] || free[instrument].is_empty() {
            continue;
        }
        let musician = free[instrument].pop().unwrap();
        source[musician] = pos_index;
        picked[pos_index] = true;
    }
    source
}

#[test]
fn greedy_matches_the_priority_queue() {
    let mut rng = Lcg(2023);
    for round in 0..200 {
        let instruments = 1 + rng.next(5) as usize;
        let slots = rng.next(12) as usize;
        let musicians: Vec<usize> =
            (0..slots).map(|_| rng.next(instruments as u64) as usize).collect();
        // A small range of values makes ties frequent.
        let values: Vec<Vec<i64>> = (0..instruments)
            .map(|_| (0..slots).map(|_| rng.next(7) as i64 - 3).collect())
            .collect();
        let task = Task {
            room_width: 0,
            room_height: 0,
            stage_width: 0,
            stage_height: 0,
            stage_bottom_left: Point { x: 0, y: 0 },
            musicians: musicians.clone(),
            attendees: vec![Attendee { x: 0, y: 0, tastes: vec![0; instruments] }],
            pillars: Vec::new(),
        };
        let source = assign_greedily(&task, &values, slots);
        assert_eq!(source, greedy_with_queue(&musicians, &values, slots), "round {round}");
        let mut sorted = source.clone();
        sorted.sort();
        assert_eq!(sorted, (0..slots).collect::<Vec<usize>>());
    }
}

/// The sweep with an ordered map from distance to the number of open
/// obstacles at that distance.
fn sweep_with_map(obstacles: &[Obstacle], viewers: &[Viewer]) -> Vec<bool> {
    let mut open: BTreeMap<i64, usize> = BTreeMap::new();
    let mut events: Vec<(i64, bool, i64)> = Vec::new();
    for o in obstacles {
        if o.exit < o.enter {
            *open.entry(o.dist).or_insert(0) += 1;
        }
        events.push((o.enter, true, o.dist));
        events.push((o.exit, false, o.dist));
    }
    events.sort_by(|a, b| a.0.cmp(&b.0));
    let mut order: Vec<usize> = (0..viewers.len()).collect();
    order.sort_by(|a, b| viewers[*a].angle.cmp(&viewers[*b].angle));
    let mut seen = vec![true; viewers.len()];
    let mut next = 0;
    for i in order {
        while next < events.len() && events[next].0 <= viewers[i].angle {
            let (_, enter, dist) = events[next];
            if enter {
                *open.entry(dist).or_insert(0) += 1;
            } else {
                let count = open.get_mut(&dist).unwrap();
                *count -= 1;
                if *count == 0 {
                    open.remove(&dist);
                }
            }
            next += 1;
        }
        seen[i] = open.range(..=viewers[i].dist).next().is_none();
    }
    seen
}

fn blocked(obstacles: &[Obstacle], v: &Viewer) -> bool {
    obstacles.iter().any(|o| {
        let covers = if o.enter <= o.exit {
            o.enter <= v.angle && v.angle < o.exit
        } else {
            v.angle < o.exit || o.enter <= v.angle
        };
        covers && o.dist <= v.dist
    })
}

#[test]
fn sweep_matches_the_ordered_map_and_the_definition() {
    let mut rng = Lcg(7);
    let mut hidden = 0;
    let mut visible = 0;
    for round in 0..300 {
        // Small ranges make equal angles and equal distances frequent.
        let span = 4 + rng.next(20) as i64;
        let obstacles: Vec<Obstacle> = (0..rng.next(10))
            .map(|_| Obstacle {
                enter: rng.next(span as u64) as i64 - span / 2,
                exit: rng.next(span as u64) as i64 - span / 2,
                dist: rng.next(6) as i64,
            })
            .collect();
        let viewers: Vec<Viewer> = (0..rng.next(15))
            .map(|_| Viewer {
                angle: rng.next(span as u64 + 2) as i64 - span / 2 - 1,
                dist: rng.next(6) as i64,
            })
            .collect();
        let seen = sweep(&obstacles, &viewers);
        assert_eq!(seen, sweep_with_map(&obstacles, &viewers), "round {round}");
        for (i, v) in viewers.iter().enumerate() {
            assert_eq!(seen[i], !blocked(&obstacles, v), "round {round}, viewer {i}");
            if seen[i] {
                visible += 1;
            } else {
                hidden += 1;
            }
        }
    }
    assert!(hidden > 200);
    assert!(visible > 200);
}

#[test]
fn sweep_handles_extreme_keys() {
    let obstacles = vec![
        Obstacle { enter: i64::MIN, exit: i64::MAX, dist: i64::MIN },
        Obstacle { enter: i64::MAX, exit: i64::MIN, dist: 0 },
    ];
    let viewers = vec![
        Viewer { angle: i64::MIN, dist: i64::MIN },
        Viewer { angle: i64::MAX, dist: i64::MIN },
        Viewer { angle: i64::MAX, dist: 0 },
        Viewer { angle: 0, dist: i64::MAX },
    ];
    assert_eq!(sweep(&obstacles, &viewers), vec![false, true, false, false]);
}
