use stagehand::sweep::{sweep, Obstacle, Viewer};
use stagehand::visibility::Visibility;

const BLOCK_RADIUS: f64 = 5.0;

/// An order-preserving integer image of a real number.
fn key(x: f64) -> i64 {
    let bits = (x + 0.0).to_bits() as i64;
    if bits < 0 {
        bits ^ i64::MAX
    } else {
        bits
    }
}

fn dist(a: (f64, f64), b: (f64, f64)) -> f64 {
    ((a.0 - b.0) * (a.0 - b.0) + (a.1 - b.1) * (a.1 - b.1)).sqrt()
}

fn segment_dist(from: (f64, f64), to: (f64, f64), p: (f64, f64)) -> f64 {
    let v = (to.0 - from.0, to.1 - from.1);
    let w0 = (from.0 - p.0, from.1 - p.1);
    let w1 = (to.0 - p.0, to.1 - p.1);
    if w0.0 * v.0 + w0.1 * v.1 >= 0.0 {
        dist(p, from)
    } else if w1.0 * v.0 + w1.1 * v.1 <= 0.0 {
        dist(p, to)
    } else {
        (((to.0 - from.0) * (p.1 - from.1) - (to.1 - from.1) * (p.0 - from.0)) / dist(to, from))
            .abs()
    }
}

struct Lcg(u64);

impl Lcg {
    fn next(&mut self) -> f64 {
        self.0 = self.0.wrapping_mul(6364136223846793005).wrapping_add(1442695040888963407);
        ((self.0 >> 11) as f64) / ((1u64 << 53) as f64)
    }
}

struct Instance {
    musicians: Vec<(f64, f64)>,
    attendees: Vec<(f64, f64)>,
    pillars: Vec<((f64, f64), f64)>,
}

fn instance(seed: u64, with_pillars: bool) -> Instance {
    let mut rng = Lcg(seed);
    let mut musicians = Vec::new();
    for gx in 0..6 {
        for gy in 0..3 {
            if rng.next() < 0.6 {
                let x = 25.0 + 30.0 * gx as f64 + 10.0 * rng.next() - 5.0;
                let y = 20.0 + 30.0 * gy as f64 + 10.0 * rng.next() - 5.0;
                musicians.push((x, y));
            }
        }
    }
    let center = (100.0, 50.0);
    let mut attendees = Vec::new();
    for _ in 0..20 {
        let angle = std::f64::consts::TAU * rng.next();
        let radius = 200.0 + 100.0 * rng.next();
        attendees.push((center.0 + radius * angle.cos(), center.1 + radius * angle.sin()));
    }
    let mut pillars = Vec::new();
    if with_pillars {
        for _ in 0..4 {
            let angle = std::f64::consts::TAU * rng.next();
            let radius = 140.0 + 20.0 * rng.next();
            let p = (center.0 + radius * angle.cos(), center.1 + radius * angle.sin());
            pillars.push((p, 3.0 + 5.0 * rng.next()));
        }
    }
    Instance { musicians, attendees, pillars }
}

fn obstacles_around(inst: &Instance, k: usize) -> Vec<((f64, f64), f64)> {
    let mut out = Vec::new();
    for (j, m) in inst.musicians.iter().enumerate() {
        if j != k {
            out.push((*m, BLOCK_RADIUS));
        }
    }
    out.extend(inst.pillars.iter().copied());
    out
}

fn exact(inst: &Instance) -> (Vec<Vec<bool>>, Vec<Vec<bool>>) {
    let mut visible = Vec::new();
    let mut tangent = Vec::new();
    for a in &inst.attendees {
        let mut row = Vec::new();
        let mut flags = Vec::new();
        for (k, m) in inst.musicians.iter().enumerate() {
            let mut clear = true;
            let mut close_call = false;
            for (p, r) in obstacles_around(inst, k) {
                let d = segment_dist(*a, *m, p);
                clear = clear && d >= r;
                close_call = close_call || (d - r).abs() < 1e-7;
            }
            row.push(clear);
            flags.push(close_call);
        }
        visible.push(row);
        tangent.push(flags);
    }
    (visible, tangent)
}

fn fast(inst: &Instance) -> Visibility {
    let pi = std::f64::consts::PI;
    let tau = std::f64::consts::TAU;
    let mut columns = Vec::new();
    for (k, origin) in inst.musicians.iter().enumerate() {
        let obstacles: Vec<Obstacle> = obstacles_around(inst, k)
            .iter()
            .map(|(p, r)| {
                let v = (p.0 - origin.0, p.1 - origin.1);
                let d = (v.0 * v.0 + v.1 * v.1).sqrt();
                let alpha = (r / d).asin();
                let theta = v.1.atan2(v.0);
                let mut a1 = theta - alpha;
                if a1 < -pi {
                    a1 += tau;
                }
                let mut a2 = theta + alpha;
                if a2 > pi {
                    a2 -= tau;
                }
                Obstacle { enter: key(a1), exit: key(a2), dist: key(d) }
            })
            .collect();
        let viewers: Vec<Viewer> = inst
            .attendees
            .iter()
            .map(|a| {
                let v = (a.0 - origin.0, a.1 - origin.1);
                Viewer { angle: key(v.1.atan2(v.0)), dist: key((v.0 * v.0 + v.1 * v.1).sqrt()) }
            })
            .collect();
        columns.push(sweep(&obstacles, &viewers));
    }
    Visibility::from_columns(&columns, inst.attendees.len())
}

fn agree_on(seed: u64, with_pillars: bool) -> (usize, usize) {
    let inst = instance(seed, with_pillars);
    let (reference, tangent) = exact(&inst);
    let swept = fast(&inst);
    let mut hidden = 0;
    let mut seen = 0;
    for a in 0..inst.attendees.len() {
        for k in 0..inst.musicians.len() {
            if tangent[a][k] {
                continue;
            }
            assert_eq!(
                swept.is_visible(a, k),
                reference[a][k],
                "seed {seed}, attendee {a}, musician {k}"
            );
            if reference[a][k] {
                seen += 1;
            } else {
                hidden += 1;
            }
        }
    }
    (seen, hidden)
}

#[test]
fn key_preserves_order() {
    let values = [
        f64::NEG_INFINITY,
        -1e300,
        -3.5,
        -1e-300,
        0.0,
        1e-300,
        2.25,
        std::f64::consts::PI,
        1e300,
        f64::INFINITY,
    ];
    for w in values.windows(2) {
        assert!(key(w[0]) < key(w[1]));
    }
    assert_eq!(key(-0.0), key(0.0));
}

#[test]
fn sweep_agrees_with_segment_test_without_pillars() {
    let mut seen = 0;
    let mut hidden = 0;
    for seed in 1..40 {
        let (s, h) = agree_on(seed, false);
        seen += s;
        hidden += h;
    }
    assert!(seen > 100);
    assert!(hidden > 100);
}

#[test]
fn sweep_agrees_with_segment_test_with_pillars() {
    let mut seen = 0;
    let mut hidden = 0;
    for seed in 100..140 {
        let (s, h) = agree_on(seed, true);
        seen += s;
        hidden += h;
    }
    assert!(seen > 100);
    assert!(hidden > 100);
}

#[test]
fn a_musician_in_line_hides_the_one_behind() {
    // Three musicians in a row and an attendee on the same line: only the
    // nearest musician is heard.
    let inst = Instance {
        musicians: vec![(20.0, 50.0), (40.0, 50.0), (60.0, 50.0)],
        attendees: vec![(200.0, 50.0), (40.0, 300.0)],
        pillars: Vec::new(),
    };
    let swept = fast(&inst);
    assert_eq!(swept.visibility, vec![vec![false, false, true], vec![true, true, true]]);
    assert_eq!(exact(&inst).0, swept.visibility);
}
