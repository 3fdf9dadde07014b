//! The selection rules of the border-relocation move: which musicians are
//! moved, whether the move is worth trying, and which trial wins.

use crate::model::Task;
use vstd::prelude::*;

verus! {

/// A musician only counts as weak if it earns less than this.
pub const WEAK_LIMIT: i64 = 1_000_000_000_000;

/// Among the first `k` slots, `m` is the weakest eligible musician of
/// `instrument`: it earns less than `WEAK_LIMIT`, no eligible musician of
/// the instrument earns less, and none before `m` earns as little.
pub open spec fn is_weakest(
    musicians: Seq<usize>,
    scores: Seq<i64>,
    eligible: Seq<bool>,
    k: int,
    instrument: int,
    m: int,
) -> bool {
    &&& 0 <= m < k
    &&& musicians[m] == instrument
    &&& eligible[m]
    &&& scores[m] < WEAK_LIMIT
    &&& forall|o: int|
        0 <= o < k && #[trigger] musicians[o] == instrument && eligible[o] ==> scores[m]
            <= scores[o] && (o < m ==> scores[m] < scores[o])
}

/// Among the first `k` slots, no eligible musician of `instrument` earns less
/// than `WEAK_LIMIT`.
pub open spec fn none_weak(
    musicians: Seq<usize>,
    scores: Seq<i64>,
    eligible: Seq<bool>,
    k: int,
    instrument: int,
) -> bool {
    forall|o: int|
        0 <= o < k && #[trigger] musicians[o] == instrument && eligible[o] ==> scores[o]
            >= WEAK_LIMIT
}

/// Picks, for every instrument, the eligible musician that earns the least,
/// the first one among equals, and lists these musicians in instrument order.
/// An instrument none of whose eligible musicians earns less than
/// `WEAK_LIMIT` contributes nobody.
pub fn lowest_scoring_by_instrument<T: Copy>(
    task: &Task<T>,
    scores: &Vec<i64>,
    eligible: &Vec<bool>,
) -> (weak: Vec<usize>)
    requires
        task.attendees@.len() > 0,
        task.wf(),
        scores.len() == task.musicians.len(),
        eligible.len() == task.musicians.len(),
    ensures
        forall|a: int, b: int|
            0 <= a < b < weak.len() ==> task.musicians@[weak[a] as int]
                < task.musicians@[weak[b] as int],
        forall|a: int|
            0 <= a < weak.len() ==> is_weakest(
                task.musicians@,
                scores@,
                eligible@,
                task.musicians.len() as int,
                task.musicians@[weak[a] as int] as int,
                #[trigger] weak[a] as int,
            ),
        forall|m: int|
            0 <= m < task.musicians.len() && is_weakest(
                task.musicians@,
                scores@,
                eligible@,
                task.musicians.len() as int,
                task.musicians@[m] as int,
                m,
            ) ==> weak@.contains(m as usize),
{
    let n = task.instruments_len();
    let total = task.musicians.len();
    let mut lowest: Vec<Option<(i64, usize)>> = Vec::new();
    let mut i: usize = 0;
    while i < n
        invariant
            i <= n,
            lowest.len() == i,
            forall|j: int| 0 <= j < i ==> lowest[j] is None,
        decreases n - i,
    {
        lowest.push(None);
        i += 1;
    }
    let mut k: usize = 0;
    while k < total
        invariant
            k <= total,
            total == task.musicians.len(),
            scores.len() == total,
            eligible.len() == total,
            lowest.len() == n,
            n == task.instruments(),
            task.attendees@.len() > 0,
            task.wf(),
            forall|j: int|
                0 <= j < n ==> match #[trigger] lowest[j] {
                    None => none_weak(task.musicians@, scores@, eligible@, k as int, j),
                    Some((s, m)) => s == scores@[m as int] && is_weakest(
                        task.musicians@,
                        scores@,
                        eligible@,
                        k as int,
                        j,
                        m as int,
                    ),
                },
        decreases total - k,
    {
        let instrument = task.musicians[k];
        assert(task.musicians@[k as int] < task.attendees@[0].tastes@.len());
        let ghost before = lowest@;
        if eligible[k] {
            let cur = scores[k];
            let floor = match lowest[instrument] {
                Some((s, _)) => s,
                None => WEAK_LIMIT,
            };
            if cur < floor {
                lowest[instrument] = Some((cur, k));
            }
        }
        proof {
            assert forall|j: int| 0 <= j < n implies match #[trigger] lowest[j] {
                None => none_weak(task.musicians@, scores@, eligible@, k + 1, j),
                Some((s, m)) => s == scores@[m as int] && is_weakest(
                    task.musicians@,
                    scores@,
                    eligible@,
                    k + 1,
                    j,
                    m as int,
                ),
            } by {
                match before[j] {
                    None => {
                        assert(none_weak(task.musicians@, scores@, eligible@, k as int, j));
                    },
                    Some((s, m)) => {
                        assert(is_weakest(
                            task.musicians@,
                            scores@,
                            eligible@,
                            k as int,
                            j,
                            m as int,
                        ));
                    },
                }
            }
        }
        k += 1;
    }
    let mut weak: Vec<usize> = Vec::new();
    let mut j: usize = 0;
    while j < n
        invariant
            j <= n,
            lowest.len() == n,
            total == task.musicians.len(),
            forall|i: int|
                0 <= i < n ==> match #[trigger] lowest[i] {
                    None => none_weak(task.musicians@, scores@, eligible@, total as int, i),
                    Some((s, m)) => s == scores@[m as int] && is_weakest(
                        task.musicians@,
                        scores@,
                        eligible@,
                        total as int,
                        i,
                        m as int,
                    ),
                },
            forall|a: int| 0 <= a < weak.len() ==> (#[trigger] weak[a]) < total
                && task.musicians@[weak[a] as int] < j,
            forall|a: int, b: int|
                0 <= a < b < weak.len() ==> task.musicians@[weak[a] as int]
                    < task.musicians@[weak[b] as int],
            forall|a: int|
                0 <= a < weak.len() ==> is_weakest(
                    task.musicians@,
                    scores@,
                    eligible@,
                    total as int,
                    task.musicians@[weak[a] as int] as int,
                    #[trigger] weak[a] as int,
                ),
            forall|m: int|
                0 <= m < total && task.musicians@[m] < j && is_weakest(
                    task.musicians@,
                    scores@,
                    eligible@,
                    total as int,
                    task.musicians@[m] as int,
                    m,
                ) ==> weak@.contains(m as usize),
        decreases n - j,
    {
        let ghost before = weak@;
        match lowest[j] {
            Some((_, m)) => {
                weak.push(m);
                proof {
                    assert(is_weakest(
                        task.musicians@,
                        scores@,
                        eligible@,
                        total as int,
                        j as int,
                        m as int,
                    ));
                    assert forall|o: int|
                        0 <= o < total && task.musicians@[o] < j + 1 && is_weakest(
                            task.musicians@,
                            scores@,
                            eligible@,
                            total as int,
                            task.musicians@[o] as int,
                            o,
                        ) implies weak@.contains(o as usize) by {
                        if task.musicians@[o] < j {
                            assert(before.contains(o as usize));
                            let q = choose|q: int| 0 <= q < before.len() && before[q] == o as usize;
                            assert(weak@[q] == o as usize);
                        } else {
                            assert(o == m);
                            assert(weak@[before.len() as int] == m);
                        }
                    }
                }
            },
            None => {
                proof {
                    assert(none_weak(task.musicians@, scores@, eligible@, total as int, j as int));
                }
            },
        }
        j += 1;
    }
    proof {
        assert forall|m: int|
            0 <= m < total && is_weakest(
                task.musicians@,
                scores@,
                eligible@,
                total as int,
                task.musicians@[m] as int,
                m,
            ) implies weak@.contains(m as usize) by {
            assert(task.musicians@[m] < task.attendees@[0].tastes@.len());
        }
    }
    weak
}

/// A move found no point to try. The move then hands its input back
/// unchanged.
#[derive(Clone, Copy, Debug, PartialEq, Eq, Structural)]
pub struct NoFeasibleCandidate;

/// Whether border relocation has too little to work with: no candidate
/// point at all, or fewer than ten candidate points for more than thirty
/// musicians to move.
pub open spec fn too_few_points(points: usize, movers: usize) -> bool {
    points == 0 || (points < 10 && movers > 30)
}

/// Decides whether border relocation is tried at all.
pub fn border_search_feasible(points: usize, movers: usize) -> (r: Result<(), NoFeasibleCandidate>)
    ensures
        r is Err <==> too_few_points(points, movers),
{
    if points == 0 || (points < 10 && movers > 30) {
        Err(NoFeasibleCandidate)
    } else {
        Ok(())
    }
}

/// Trial `(a, b)` comes before trial `(c, d)` in row-major order.
pub open spec fn earlier(a: int, b: int, c: int, d: int) -> bool {
    a < c || (a == c && b < d)
}

/// Chooses the relocation to keep. `trials[a][b]` is the score after moving
/// the `a`-th mover to the `b`-th point. The winner earns strictly more than
/// `baseline`, at least as much as every trial and strictly more than every
/// earlier trial; there is none if no trial beats `baseline`.
pub fn best_relocation(baseline: i64, trials: &Vec<Vec<i64>>) -> (best: Option<(usize, usize)>)
    ensures
        match best {
            None => forall|c: int, d: int|
                0 <= c < trials.len() && 0 <= d < trials[c].len() ==> #[trigger] trials[c][d]
                    <= baseline,
            Some((a, b)) => {
                &&& a < trials.len()
                &&& b < trials[a as int].len()
                &&& trials[a as int][b as int] > baseline
                &&& forall|c: int, d: int|
                    0 <= c < trials.len() && 0 <= d < trials[c].len() ==> #[trigger] trials[c][d]
                        <= trials[a as int][b as int]
                &&& forall|c: int, d: int|
                    0 <= c < trials.len() && 0 <= d < trials[c].len() && earlier(
                        c,
                        d,
                        a as int,
                        b as int,
                    ) ==> #[trigger] trials[c][d] < trials[a as int][b as int]
            },
        },
{
    let mut best: Option<(usize, usize)> = None;
    let mut top: i64 = baseline;
    let mut a: usize = 0;
    while a < trials.len()
        invariant
            a <= trials.len(),
            top >= baseline,
            forall|c: int, d: int|
                0 <= c < a && 0 <= d < trials[c].len() ==> #[trigger] trials[c][d] <= top,
            match best {
                None => top == baseline,
                Some((x, y)) => {
                    &&& x < a
                    &&& y < trials[x as int].len()
                    &&& trials[x as int][y as int] == top
                    &&& top > baseline
                    &&& forall|c: int, d: int|
                        0 <= c < trials.len() && 0 <= d < trials[c].len() && earlier(
                            c,
                            d,
                            x as int,
                            y as int,
                        ) ==> #[trigger] trials[c][d] < top
                },
            },
        decreases trials.len() - a,
    {
        let mut b: usize = 0;
        while b < trials[a].len()
            invariant
                a < trials.len(),
                b <= trials[a as int].len(),
                top >= baseline,
                forall|c: int, d: int|
                    0 <= c < a && 0 <= d < trials[c].len() ==> #[trigger] trials[c][d] <= top,
                forall|d: int| 0 <= d < b ==> #[trigger] trials[a as int][d] <= top,
                match best {
                    None => top == baseline,
                    Some((x, y)) => {
                        &&& (x < a || (x == a && y < b))
                        &&& y < trials[x as int].len()
                        &&& trials[x as int][y as int] == top
                        &&& top > baseline
                        &&& forall|c: int, d: int|
                            0 <= c < trials.len() && 0 <= d < trials[c].len() && earlier(
                                c,
                                d,
                                x as int,
                                y as int,
                            ) ==> #[trigger] trials[c][d] < top
                    },
                },
            decreases trials[a as int].len() - b,
        {
            let cur = trials[a][b];
            if cur > top {
                top = cur;
                best = Some((a, b));
            }
            b += 1;
        }
        a += 1;
    }
    best
}

} // verus!
