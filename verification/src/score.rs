//! Validation of a placement and aggregation of the score.
//!
//! The geometric facts about a placement (is it inside the stage, is another
//! musician too close) and the rounded score terms arrive as plain values;
//! this module decides which violation is reported and adds the terms up.

use crate::model::{Solution, Task, UNSCORABLE};
use crate::visibility::Visibility;
use vstd::prelude::*;

verus! {

/// Why a solution cannot be scored.
#[derive(Clone, Copy, Debug, PartialEq, Eq, Structural)]
pub enum ConstraintViolation {
    /// The solution places `got` musicians where the task has `expected`.
    StructuralMismatch { expected: usize, got: usize },
    /// The musician stands outside the stage or too close to its border.
    OutOfBounds { musician: usize },
    /// The musician's nearest neighbour `other` stands closer than the
    /// minimum separation.
    Overlap { musician: usize, other: usize },
}

/// The geometric facts about one placement that validation depends on.
#[derive(Clone, Copy, Debug)]
pub struct PlacementCheck {
    /// The placement keeps the musician radius away from every stage border.
    pub in_stage: bool,
    /// The nearest other placement, if it is closer than twice the musician
    /// radius.
    pub crowded_by: Option<usize>,
}

/// The part of the stage in which a musician may stand: the stage rectangle
/// inset by the musician radius on every side. The borders are given by
/// order-preserving keys of their coordinates.
#[derive(Clone, Copy, Debug, PartialEq, Eq, Structural)]
pub struct Bounds {
    pub left: i64,
    pub right: i64,
    pub bottom: i64,
    pub top: i64,
}

impl Bounds {
    /// Whether the position with the coordinate keys `x` and `y` lies
    /// inside, borders included.
    pub open spec fn contains(&self, x: i64, y: i64) -> bool {
        self.left <= x <= self.right && self.bottom <= y <= self.top
    }

    /// Whether a musician may stand at the position with the coordinate keys
    /// `x` and `y`.
    pub fn musician_in_stage(&self, x: i64, y: i64) -> (inside: bool)
        ensures
            inside == self.contains(x, y),
    {
        x >= self.left && x <= self.right && y >= self.bottom && y <= self.top
    }
}

/// Pulls a coordinate into a range. Every argument is a value together
/// with its key; the result is the lower end if the value lies below the
/// range, the upper end if it lies above, and the value itself otherwise.
pub fn clamp_to<T: Copy>(value: (T, i64), low: (T, i64), high: (T, i64)) -> (r: (T, i64))
    requires
        low.1 <= high.1,
    ensures
        r == (if value.1 < low.1 {
            low
        } else if value.1 > high.1 {
            high
        } else {
            value
        }),
        low.1 <= r.1 <= high.1,
{
    if value.1 < low.1 {
        low
    } else if value.1 > high.1 {
        high
    } else {
        value
    }
}

/// Among the placements other than `musician`, `j` is the nearest, and the
/// first one of those that are equally near.
pub open spec fn is_nearest(distances: Seq<i64>, musician: int, j: int) -> bool {
    &&& 0 <= j < distances.len()
    &&& j != musician
    &&& forall|o: int|
        0 <= o < distances.len() && o != musician ==> distances[j] <= #[trigger] distances[o] && (o
            < j ==> distances[j] < distances[o])
}

/// Some other placement is nearer to `musician` than `limit`.
pub open spec fn has_close_neighbour(distances: Seq<i64>, musician: int, limit: i64) -> bool {
    exists|o: int| 0 <= o < distances.len() && o != musician && #[trigger] distances[o] < limit
}

/// Collects the geometric facts about the placement of `musician`.
///
/// `x` and `y` are keys of its coordinates, `distances[j]` is a key of its
/// distance to placement `j` and `limit` the key of the minimum separation;
/// the entry for `musician` itself is ignored. The placement is crowded
/// exactly if some other placement is nearer than `limit`, and then by the
/// nearest of them.
pub fn placement_check(
    inset: &Bounds,
    x: i64,
    y: i64,
    musician: usize,
    distances: &Vec<i64>,
    limit: i64,
) -> (c: PlacementCheck)
    ensures
        c.in_stage == inset.contains(x, y),
        c.crowded_by is Some <==> has_close_neighbour(distances@, musician as int, limit),
        c.crowded_by matches Some(j) ==> is_nearest(distances@, musician as int, j as int)
            && distances[j as int] < limit,
{
    let mut nearest: Option<usize> = None;
    let mut j: usize = 0;
    while j < distances.len()
        invariant
            j <= distances.len(),
            match nearest {
                None => j == 0 || (j == 1 && musician == 0),
                Some(n) => is_nearest(distances@.take(j as int), musician as int, n as int),
            },
        decreases distances.len() - j,
    {
        let ghost done = distances@.take(j as int);
        let ghost next = distances@.take(j + 1);
        if j != musician {
            let better = match nearest {
                None => true,
                Some(n) => distances[j] < distances[n],
            };
            if better {
                nearest = Some(j);
            }
        }
        proof {
            match nearest {
                None => {},
                Some(n) => {
                    assert forall|o: int| 0 <= o < next.len() && o != musician implies next[n as int]
                        <= #[trigger] next[o] && (o < n ==> next[n as int] < next[o]) by {
                        if o < j {
                            assert(done[o] == next[o]);
                        }
                    }
                },
            }
        }
        j += 1;
    }
    proof {
        assert(distances@.take(j as int) =~= distances@);
    }
    let crowded_by = match nearest {
        None => None,
        Some(n) => if distances[n] < limit {
            Some(n)
        } else {
            None
        },
    };
    proof {
        if has_close_neighbour(distances@, musician as int, limit) {
            let o = choose|o: int|
                0 <= o < distances@.len() && o != musician && #[trigger] distances@[o] < limit;
            assert(nearest is Some);
        }
    }
    PlacementCheck { in_stage: inset.musician_in_stage(x, y), crowded_by }
}

/// Decides whether the musician on slot `pos_index` may stand at a new
/// position: no other placement may be nearer to it than `limit`.
///
/// `distances[j]` is a key of the distance between the new position and
/// placement `j`; the entry for `pos_index` itself is ignored.
pub fn is_position_possible(distances: &Vec<i64>, pos_index: usize, limit: i64) -> (possible: bool)
    ensures
        possible == !has_close_neighbour(distances@, pos_index as int, limit),
{
    let mut j: usize = 0;
    while j < distances.len()
        invariant
            j <= distances.len(),
            forall|o: int| 0 <= o < j && o != pos_index ==> #[trigger] distances[o] >= limit,
        decreases distances.len() - j,
    {
        if j != pos_index && distances[j] < limit {
            return false;
        }
        j += 1;
    }
    true
}

/// The placement breaks no rule.
pub open spec fn acceptable(c: PlacementCheck) -> bool {
    c.in_stage && c.crowded_by is None
}

/// The violation that an unacceptable placement of `musician` stands for.
/// Leaving the stage takes precedence over crowding.
pub open spec fn violation_of(musician: usize, c: PlacementCheck) -> ConstraintViolation {
    if !c.in_stage {
        ConstraintViolation::OutOfBounds { musician }
    } else {
        ConstraintViolation::Overlap { musician, other: c.crowded_by.unwrap() }
    }
}

/// Index of the first unacceptable placement at or after `from`, or the
/// length if there is none.
pub open spec fn first_rejected(checks: Seq<PlacementCheck>, from: int) -> int
    decreases checks.len() - from,
{
    if from >= checks.len() {
        checks.len() as int
    } else if !acceptable(checks[from]) {
        from
    } else {
        first_rejected(checks, from + 1)
    }
}

/// The outcome of validation: a wrong number of placements is reported
/// first, then the violation of the first musician that has one.
pub open spec fn validation(expected: usize, checks: Seq<PlacementCheck>) -> Result<
    (),
    ConstraintViolation,
> {
    if checks.len() != expected {
        Err(ConstraintViolation::StructuralMismatch { expected, got: checks.len() as usize })
    } else if first_rejected(checks, 0) == checks.len() {
        Ok(())
    } else {
        let i = first_rejected(checks, 0);
        Err(violation_of(i as usize, checks[i]))
    }
}

/// `first_rejected` is the least unacceptable index.
pub proof fn lemma_first_rejected(checks: Seq<PlacementCheck>, from: int)
    requires
        0 <= from <= checks.len(),
    ensures
        from <= first_rejected(checks, from) <= checks.len(),
        forall|k: int| from <= k < first_rejected(checks, from) ==> acceptable(checks[k]),
        first_rejected(checks, from) < checks.len() ==> !acceptable(
            checks[first_rejected(checks, from)],
        ),
    decreases checks.len() - from,
{
    if from < checks.len() && acceptable(checks[from]) {
        lemma_first_rejected(checks, from + 1);
    }
}

/// A solution passes validation exactly when it has the expected number of
/// placements and each of them is acceptable.
pub proof fn lemma_validation_accepts(expected: usize, checks: Seq<PlacementCheck>)
    ensures
        validation(expected, checks) is Ok <==> (checks.len() == expected && forall|i: int|
            0 <= i < checks.len() ==> acceptable(#[trigger] checks[i])),
{
    lemma_first_rejected(checks, 0);
}

/// A solution in which some musician is crowded by another is rejected.
pub proof fn lemma_overlap_is_rejected(expected: usize, checks: Seq<PlacementCheck>, i: int)
    requires
        0 <= i < checks.len(),
        checks[i].crowded_by is Some,
    ensures
        validation(expected, checks) is Err,
{
    lemma_validation_accepts(expected, checks);
}

/// A solution in which some musician leaves the stage interior is rejected.
pub proof fn lemma_out_of_bounds_is_rejected(expected: usize, checks: Seq<PlacementCheck>, i: int)
    requires
        0 <= i < checks.len(),
        !checks[i].in_stage,
    ensures
        validation(expected, checks) is Err,
{
    lemma_validation_accepts(expected, checks);
}

/// A solution in which two placements are closer than the minimum
/// separation is rejected, whichever of the two is looked at.
pub proof fn lemma_close_pair_is_rejected(
    expected: usize,
    checks: Seq<PlacementCheck>,
    i: int,
    distances: Seq<i64>,
    limit: i64,
)
    requires
        0 <= i < checks.len(),
        checks[i].crowded_by is Some <==> has_close_neighbour(distances, i, limit),
        has_close_neighbour(distances, i, limit),
    ensures
        validation(expected, checks) is Err,
{
    lemma_overlap_is_rejected(expected, checks, i);
}

/// A solution with a placement outside the inset stage rectangle is
/// rejected.
pub proof fn lemma_outside_is_rejected(
    expected: usize,
    checks: Seq<PlacementCheck>,
    i: int,
    inset: Bounds,
    x: i64,
    y: i64,
)
    requires
        0 <= i < checks.len(),
        checks[i].in_stage == inset.contains(x, y),
        !inset.contains(x, y),
    ensures
        validation(expected, checks) is Err,
{
    lemma_out_of_bounds_is_rejected(expected, checks, i);
}

/// Checks a solution against the task: the number of placements, then each
/// placement in slot order. `checks[i]` holds the geometric facts about
/// placement `i`.
pub fn validate<T: Copy>(task: &Task<T>, solution: &Solution<T>, checks: &Vec<PlacementCheck>) -> (r:
    Result<(), ConstraintViolation>)
    requires
        checks.len() == solution.placements.len(),
    ensures
        r == validation(task.musicians.len(), checks@),
{
    let expected = task.musicians.len();
    let got = solution.placements.len();
    if got != expected {
        return Err(ConstraintViolation::StructuralMismatch { expected, got });
    }
    let mut i: usize = 0;
    while i < checks.len()
        invariant
            i <= checks.len(),
            checks.len() == task.musicians.len(),
            first_rejected(checks@, 0) == first_rejected(checks@, i as int),
        decreases checks.len() - i,
    {
        let c = checks[i];
        assert(!acceptable(c) ==> first_rejected(checks@, i as int) == i);
        if !c.in_stage {
            return Err(ConstraintViolation::OutOfBounds { musician: i });
        }
        match c.crowded_by {
            Some(other) => {
                return Err(ConstraintViolation::Overlap { musician: i, other });
            },
            None => {},
        }
        i += 1;
    }
    Ok(())
}

/// The value that stands for `v`, or `UNSCORABLE` for a solution that was
/// rejected.
pub fn score_or_sentinel(v: Result<i64, ConstraintViolation>) -> (s: i64)
    ensures
        s == match v {
            Ok(points) => points,
            Err(_) => UNSCORABLE,
        },
{
    match v {
        Ok(points) => points,
        Err(_) => UNSCORABLE,
    }
}

/// Whether `x` is a value of `i64`.
pub open spec fn fits(x: int) -> bool {
    i64::MIN <= x <= i64::MAX
}

/// What one attendee gets from the first `terms.len()` slots: the sum of the
/// terms of the slots that the attendee hears.
pub open spec fn heard_sum(terms: Seq<i64>, heard: Seq<bool>) -> int
    decreases terms.len(),
{
    if terms.len() == 0 {
        0
    } else {
        heard_sum(terms.drop_last(), heard) + (if heard[terms.len() - 1] {
            terms.last() as int
        } else {
            0
        })
    }
}

/// The sum over the first `terms.len()` attendees of what each of them gets.
pub open spec fn total_sum(terms: Seq<Seq<i64>>, vis: Seq<Seq<bool>>) -> int
    decreases terms.len(),
{
    if terms.len() == 0 {
        0
    } else {
        total_sum(terms.drop_last(), vis) + heard_sum(terms.last(), vis[terms.len() - 1])
    }
}

/// What slot `k` earns from the first `terms.len()` attendees.
pub open spec fn slot_sum(terms: Seq<Seq<i64>>, vis: Seq<Seq<bool>>, k: int) -> int
    decreases terms.len(),
{
    if terms.len() == 0 {
        0
    } else {
        slot_sum(terms.drop_last(), vis, k) + (if vis[terms.len() - 1][k] {
            terms.last()[k] as int
        } else {
            0
        })
    }
}

/// What the first `m` slots earn together.
pub open spec fn slots_total(terms: Seq<Seq<i64>>, vis: Seq<Seq<bool>>, m: int) -> int
    decreases m,
{
    if m <= 0 {
        0
    } else {
        slots_total(terms, vis, m - 1) + slot_sum(terms, vis, m - 1)
    }
}

/// The term matrix and the visibility matrix both have one row per attendee
/// and `musicians` entries per row.
pub open spec fn same_shape(terms: Seq<Seq<i64>>, vis: Seq<Seq<bool>>, musicians: nat) -> bool {
    &&& terms.len() == vis.len()
    &&& forall|a: int| 0 <= a < terms.len() ==> (#[trigger] terms[a]).len() == musicians
    &&& forall|a: int| 0 <= a < vis.len() ==> (#[trigger] vis[a]).len() == musicians
}

/// Each attendee's share and the total are values of `i64`.
pub open spec fn attendee_sums_fit(terms: Seq<Seq<i64>>, vis: Seq<Seq<bool>>) -> bool {
    &&& fits(total_sum(terms, vis))
    &&& forall|a: int| 0 <= a < terms.len() ==> fits(heard_sum(#[trigger] terms[a], vis[a]))
}

/// Each slot's share is a value of `i64`.
pub open spec fn slot_sums_fit(terms: Seq<Seq<i64>>, vis: Seq<Seq<bool>>, musicians: nat) -> bool {
    forall|k: int| 0 <= k < musicians ==> fits(#[trigger] slot_sum(terms, vis, k))
}

/// The views of the rows of a matrix.
pub open spec fn rows_of(m: &Vec<Vec<i64>>) -> Seq<Seq<i64>> {
    Seq::new(m@.len(), |a: int| m@[a]@)
}

/// A sum of `n` terms lies within `n` times the range of one term.
pub open spec fn within(acc: int, n: int) -> bool {
    n * (i64::MIN as int) <= acc <= n * (i64::MAX as int)
}

/// A multiple of the `i64` range with a `usize` factor stays far inside
/// `i128`, also after one more term.
proof fn lemma_within_step(acc: int, n: int, x: int)
    requires
        0 <= n < 0x1_0000_0000_0000_0000,
        within(acc, n),
        fits(x),
    ensures
        within(acc + x, n + 1),
        i128::MIN <= acc + x <= i128::MAX,
{
    assert(n * (i64::MIN as int) >= -0x1_0000_0000_0000_0000 * 0x8000_0000_0000_0000)
        by (nonlinear_arith)
        requires
            0 <= n <= 0xffff_ffff_ffff_ffff,
    ;
    assert(n * (i64::MAX as int) <= 0x1_0000_0000_0000_0000 * 0x8000_0000_0000_0000)
        by (nonlinear_arith)
        requires
            0 <= n <= 0xffff_ffff_ffff_ffff,
    ;
    assert((n + 1) * (i64::MIN as int) == n * (i64::MIN as int) + (i64::MIN as int))
        by (nonlinear_arith);
    assert((n + 1) * (i64::MAX as int) == n * (i64::MAX as int) + (i64::MAX as int))
        by (nonlinear_arith);
}

/// Adds up the terms of the slots that one attendee hears.
pub fn attendee_score(terms: &Vec<i64>, heard: &Vec<bool>) -> (sum: i128)
    requires
        terms.len() == heard.len(),
    ensures
        sum == heard_sum(terms@, heard@),
        within(sum as int, terms.len() as int),
{
    let mut sum: i128 = 0;
    let mut k: usize = 0;
    proof {
        assert(terms@.take(0) =~= Seq::<i64>::empty());
    }
    while k < terms.len()
        invariant
            k <= terms.len(),
            terms.len() == heard.len(),
            sum == heard_sum(terms@.take(k as int), heard@),
            within(sum as int, k as int),
        decreases terms.len() - k,
    {
        proof {
            assert(terms@.take(k + 1).drop_last() =~= terms@.take(k as int));
            lemma_within_step(sum as int, k as int, terms[k as int] as int);
            lemma_within_step(sum as int, k as int, 0);
        }
        if heard[k] {
            sum = sum + terms[k] as i128;
        }
        k += 1;
    }
    proof {
        assert(terms@.take(k as int) =~= terms@);
    }
    sum
}

/// Adds up the terms that one slot earns from the attendees that hear it.
pub fn musician_score(terms: &Vec<Vec<i64>>, visibility: &Visibility, k: usize) -> (sum: i128)
    requires
        terms.len() == visibility@.len(),
        forall|a: int| 0 <= a < terms.len() ==> k < (#[trigger] terms[a]).len(),
        forall|a: int| 0 <= a < terms.len() ==> k < (#[trigger] visibility@[a]).len(),
    ensures
        sum == slot_sum(rows_of(terms), visibility@, k as int),
        within(sum as int, terms.len() as int),
{
    let ghost rows = rows_of(terms);
    let mut sum: i128 = 0;
    let mut a: usize = 0;
    proof {
        assert(rows.take(0) =~= Seq::<Seq<i64>>::empty());
    }
    while a < terms.len()
        invariant
            a <= terms.len(),
            rows == rows_of(terms),
            rows.len() == terms.len(),
            terms.len() == visibility@.len(),
            forall|b: int| 0 <= b < terms.len() ==> k < (#[trigger] terms[b]).len(),
            forall|b: int| 0 <= b < terms.len() ==> k < (#[trigger] visibility@[b]).len(),
            sum == slot_sum(rows.take(a as int), visibility@, k as int),
            within(sum as int, a as int),
        decreases terms.len() - a,
    {
        proof {
            assert(rows.take(a + 1).drop_last() =~= rows.take(a as int));
            assert(rows.take(a + 1).last() == rows[a as int]);
            assert(k < terms[a as int].len());
            assert(k < visibility@[a as int].len());
            lemma_within_step(sum as int, a as int, terms[a as int][k as int] as int);
            lemma_within_step(sum as int, a as int, 0);
        }
        if visibility.is_visible(a, k) {
            sum = sum + terms[a][k] as i128;
        }
        a += 1;
    }
    proof {
        assert(rows.take(a as int) =~= rows);
    }
    sum
}

/// The total of all terms that are heard, each attendee's share added up in
/// attendee order.
pub fn total_score(terms: &Vec<Vec<i64>>, visibility: &Visibility) -> (total: i128)
    requires
        terms.len() == visibility@.len(),
        forall|a: int| 0 <= a < terms.len() ==> (#[trigger] terms[a]).len() == visibility@[a].len(),
        forall|a: int|
            0 <= a < terms.len() ==> fits(heard_sum(#[trigger] rows_of(terms)[a], visibility@[a])),
    ensures
        total == total_sum(rows_of(terms), visibility@),
        within(total as int, terms.len() as int),
{
    let ghost rows = rows_of(terms);
    let mut total: i128 = 0;
    let mut a: usize = 0;
    proof {
        assert(rows.take(0) =~= Seq::<Seq<i64>>::empty());
    }
    while a < terms.len()
        invariant
            a <= terms.len(),
            rows == rows_of(terms),
            terms.len() == visibility@.len(),
            forall|b: int|
                0 <= b < terms.len() ==> (#[trigger] terms[b]).len() == visibility@[b].len(),
            forall|b: int| 0 <= b < terms.len() ==> fits(heard_sum(#[trigger] rows[b], visibility@[b])),
            total == total_sum(rows.take(a as int), visibility@),
            within(total as int, a as int),
        decreases terms.len() - a,
    {
        let share = attendee_score(&terms[a], &visibility.visibility[a]);
        proof {
            assert(rows.take(a + 1).drop_last() =~= rows.take(a as int));
            assert(rows.take(a + 1).last() == rows[a as int]);
            assert(fits(heard_sum(rows[a as int], visibility@[a as int])));
            lemma_within_step(total as int, a as int, share as int);
        }
        total = total + share;
        a += 1;
    }
    proof {
        assert(rows.take(a as int) =~= rows);
    }
    total
}

/// Validates the solution and adds up the score.
///
/// `terms[a][k]` is what attendee `a` would get from slot `k` if it heard
/// the slot, already rounded. A rejected solution yields its violation; an
/// accepted one yields the total of the terms that are heard.
pub fn calc<T: Copy>(
    task: &Task<T>,
    solution: &Solution<T>,
    visibility: &Visibility,
    checks: &Vec<PlacementCheck>,
    terms: &Vec<Vec<i64>>,
) -> (r: Result<i64, ConstraintViolation>)
    requires
        checks.len() == solution.placements.len(),
        validation(task.musicians.len(), checks@) is Ok ==> same_shape(
            rows_of(terms),
            visibility@,
            task.musicians.len() as nat,
        ) && attendee_sums_fit(rows_of(terms), visibility@),
    ensures
        r == match validation(task.musicians.len(), checks@) {
            Ok(()) => Ok(total_sum(rows_of(terms), visibility@) as i64),
            Err(e) => Err(e),
        },
{
    match validate(task, solution, checks) {
        Err(e) => Err(e),
        Ok(()) => {
            proof {
                let rows = rows_of(terms);
                assert forall|b: int| 0 <= b < terms.len() implies (#[trigger] terms[b]).len()
                    == visibility@[b].len() by {
                    assert(rows[b].len() == task.musicians.len());
                }
                assert forall|b: int| 0 <= b < terms.len() implies fits(
                    heard_sum(#[trigger] rows_of(terms)[b], visibility@[b]),
                ) by {
                    assert(fits(heard_sum(rows[b], visibility@[b])));
                }
            }
            let total = total_score(terms, visibility);
            Ok(total as i64)
        },
    }
}

/// A score together with each attendee's and each slot's share of it.
#[derive(Clone, Debug, PartialEq)]
pub struct ScoreExtended {
    pub score: i64,
    pub attendee: Vec<i64>,
    pub musician: Vec<i64>,
}

/// Like [`calc`], but keeps the share of every attendee and of every slot.
/// A rejected solution yields its violation, the same one as [`calc`] gives;
/// an accepted one yields the same total as [`calc`] together with the
/// shares.
pub fn calc_ex<T: Copy>(
    task: &Task<T>,
    solution: &Solution<T>,
    visibility: &Visibility,
    checks: &Vec<PlacementCheck>,
    terms: &Vec<Vec<i64>>,
) -> (r: Result<ScoreExtended, ConstraintViolation>)
    requires
        checks.len() == solution.placements.len(),
        validation(task.musicians.len(), checks@) is Ok ==> {
            &&& terms.len() == task.attendees.len()
            &&& same_shape(rows_of(terms), visibility@, task.musicians.len() as nat)
            &&& attendee_sums_fit(rows_of(terms), visibility@)
            &&& slot_sums_fit(rows_of(terms), visibility@, task.musicians.len() as nat)
        },
    ensures
        match validation(task.musicians.len(), checks@) {
            Err(e) => r == Err::<ScoreExtended, ConstraintViolation>(e),
            Ok(()) => {
                &&& r matches Ok(out)
                &&& out.score == total_sum(rows_of(terms), visibility@)
                &&& out.attendee.len() == task.attendees.len()
                &&& out.musician.len() == task.musicians.len()
                &&& forall|a: int|
                    0 <= a < out.attendee.len() ==> out.attendee[a] == heard_sum(
                        rows_of(terms)[a],
                        visibility@[a],
                    )
                &&& forall|k: int|
                    0 <= k < out.musician.len() ==> out.musician[k] == slot_sum(
                        rows_of(terms),
                        visibility@,
                        k,
                    )
            },
        },
{
    match validate(task, solution, checks) {
        Err(e) => Err(e),
        Ok(()) => {
            let ghost rows = rows_of(terms);
            let mut attendee: Vec<i64> = Vec::new();
            let mut a: usize = 0;
            while a < terms.len()
                invariant
                    a <= terms.len(),
                    attendee.len() == a,
                    rows == rows_of(terms),
                    same_shape(rows, visibility@, task.musicians.len() as nat),
                    attendee_sums_fit(rows, visibility@),
                    forall|b: int|
                        0 <= b < a ==> attendee[b] == heard_sum(rows[b], visibility@[b]),
                decreases terms.len() - a,
            {
                assert(rows[a as int].len() == task.musicians.len());
                assert(visibility@[a as int].len() == task.musicians.len());
                assert(fits(heard_sum(rows[a as int], visibility@[a as int])));
                let share = attendee_score(&terms[a], &visibility.visibility[a]);
                attendee.push(share as i64);
                a += 1;
            }
            let mut musician: Vec<i64> = Vec::new();
            let mut k: usize = 0;
            let slots = solution.placements.len();
            while k < slots
                invariant
                    k <= slots,
                    slots == task.musicians.len(),
                    musician.len() == k,
                    rows == rows_of(terms),
                    same_shape(rows, visibility@, task.musicians.len() as nat),
                    slot_sums_fit(rows, visibility@, task.musicians.len() as nat),
                    forall|c: int| 0 <= c < k ==> musician[c] == slot_sum(rows, visibility@, c),
                decreases slots - k,
            {
                proof {
                    assert forall|b: int| 0 <= b < terms.len() implies k < (#[trigger] terms[b]).len() by {
                        assert(rows[b].len() == task.musicians.len());
                    }
                    assert(fits(slot_sum(rows, visibility@, k as int)));
                }
                let share = musician_score(terms, visibility, k);
                musician.push(share as i64);
                k += 1;
            }
            proof {
                assert forall|b: int| 0 <= b < terms.len() implies (#[trigger] terms[b]).len()
                    == visibility@[b].len() by {
                    assert(rows[b].len() == task.musicians.len());
                }
                assert forall|b: int| 0 <= b < terms.len() implies fits(
                    heard_sum(#[trigger] rows_of(terms)[b], visibility@[b]),
                ) by {
                    assert(fits(heard_sum(rows[b], visibility@[b])));
                }
            }
            let total = total_score(terms, visibility);
            Ok(ScoreExtended { score: total as i64, attendee, musician })
        },
    }
}

/// Sum of a sequence of shares.
pub open spec fn seq_sum(s: Seq<i64>) -> int
    decreases s.len(),
{
    if s.len() == 0 {
        0
    } else {
        seq_sum(s.drop_last()) + s.last()
    }
}

/// The shares of the first `m` slots, taken over one more attendee, grow by
/// what that attendee gets from those slots.
proof fn lemma_slots_total_step(terms: Seq<Seq<i64>>, vis: Seq<Seq<bool>>, m: int)
    requires
        terms.len() > 0,
        0 <= m <= terms.last().len(),
    ensures
        slots_total(terms, vis, m) == slots_total(terms.drop_last(), vis, m) + heard_sum(
            terms.last().take(m),
            vis[terms.len() - 1],
        ),
    decreases m,
{
    if m > 0 {
        lemma_slots_total_step(terms, vis, m - 1);
        assert(terms.last().take(m).drop_last() =~= terms.last().take(m - 1));
    } else {
        assert(terms.last().take(0) =~= Seq::<i64>::empty());
    }
}

/// With no attendees, no slot earns anything.
proof fn lemma_slots_total_empty(terms: Seq<Seq<i64>>, vis: Seq<Seq<bool>>, m: int)
    requires
        terms.len() == 0,
    ensures
        slots_total(terms, vis, m) == 0,
    decreases m,
{
    if m > 0 {
        lemma_slots_total_empty(terms, vis, m - 1);
    }
}

/// The shares of the slots add up to the total score: summing by slot and
/// summing by attendee give the same number.
pub proof fn lemma_slots_add_up(terms: Seq<Seq<i64>>, vis: Seq<Seq<bool>>, musicians: nat)
    requires
        same_shape(terms, vis, musicians),
    ensures
        slots_total(terms, vis, musicians as int) == total_sum(terms, vis),
{
    lemma_slots_add_up_prefix(terms, vis, musicians);
}

/// The same for the first attendees only: the visibility matrix may have
/// further rows.
proof fn lemma_slots_add_up_prefix(terms: Seq<Seq<i64>>, vis: Seq<Seq<bool>>, musicians: nat)
    requires
        terms.len() <= vis.len(),
        forall|a: int| 0 <= a < terms.len() ==> (#[trigger] terms[a]).len() == musicians,
    ensures
        slots_total(terms, vis, musicians as int) == total_sum(terms, vis),
    decreases terms.len(),
{
    if terms.len() == 0 {
        lemma_slots_total_empty(terms, vis, musicians as int);
    } else {
        let rest = terms.drop_last();
        assert forall|a: int| 0 <= a < rest.len() implies (#[trigger] rest[a]).len() == musicians by {
            assert(rest[a] == terms[a]);
        }
        lemma_slots_add_up_prefix(rest, vis, musicians);
        lemma_slots_total_step(terms, vis, musicians as int);
        assert(terms.last().take(musicians as int) =~= terms.last());
    }
}

/// The breakdown is consistent with the score: the attendees' shares add up
/// to the total, and so do the slots' shares.
pub proof fn lemma_breakdown_adds_up(
    terms: Seq<Seq<i64>>,
    vis: Seq<Seq<bool>>,
    attendee: Seq<i64>,
    musician: Seq<i64>,
)
    requires
        same_shape(terms, vis, musician.len()),
        attendee.len() == terms.len(),
        forall|a: int| 0 <= a < attendee.len() ==> attendee[a] == heard_sum(terms[a], vis[a]),
        forall|k: int| 0 <= k < musician.len() ==> musician[k] == slot_sum(terms, vis, k),
    ensures
        seq_sum(attendee) == total_sum(terms, vis),
        seq_sum(musician) == total_sum(terms, vis),
{
    lemma_attendees_add_up(terms, vis, attendee);
    lemma_slots_add_up(terms, vis, musician.len());
    lemma_slot_shares(terms, vis, musician);
}

/// The attendees' shares add up to the total.
proof fn lemma_attendees_add_up(terms: Seq<Seq<i64>>, vis: Seq<Seq<bool>>, attendee: Seq<i64>)
    requires
        attendee.len() == terms.len(),
        forall|a: int| 0 <= a < attendee.len() ==> attendee[a] == heard_sum(terms[a], vis[a]),
    ensures
        seq_sum(attendee) == total_sum(terms, vis),
    decreases terms.len(),
{
    if terms.len() > 0 {
        let rest = terms.drop_last();
        let fewer = attendee.drop_last();
        assert forall|a: int| 0 <= a < fewer.len() implies fewer[a] == heard_sum(
            rest[a],
            vis[a],
        ) by {
            assert(fewer[a] == attendee[a]);
            assert(rest[a] == terms[a]);
        }
        lemma_attendees_add_up(rest, vis, fewer);
    }
}

/// The slots' shares, added up as a sequence, are the slots' total.
proof fn lemma_slot_shares(terms: Seq<Seq<i64>>, vis: Seq<Seq<bool>>, musician: Seq<i64>)
    requires
        forall|k: int| 0 <= k < musician.len() ==> musician[k] == slot_sum(terms, vis, k),
    ensures
        seq_sum(musician) == slots_total(terms, vis, musician.len() as int),
    decreases musician.len(),
{
    if musician.len() > 0 {
        let fewer = musician.drop_last();
        assert forall|k: int| 0 <= k < fewer.len() implies fewer[k] == slot_sum(terms, vis, k) by {
            assert(fewer[k] == musician[k]);
        }
        lemma_slot_shares(terms, vis, fewer);
    }
}

/// Sets every musician to the volume `loud` if the attendees that hear it
/// like it on balance, and to the volume `silent` otherwise. The placements
/// stay.
///
/// `impact[a][k]` is what attendee `a` gets from slot `k` at volume one.
pub fn recalc_volumes<T: Copy>(
    task: &Task<T>,
    solution: &mut Solution<T>,
    visibility: &Visibility,
    impact: &Vec<Vec<i64>>,
    silent: T,
    loud: T,
)
    requires
        same_shape(rows_of(impact), visibility@, task.musicians.len() as nat),
    ensures
        final(solution).placements == old(solution).placements,
        final(solution).volumes.len() == task.musicians.len(),
        forall|k: int|
            0 <= k < task.musicians.len() ==> final(solution).volumes[k] == (if slot_sum(
                rows_of(impact),
                visibility@,
                k,
            ) > 0 {
                loud
            } else {
                silent
            }),
{
    let ghost rows = rows_of(impact);
    let mut volumes: Vec<T> = Vec::new();
    let mut k: usize = 0;
    while k < task.musicians.len()
        invariant
            k <= task.musicians.len(),
            volumes.len() == k,
            rows == rows_of(impact),
            same_shape(rows, visibility@, task.musicians.len() as nat),
            forall|c: int|
                0 <= c < k ==> volumes[c] == (if slot_sum(rows, visibility@, c) > 0 {
                    loud
                } else {
                    silent
                }),
        decreases task.musicians.len() - k,
    {
        proof {
            assert forall|b: int| 0 <= b < impact.len() implies k < (#[trigger] impact[b]).len() by {
                assert(rows[b].len() == task.musicians.len());
            }
        }
        let liked = musician_score(impact, visibility, k);
        if liked > 0 {
            volumes.push(loud);
        } else {
            volumes.push(silent);
        }
        k += 1;
    }
    solution.volumes = volumes;
}

/// If every heard term of `upper` is at least the matching term of `lower`,
/// then an attendee gets at least as much from `upper`.
proof fn lemma_heard_is_monotonic(lower: Seq<i64>, upper: Seq<i64>, heard: Seq<bool>)
    requires
        lower.len() == upper.len(),
        forall|k: int| 0 <= k < lower.len() && heard[k] ==> lower[k] <= upper[k],
    ensures
        heard_sum(lower, heard) <= heard_sum(upper, heard),
    decreases lower.len(),
{
    if lower.len() > 0 {
        let l = lower.drop_last();
        let u = upper.drop_last();
        assert forall|k: int| 0 <= k < l.len() && heard[k] implies l[k] <= u[k] by {
            assert(l[k] == lower[k] && u[k] == upper[k]);
        }
        lemma_heard_is_monotonic(l, u, heard);
    }
}

/// Raising terms never lowers the score, and lowering them never raises it:
/// with visibility unchanged, terms that are at least as large wherever
/// they are heard give a total that is at least as large.
pub proof fn lemma_total_is_monotonic(
    lower: Seq<Seq<i64>>,
    upper: Seq<Seq<i64>>,
    vis: Seq<Seq<bool>>,
)
    requires
        lower.len() == upper.len(),
        forall|a: int| 0 <= a < lower.len() ==> (#[trigger] lower[a]).len() == upper[a].len(),
        forall|a: int, k: int|
            0 <= a < lower.len() && 0 <= k < lower[a].len() && vis[a][k] ==> lower[a][k]
                <= upper[a][k],
    ensures
        total_sum(lower, vis) <= total_sum(upper, vis),
    decreases lower.len(),
{
    if lower.len() > 0 {
        let l = lower.drop_last();
        let u = upper.drop_last();
        let last = lower.len() - 1;
        assert forall|a: int| 0 <= a < l.len() implies (#[trigger] l[a]).len() == u[a].len() by {
            assert(l[a] == lower[a] && u[a] == upper[a]);
        }
        assert forall|a: int, k: int|
            0 <= a < l.len() && 0 <= k < l[a].len() && vis[a][k] implies l[a][k] <= u[a][k] by {
            assert(l[a] == lower[a] && u[a] == upper[a]);
        }
        lemma_total_is_monotonic(l, u, vis);
        assert(lower[last].len() == upper[last].len());
        assert forall|k: int| 0 <= k < lower[last].len() && vis[last][k] implies lower[last][k]
            <= upper[last][k] by {}
        lemma_heard_is_monotonic(lower[last], upper[last], vis[last]);
    }
}

/// Turning one musician up from silence: if an attendee's terms differ only
/// in slot `k`, where the term was zero, then a term that is not negative
/// never lowers what the attendee gets, and a term that is not positive
/// never raises it.
pub proof fn lemma_unmuting_one_musician(muted: Seq<i64>, sounding: Seq<i64>, heard: Seq<bool>, k: int)
    requires
        muted.len() == sounding.len(),
        0 <= k < muted.len(),
        muted[k] == 0,
        forall|j: int| 0 <= j < muted.len() && j != k ==> muted[j] == sounding[j],
    ensures
        sounding[k] >= 0 ==> heard_sum(sounding, heard) >= heard_sum(muted, heard),
        sounding[k] <= 0 ==> heard_sum(sounding, heard) <= heard_sum(muted, heard),
{
    if sounding[k] >= 0 {
        lemma_heard_is_monotonic(muted, sounding, heard);
    }
    if sounding[k] <= 0 {
        lemma_heard_is_monotonic(sounding, muted, heard);
    }
}

/// The sum of the positive entries of a row.
pub open spec fn positive_sum(row: Seq<i64>) -> int
    decreases row.len(),
{
    if row.len() == 0 {
        0
    } else {
        positive_sum(row.drop_last()) + (if row.last() > 0 {
            row.last() as int
        } else {
            0
        })
    }
}

/// The sum of the positive entries of a matrix.
pub open spec fn potential_sum(rows: Seq<Seq<i64>>) -> int
    decreases rows.len(),
{
    if rows.len() == 0 {
        0
    } else {
        potential_sum(rows.drop_last()) + positive_sum(rows.last())
    }
}

/// A sum of positive parts is not negative and grows with the row.
proof fn lemma_positive_sum_grows(row: Seq<i64>, k: int)
    requires
        0 <= k <= row.len(),
    ensures
        0 <= positive_sum(row.take(k)) <= positive_sum(row),
    decreases row.len() - k,
{
    lemma_positive_sum_not_negative(row.take(k));
    if k < row.len() {
        lemma_positive_sum_grows(row, k + 1);
        assert(row.take(k + 1).drop_last() =~= row.take(k));
    } else {
        assert(row.take(k) =~= row);
    }
}

/// A sum of positive parts is not negative.
proof fn lemma_positive_sum_not_negative(row: Seq<i64>)
    ensures
        0 <= positive_sum(row),
    decreases row.len(),
{
    if row.len() > 0 {
        lemma_positive_sum_not_negative(row.drop_last());
    }
}

/// The potential of the first rows is not negative and does not exceed the
/// potential of all rows.
proof fn lemma_potential_grows(rows: Seq<Seq<i64>>, a: int)
    requires
        0 <= a <= rows.len(),
    ensures
        0 <= potential_sum(rows.take(a)) <= potential_sum(rows),
    decreases rows.len() - a,
{
    lemma_potential_not_negative(rows.take(a));
    if a < rows.len() {
        lemma_potential_grows(rows, a + 1);
        assert(rows.take(a + 1).drop_last() =~= rows.take(a));
        lemma_positive_sum_not_negative(rows.take(a + 1).last());
    } else {
        assert(rows.take(a) =~= rows);
    }
}

/// A potential is not negative.
proof fn lemma_potential_not_negative(rows: Seq<Seq<i64>>)
    ensures
        0 <= potential_sum(rows),
    decreases rows.len(),
{
    if rows.len() > 0 {
        lemma_potential_not_negative(rows.drop_last());
        lemma_positive_sum_not_negative(rows.last());
    }
}

/// The positive part of a number.
pub open spec fn positive_part(x: i64) -> int {
    if x > 0 {
        x as int
    } else {
        0
    }
}

/// What an attendee gets is at most the sum of the positive entries of its
/// best case, if every term that it hears is at most the positive part of
/// the matching entry.
proof fn lemma_heard_below_positive(terms: Seq<i64>, heard: Seq<bool>, best: Seq<i64>)
    requires
        terms.len() == best.len(),
        forall|k: int| 0 <= k < terms.len() && heard[k] ==> terms[k] <= positive_part(best[k]),
    ensures
        heard_sum(terms, heard) <= positive_sum(best),
    decreases terms.len(),
{
    if terms.len() > 0 {
        let t = terms.drop_last();
        let b = best.drop_last();
        assert forall|k: int| 0 <= k < t.len() && heard[k] implies t[k] <= positive_part(b[k]) by {
            assert(t[k] == terms[k] && b[k] == best[k]);
        }
        lemma_heard_below_positive(t, heard, b);
        let last = terms.len() - 1;
        if heard[last] {
            assert(terms[last] <= positive_part(best[last]));
        }
    }
}

/// The potential bounds every score from above: if every term that is
/// heard is at most the positive part of the matching best-case entry, then
/// the total of the heard terms is at most the potential. Both can be zero,
/// so the bound is not strict.
pub proof fn lemma_potential_bounds_score(
    terms: Seq<Seq<i64>>,
    vis: Seq<Seq<bool>>,
    best_case: Seq<Seq<i64>>,
)
    requires
        terms.len() == best_case.len(),
        forall|a: int| 0 <= a < terms.len() ==> (#[trigger] terms[a]).len() == best_case[a].len(),
        forall|a: int, k: int|
            0 <= a < terms.len() && 0 <= k < terms[a].len() && vis[a][k] ==> terms[a][k]
                <= positive_part(#[trigger] best_case[a][k]),
    ensures
        total_sum(terms, vis) <= potential_sum(best_case),
        0 <= potential_sum(best_case),
    decreases terms.len(),
{
    lemma_potential_not_negative(best_case);
    if terms.len() > 0 {
        let t = terms.drop_last();
        let b = best_case.drop_last();
        let last = terms.len() - 1;
        assert forall|a: int| 0 <= a < t.len() implies (#[trigger] t[a]).len() == b[a].len() by {
            assert(t[a] == terms[a] && b[a] == best_case[a]);
        }
        assert forall|a: int, k: int|
            0 <= a < t.len() && 0 <= k < t[a].len() && vis[a][k] implies t[a][k] <= positive_part(
            #[trigger] b[a][k],
        ) by {
            assert(t[a] == terms[a] && b[a] == best_case[a]);
            assert(terms[a][k] <= positive_part(best_case[a][k]));
        }
        lemma_potential_bounds_score(t, vis, b);
        assert(terms[last].len() == best_case[last].len());
        assert forall|k: int| 0 <= k < terms[last].len() && vis[last][k] implies terms[last][k]
            <= positive_part(best_case[last][k]) by {
            assert(terms[last][k] <= positive_part(best_case[last][k]));
        }
        lemma_heard_below_positive(terms[last], vis[last], best_case[last]);
    }
}

/// An optimistic bound for ranking problems: the sum of what every attendee
/// would give to every musician in the best case, counting only what is
/// positive. `best_case[a][k]` is the contribution of musician `k` to
/// attendee `a` at the most favourable point.
pub fn potential_score(best_case: &Vec<Vec<i64>>) -> (total: i64)
    requires
        fits(potential_sum(rows_of(best_case))),
    ensures
        total == potential_sum(rows_of(best_case)),
        total >= 0,
{
    let ghost rows = rows_of(best_case);
    let mut total: i64 = 0;
    let mut a: usize = 0;
    proof {
        assert(rows.take(0) =~= Seq::<Seq<i64>>::empty());
    }
    while a < best_case.len()
        invariant
            a <= best_case.len(),
            rows == rows_of(best_case),
            fits(potential_sum(rows)),
            total == potential_sum(rows.take(a as int)),
        decreases best_case.len() - a,
    {
        let row = &best_case[a];
        let ghost before = total;
        let mut k: usize = 0;
        proof {
            assert(row@.take(0) =~= Seq::<i64>::empty());
            assert(row@ == rows[a as int]);
        }
        while k < row.len()
            invariant
                k <= row.len(),
                a < best_case.len(),
                rows == rows_of(best_case),
                row@ == rows[a as int],
                fits(potential_sum(rows)),
                before == potential_sum(rows.take(a as int)),
                total == before + positive_sum(row@.take(k as int)),
            decreases row.len() - k,
        {
            proof {
                assert(row@.take(k + 1).drop_last() =~= row@.take(k as int));
                lemma_positive_sum_grows(row@, k + 1);
                lemma_potential_grows(rows, a + 1);
                assert(rows.take(a + 1).drop_last() =~= rows.take(a as int));
                assert(rows.take(a + 1).last() == row@);
            }
            if row[k] > 0 {
                total = total + row[k];
            }
            k += 1;
        }
        proof {
            assert(row@.take(k as int) =~= row@);
            assert(rows.take(a + 1).drop_last() =~= rows.take(a as int));
            assert(rows.take(a + 1).last() == row@);
        }
        a += 1;
    }
    proof {
        assert(rows.take(a as int) =~= rows);
        lemma_potential_not_negative(rows);
    }
    total
}

/// Tests at run time whether both matrices have one row per attendee and
/// `musicians` entries per row.
pub fn shapes_agree(terms: &Vec<Vec<i64>>, visibility: &Visibility, musicians: usize) -> (ok: bool)
    ensures
        ok == same_shape(rows_of(terms), visibility@, musicians as nat),
{
    if terms.len() != visibility.visibility.len() {
        return false;
    }
    let ghost rows = rows_of(terms);
    let mut a: usize = 0;
    while a < terms.len()
        invariant
            a <= terms.len(),
            rows == rows_of(terms),
            terms.len() == visibility@.len(),
            forall|b: int| 0 <= b < a ==> (#[trigger] rows[b]).len() == musicians,
            forall|b: int| 0 <= b < a ==> (#[trigger] visibility@[b]).len() == musicians,
        decreases terms.len() - a,
    {
        if terms[a].len() != musicians || visibility.visibility[a].len() != musicians {
            assert(rows[a as int].len() != musicians || visibility@[a as int].len() != musicians);
            return false;
        }
        a += 1;
    }
    true
}

/// Tests at run time what [`calc`] asks of a solution that passes
/// validation: the matrices have the right shape, and every attendee's
/// share and the total are values of `i64`.
pub fn scorable(terms: &Vec<Vec<i64>>, visibility: &Visibility, musicians: usize) -> (ok: bool)
    ensures
        ok == (same_shape(rows_of(terms), visibility@, musicians as nat) && attendee_sums_fit(
            rows_of(terms),
            visibility@,
        )),
{
    if !shapes_agree(terms, visibility, musicians) {
        return false;
    }
    let ghost rows = rows_of(terms);
    let mut total: i128 = 0;
    let mut a: usize = 0;
    proof {
        assert(rows.take(0) =~= Seq::<Seq<i64>>::empty());
    }
    while a < terms.len()
        invariant
            a <= terms.len(),
            rows == rows_of(terms),
            same_shape(rows, visibility@, musicians as nat),
            forall|b: int| 0 <= b < a ==> fits(heard_sum(#[trigger] rows[b], visibility@[b])),
            total == total_sum(rows.take(a as int), visibility@),
            within(total as int, a as int),
        decreases terms.len() - a,
    {
        assert(rows[a as int].len() == musicians);
        assert(visibility@[a as int].len() == musicians);
        let share = attendee_score(&terms[a], &visibility.visibility[a]);
        if share < i64::MIN as i128 || share > i64::MAX as i128 {
            assert(!fits(heard_sum(rows[a as int], visibility@[a as int])));
            return false;
        }
        proof {
            assert(rows.take(a + 1).drop_last() =~= rows.take(a as int));
            assert(rows.take(a + 1).last() == rows[a as int]);
            lemma_within_step(total as int, a as int, share as int);
        }
        total = total + share;
        a += 1;
    }
    proof {
        assert(rows.take(a as int) =~= rows);
    }
    i64::MIN as i128 <= total && total <= i64::MAX as i128
}

/// Tests at run time what [`calc_ex`] asks beyond [`scorable`]: every
/// slot's share is a value of `i64`.
pub fn slots_scorable(terms: &Vec<Vec<i64>>, visibility: &Visibility, musicians: usize) -> (ok:
    bool)
    requires
        same_shape(rows_of(terms), visibility@, musicians as nat),
    ensures
        ok == slot_sums_fit(rows_of(terms), visibility@, musicians as nat),
{
    let ghost rows = rows_of(terms);
    let mut k: usize = 0;
    while k < musicians
        invariant
            k <= musicians,
            rows == rows_of(terms),
            same_shape(rows, visibility@, musicians as nat),
            forall|c: int| 0 <= c < k ==> fits(#[trigger] slot_sum(rows, visibility@, c)),
        decreases musicians - k,
    {
        proof {
            assert forall|b: int| 0 <= b < terms.len() implies k < (#[trigger] terms[b]).len() by {
                assert(rows[b].len() == musicians);
            }
        }
        let share = musician_score(terms, visibility, k);
        if share < i64::MIN as i128 || share > i64::MAX as i128 {
            assert(!fits(slot_sum(rows, visibility@, k as int)));
            return false;
        }
        k += 1;
    }
    true
}

/// Tests at run time what [`potential_score`] asks: the sum of the positive
/// entries is a value of `i64`.
pub fn potential_fits(best_case: &Vec<Vec<i64>>) -> (ok: bool)
    ensures
        ok == fits(potential_sum(rows_of(best_case))),
{
    let ghost rows = rows_of(best_case);
    let mut total: i64 = 0;
    let mut a: usize = 0;
    proof {
        assert(rows.take(0) =~= Seq::<Seq<i64>>::empty());
    }
    while a < best_case.len()
        invariant
            a <= best_case.len(),
            rows == rows_of(best_case),
            total == potential_sum(rows.take(a as int)),
            total >= 0,
        decreases best_case.len() - a,
    {
        let row = &best_case[a];
        let ghost before = total;
        let mut k: usize = 0;
        proof {
            assert(row@.take(0) =~= Seq::<i64>::empty());
            assert(row@ == rows[a as int]);
        }
        while k < row.len()
            invariant
                k <= row.len(),
                a < best_case.len(),
                rows == rows_of(best_case),
                row@ == rows[a as int],
                before == potential_sum(rows.take(a as int)),
                total == before + positive_sum(row@.take(k as int)),
                total >= 0,
            decreases row.len() - k,
        {
            proof {
                assert(row@.take(k + 1).drop_last() =~= row@.take(k as int));
            }
            if row[k] > 0 {
                if total > i64::MAX - row[k] {
                    proof {
                        lemma_positive_sum_grows(row@, k + 1);
                        lemma_potential_grows(rows, a + 1);
                        assert(rows.take(a + 1).drop_last() =~= rows.take(a as int));
                        assert(rows.take(a + 1).last() == row@);
                    }
                    return false;
                }
                total = total + row[k];
            }
            k += 1;
        }
        proof {
            assert(row@.take(k as int) =~= row@);
            assert(rows.take(a + 1).drop_last() =~= rows.take(a as int));
            assert(rows.take(a + 1).last() == row@);
        }
        a += 1;
    }
    proof {
        assert(rows.take(a as int) =~= rows);
    }
    true
}

} // verus!
