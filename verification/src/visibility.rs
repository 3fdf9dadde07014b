//! The accessibility matrix: which attendee has a free line of sight to which
//! musician slot.

use crate::sweep::{blocked, covers, sweep, Obstacle, Viewer};
use vstd::prelude::*;

verus! {

/// A snapshot of who can hear whom, indexed `[attendee][musician slot]`.
#[derive(Clone, Debug)]
pub struct Visibility {
    pub visibility: Vec<Vec<bool>>,
}

/// What one musician slot sees around itself: every other occluder and every
/// attendee, the attendees in attendee order.
pub struct Scene {
    pub obstacles: Vec<Obstacle>,
    pub viewers: Vec<Viewer>,
}

impl View for Visibility {
    type V = Seq<Seq<bool>>;

    open spec fn view(&self) -> Seq<Seq<bool>> {
        Seq::new(self.visibility@.len(), |a: int| self.visibility@[a]@)
    }
}

impl Visibility {
    /// Every attendee's row has one entry per musician slot.
    pub open spec fn rectangular(&self, musicians: nat) -> bool {
        forall|a: int| 0 <= a < self@.len() ==> (#[trigger] self@[a]).len() == musicians
    }

    /// Whether attendee `attendee_index` hears slot `pos_index`.
    pub fn is_visible(&self, attendee_index: usize, pos_index: usize) -> (r: bool)
        requires
            attendee_index < self@.len(),
            pos_index < self@[attendee_index as int].len(),
        ensures
            r == self@[attendee_index as int][pos_index as int],
    {
        self.visibility[attendee_index][pos_index]
    }

    /// The slots that attendee `attendee_index` hears, in ascending order.
    pub fn for_attendee(&self, attendee_index: usize) -> (slots: Vec<usize>)
        requires
            attendee_index < self@.len(),
        ensures
            forall|i: int, j: int| 0 <= i < j < slots.len() ==> slots[i] < slots[j],
            forall|k: usize|
                slots@.contains(k) <==> (k < self@[attendee_index as int].len()
                    && self@[attendee_index as int][k as int]),
    {
        let row = &self.visibility[attendee_index];
        let mut slots: Vec<usize> = Vec::new();
        let mut k: usize = 0;
        while k < row.len()
            invariant
                k <= row.len(),
                row@ == self@[attendee_index as int],
                forall|i: int, j: int| 0 <= i < j < slots.len() ==> slots[i] < slots[j],
                forall|i: int| 0 <= i < slots.len() ==> slots[i] < k,
                forall|x: usize| slots@.contains(x) <==> (x < k && row@[x as int]),
            decreases row.len() - k,
        {
            if row[k] {
                let ghost before = slots@;
                slots.push(k);
                proof {
                    assert forall|x: usize| slots@.contains(x) <==> (x < k + 1 && row@[x as int]) by {
                        if slots@.contains(x) {
                            let i = choose|i: int| 0 <= i < slots@.len() && slots@[i] == x;
                            if i < before.len() {
                                assert(before[i] == x);
                                assert(before.contains(x));
                            }
                        }
                        if x < k && row@[x as int] {
                            assert(before.contains(x));
                            let i = choose|i: int| 0 <= i < before.len() && before[i] == x;
                            assert(slots@[i] == x);
                        }
                        if x == k {
                            assert(slots@[before.len() as int] == x);
                        }
                    }
                }
            }
            k += 1;
        }
        slots
    }

    /// Builds the matrix from one column per musician slot, each holding one
    /// entry per attendee.
    pub fn from_columns(columns: &Vec<Vec<bool>>, attendees: usize) -> (vis: Visibility)
        requires
            forall|k: int| 0 <= k < columns.len() ==> (#[trigger] columns[k]).len() == attendees,
        ensures
            vis@.len() == attendees,
            vis.rectangular(columns.len() as nat),
            forall|a: int, k: int|
                0 <= a < attendees && 0 <= k < columns.len() ==> vis@[a][k] == columns[k][a],
    {
        let mut rows: Vec<Vec<bool>> = Vec::new();
        let mut a: usize = 0;
        while a < attendees
            invariant
                a <= attendees,
                rows.len() == a,
                forall|k: int|
                    0 <= k < columns.len() ==> (#[trigger] columns[k]).len() == attendees,
                forall|b: int| 0 <= b < a ==> (#[trigger] rows[b]).len() == columns.len(),
                forall|b: int, k: int|
                    0 <= b < a && 0 <= k < columns.len() ==> rows[b][k] == columns[k][b],
            decreases attendees - a,
        {
            let mut row: Vec<bool> = Vec::new();
            let mut k: usize = 0;
            while k < columns.len()
                invariant
                    k <= columns.len(),
                    a < attendees,
                    row.len() == k,
                    forall|c: int|
                        0 <= c < columns.len() ==> (#[trigger] columns[c]).len() == attendees,
                    forall|c: int| 0 <= c < k ==> row[c] == columns[c][a as int],
                decreases columns.len() - k,
            {
                row.push(columns[k][a]);
                k += 1;
            }
            rows.push(row);
            a += 1;
        }
        Visibility { visibility: rows }
    }
}

/// Computes the whole matrix by one angular sweep per musician slot.
///
/// Attendee `a` hears slot `k` unless, seen from slot `k`, some obstacle
/// covers the attendee's direction and is no farther away than the attendee.
pub fn calc_visibility_fast(scenes: &Vec<Scene>, attendees: usize) -> (vis: Visibility)
    requires
        forall|k: int| 0 <= k < scenes.len() ==> (#[trigger] scenes[k]).viewers.len() == attendees,
    ensures
        vis@.len() == attendees,
        vis.rectangular(scenes.len() as nat),
        forall|a: int, k: int|
            0 <= a < attendees && 0 <= k < scenes.len() ==> vis@[a][k] == !blocked(
                scenes[k].obstacles@,
                scenes[k].viewers[a],
            ),
{
    let mut columns: Vec<Vec<bool>> = Vec::new();
    let mut k: usize = 0;
    while k < scenes.len()
        invariant
            k <= scenes.len(),
            columns.len() == k,
            forall|c: int|
                0 <= c < scenes.len() ==> (#[trigger] scenes[c]).viewers.len() == attendees,
            forall|c: int| 0 <= c < k ==> (#[trigger] columns[c]).len() == attendees,
            forall|c: int, a: int|
                0 <= c < k && 0 <= a < attendees ==> columns[c][a] == !blocked(
                    scenes[c].obstacles@,
                    scenes[c].viewers[a],
                ),
        decreases scenes.len() - k,
    {
        let column = sweep(&scenes[k].obstacles, &scenes[k].viewers);
        columns.push(column);
        k += 1;
    }
    Visibility::from_columns(&columns, attendees)
}

/// Whether no obstacle other than slot `own` comes nearer to a line of sight
/// than its radius.
pub open spec fn clear_of_all(distances: Seq<i64>, radii: Seq<i64>, own: int) -> bool {
    forall|j: int| 0 <= j < distances.len() && j != own ==> #[trigger] distances[j] >= radii[j]
}

/// Decides whether the line of sight between an attendee and the musician
/// on slot `own` is free.
///
/// `distances[j]` is a key of the distance between the line and obstacle
/// `j`, `radii[j]` the key of the radius with which that obstacle blocks.
/// The musician itself, obstacle `own`, does not count.
pub fn line_is_clear(distances: &Vec<i64>, radii: &Vec<i64>, own: usize) -> (clear: bool)
    requires
        distances.len() == radii.len(),
    ensures
        clear == clear_of_all(distances@, radii@, own as int),
{
    let mut j: usize = 0;
    while j < distances.len()
        invariant
            j <= distances.len(),
            distances.len() == radii.len(),
            forall|o: int| 0 <= o < j && o != own ==> #[trigger] distances[o] >= radii[o],
        decreases distances.len() - j,
    {
        if j != own && distances[j] < radii[j] {
            return false;
        }
        j += 1;
    }
    true
}

/// The sweep and the segment test give the same answer for a viewer
/// wherever they agree obstacle by obstacle: where an obstacle covers the
/// viewer's direction and is no farther away than the viewer exactly if it
/// comes nearer to the line of sight than its radius. The musician itself is
/// not among the obstacles.
pub proof fn lemma_sweep_agrees_with_segment_test(
    obstacles: Seq<Obstacle>,
    v: Viewer,
    distances: Seq<i64>,
    radii: Seq<i64>,
    own: int,
)
    requires
        distances.len() == obstacles.len(),
        radii.len() == obstacles.len(),
        !(0 <= own < obstacles.len()),
        forall|j: int|
            0 <= j < obstacles.len() ==> ((covers(#[trigger] obstacles[j], v.angle)
                && obstacles[j].dist <= v.dist) <==> distances[j] < radii[j]),
    ensures
        !blocked(obstacles, v) == clear_of_all(distances, radii, own),
{
    if blocked(obstacles, v) {
        let j = choose|j: int|
            0 <= j < obstacles.len() && covers(#[trigger] obstacles[j], v.angle)
                && obstacles[j].dist <= v.dist;
        assert(distances[j] < radii[j]);
    }
    if !clear_of_all(distances, radii, own) {
        let j = choose|j: int|
            0 <= j < distances.len() && j != own && !(#[trigger] distances[j] >= radii[j]);
        assert(covers(obstacles[j], v.angle) && obstacles[j].dist <= v.dist);
    }
}

} // verus!
