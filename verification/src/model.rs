//! The problem model: tasks, solutions and the constants of the rules.

use vstd::prelude::*;

verus! {

/// Radius that a musician keeps free of the stage border.
pub const MUSICIAN_RADIUS: i64 = 10;

/// Radius with which a musician blocks a line of sight.
pub const MUSICIAN_BLOCK_RADIUS: i64 = 5;

/// Scale of a single contribution before it is divided by the squared
/// distance.
pub const SCORE_CONST: i64 = 1_000_000;

/// Smallest distance that two musicians may keep: twice the musician radius.
pub const MIN_SEPARATION: i64 = 2 * MUSICIAN_RADIUS;

/// Volume of a silenced musician.
pub const MIN_VOLUME: i64 = 0;

/// Volume of a musician at full amplitude.
pub const MAX_VOLUME: i64 = 10;

/// Volume that every musician has before volumes are tuned.
pub const DEFAULT_VOLUME: i64 = 1;

/// Score that stands for a solution that cannot be scored.
pub const UNSCORABLE: i64 = -1_000_000_000_000;

/// A position in the room.
#[derive(Clone, Copy, Debug, PartialEq)]
pub struct Point<T> {
    pub x: T,
    pub y: T,
}

impl<T: Copy> Point<T> {
    /// The point with its coordinates exchanged.
    pub open spec fn transposed(self) -> Point<T> {
        Point { x: self.y, y: self.x }
    }

    /// Exchanges the coordinates.
    pub fn transpose(self) -> (r: Self)
        ensures
            r == self.transposed(),
    {
        Point { x: self.y, y: self.x }
    }
}

/// A round occluder that never scores itself.
#[derive(Clone, Copy, Debug, PartialEq)]
pub struct Pillar<T> {
    pub center: Point<T>,
    pub radius: T,
}

impl<T: Copy> Pillar<T> {
    /// The pillar with the coordinates of its centre exchanged.
    pub open spec fn transposed(self) -> Pillar<T> {
        Pillar { center: self.center.transposed(), radius: self.radius }
    }

    /// Exchanges the coordinates of the centre.
    pub fn transpose(self) -> (r: Self)
        ensures
            r == self.transposed(),
    {
        Pillar { center: self.center.transpose(), radius: self.radius }
    }

    /// The centre of the pillar.
    pub fn point(&self) -> (p: Point<T>)
        ensures
            p == self.center,
    {
        self.center
    }
}

/// A listener with a taste for every instrument.
#[derive(Clone, Debug, PartialEq)]
pub struct Attendee<T> {
    pub x: T,
    pub y: T,
    pub tastes: Vec<T>,
}

/// What an attendee holds.
pub struct AttendeeView<T> {
    pub x: T,
    pub y: T,
    pub tastes: Seq<T>,
}

impl<T> AttendeeView<T> {
    /// The attendee with its coordinates exchanged.
    pub open spec fn transposed(self) -> AttendeeView<T> {
        AttendeeView { x: self.y, y: self.x, tastes: self.tastes }
    }
}

impl<T> View for Attendee<T> {
    type V = AttendeeView<T>;

    open spec fn view(&self) -> AttendeeView<T> {
        AttendeeView { x: self.x, y: self.y, tastes: self.tastes@ }
    }
}

impl<T: Copy> Attendee<T> {
    /// Exchanges the coordinates and keeps the tastes.
    pub fn transpose(self) -> (r: Self)
        ensures
            r@ == self@.transposed(),
    {
        Attendee { x: self.y, y: self.x, tastes: self.tastes }
    }

    /// Where the attendee stands.
    pub fn coord(&self) -> (p: Point<T>)
        ensures
            p == (Point { x: self.x, y: self.y }),
    {
        Point { x: self.x, y: self.y }
    }
}

/// A problem: the room, the stage, the instrument of every musician slot,
/// the attendees and the pillars. The type of the coordinates, radii and
/// tastes is left open; this module only moves such values around.
#[derive(Clone, Debug, PartialEq)]
pub struct Task<T> {
    pub room_width: T,
    pub room_height: T,
    pub stage_width: T,
    pub stage_height: T,
    pub stage_bottom_left: Point<T>,
    pub musicians: Vec<usize>,
    pub attendees: Vec<Attendee<T>>,
    pub pillars: Vec<Pillar<T>>,
}

/// What a task holds.
pub struct TaskView<T> {
    pub room_width: T,
    pub room_height: T,
    pub stage_width: T,
    pub stage_height: T,
    pub stage_bottom_left: Point<T>,
    pub musicians: Seq<usize>,
    pub attendees: Seq<AttendeeView<T>>,
    pub pillars: Seq<Pillar<T>>,
}

impl<T: Copy> TaskView<T> {
    /// The task with the two axes exchanged: widths become heights, and
    /// every position has its coordinates exchanged. Instruments, tastes
    /// and radii stay.
    pub open spec fn transposed(self) -> TaskView<T> {
        TaskView {
            room_width: self.room_height,
            room_height: self.room_width,
            stage_width: self.stage_height,
            stage_height: self.stage_width,
            stage_bottom_left: self.stage_bottom_left.transposed(),
            musicians: self.musicians,
            attendees: Seq::new(self.attendees.len(), |i: int| self.attendees[i].transposed()),
            pillars: Seq::new(self.pillars.len(), |i: int| self.pillars[i].transposed()),
        }
    }
}

/// Transposing twice gives the task back, exactly.
pub proof fn lemma_transpose_involution<T: Copy>(t: TaskView<T>)
    ensures
        t.transposed().transposed() == t,
{
    let back = t.transposed().transposed();
    assert(back.attendees =~= t.attendees);
    assert(back.pillars =~= t.pillars);
}

impl<T> View for Task<T> {
    type V = TaskView<T>;

    open spec fn view(&self) -> TaskView<T> {
        TaskView {
            room_width: self.room_width,
            room_height: self.room_height,
            stage_width: self.stage_width,
            stage_height: self.stage_height,
            stage_bottom_left: self.stage_bottom_left,
            musicians: self.musicians@,
            attendees: Seq::new(self.attendees@.len(), |i: int| self.attendees@[i]@),
            pillars: self.pillars@,
        }
    }
}

impl<T: Copy> Task<T> {
    /// Every attendee has a taste for every instrument that is played.
    pub open spec fn wf(&self) -> bool {
        forall|a: int, k: int|
            0 <= a < self.attendees@.len() && 0 <= k < self.musicians@.len()
                ==> #[trigger] self.musicians@[k] < (#[trigger] self.attendees@[a]).tastes@.len()
    }

    /// Number of instruments, read off the first attendee.
    pub open spec fn instruments(&self) -> nat {
        self.attendees@[0].tastes@.len()
    }

    /// The coordinate of the left border of the stage.
    pub fn stage_left(&self) -> (x: T)
        ensures
            x == self.stage_bottom_left.x,
    {
        self.stage_bottom_left.x
    }

    /// The coordinate of the bottom border of the stage.
    pub fn stage_bottom(&self) -> (y: T)
        ensures
            y == self.stage_bottom_left.y,
    {
        self.stage_bottom_left.y
    }

    /// Exchanges the two axes of the whole task.
    pub fn transpose(self) -> (r: Self)
        ensures
            r@ == self@.transposed(),
    {
        let ghost before = self@;
        let Task {
            room_width,
            room_height,
            stage_width,
            stage_height,
            stage_bottom_left,
            musicians,
            attendees,
            pillars,
        } = self;
        let mut attendees = attendees;
        let mut pillars = pillars;
        let ghost old_attendees = attendees@;
        let ghost old_pillars = pillars@;
        let mut i: usize = 0;
        while i < attendees.len()
            invariant
                i <= attendees.len(),
                attendees.len() == old_attendees.len(),
                forall|j: int| 0 <= j < i ==> attendees[j]@ == old_attendees[j]@.transposed(),
                forall|j: int| i <= j < attendees.len() ==> attendees[j] == old_attendees[j],
            decreases attendees.len() - i,
        {
            let x = attendees[i].x;
            let y = attendees[i].y;
            attendees[i].x = y;
            attendees[i].y = x;
            i += 1;
        }
        let mut k: usize = 0;
        while k < pillars.len()
            invariant
                k <= pillars.len(),
                pillars.len() == old_pillars.len(),
                forall|j: int| 0 <= j < k ==> pillars[j] == old_pillars[j].transposed(),
                forall|j: int| k <= j < pillars.len() ==> pillars[j] == old_pillars[j],
            decreases pillars.len() - k,
        {
            let p = pillars[k];
            pillars[k] = p.transpose();
            k += 1;
        }
        let r = Task {
            room_width: room_height,
            room_height: room_width,
            stage_width: stage_height,
            stage_height: stage_width,
            stage_bottom_left: stage_bottom_left.transpose(),
            musicians,
            attendees,
            pillars,
        };
        proof {
            assert(r@.attendees =~= before.transposed().attendees);
            assert(r@.pillars =~= before.transposed().pillars);
        }
        r
    }

    /// Number of instruments that the attendees have tastes for.
    pub fn instruments_len(&self) -> (n: usize)
        requires
            self.attendees@.len() > 0,
        ensures
            n == self.instruments(),
    {
        self.attendees[0].tastes.len()
    }

    /// Whether the closeness bonus for same-instrument neighbours applies:
    /// it does as soon as the room has a pillar.
    pub fn has_pillars(&self) -> (b: bool)
        ensures
            b == (self.pillars@.len() > 0),
    {
        self.pillars.len() > 0
    }

    /// The musician slots of every instrument, each list in ascending order.
    pub fn musician_by_instrument(&self) -> (res: Vec<Vec<usize>>)
        requires
            self.attendees@.len() > 0,
            self.wf(),
        ensures
            res.len() == self.instruments(),
            forall|i: int|
                0 <= i < res.len() ==> (#[trigger] res[i])@ == slots_of(self.musicians@, i),
    {
        let n = self.instruments_len();
        let mut res: Vec<Vec<usize>> = Vec::new();
        let mut i: usize = 0;
        while i < n
            invariant
                i <= n,
                res.len() == i,
                forall|j: int| 0 <= j < i ==> (#[trigger] res[j])@ == Seq::<usize>::empty(),
            decreases n - i,
        {
            res.push(Vec::new());
            i += 1;
        }
        proof {
            assert(self.musicians@.take(0) =~= Seq::<usize>::empty());
        }
        let mut k: usize = 0;
        while k < self.musicians.len()
            invariant
                k <= self.musicians.len(),
                res.len() == n,
                n == self.instruments(),
                self.attendees@.len() > 0,
                self.wf(),
                forall|j: int|
                    0 <= j < res.len() ==> (#[trigger] res[j])@ == slots_of(
                        self.musicians@.take(k as int),
                        j,
                    ),
            decreases self.musicians.len() - k,
        {
            let instrument = self.musicians[k];
            assert(self.musicians@[k as int] < self.attendees@[0].tastes@.len());
            let ghost before = res@;
            res[instrument].push(k);
            proof {
                let done = self.musicians@.take(k as int);
                let next = self.musicians@.take(k + 1);
                assert(next.drop_last() =~= done);
                assert forall|j: int| 0 <= j < res.len() implies (#[trigger] res[j])@ == slots_of(
                    next,
                    j,
                ) by {
                    assert(before[j]@ == slots_of(done, j));
                }
            }
            k += 1;
        }
        proof {
            assert(self.musicians@.take(k as int) =~= self.musicians@);
        }
        res
    }
}

/// A placement of the musicians with a volume for each.
#[derive(Clone, Debug, PartialEq)]
pub struct Solution<T> {
    pub placements: Vec<Point<T>>,
    pub volumes: Vec<T>,
}

/// What a solution holds.
pub struct SolutionView<T> {
    pub placements: Seq<Point<T>>,
    pub volumes: Seq<T>,
}

impl<T: Copy> SolutionView<T> {
    /// The solution with the coordinates of every placement exchanged.
    pub open spec fn transposed(self) -> SolutionView<T> {
        SolutionView {
            placements: Seq::new(self.placements.len(), |i: int| self.placements[i].transposed()),
            volumes: self.volumes,
        }
    }
}

/// Transposing a solution twice gives it back, exactly.
pub proof fn lemma_solution_transpose_involution<T: Copy>(s: SolutionView<T>)
    ensures
        s.transposed().transposed() == s,
{
    assert(s.transposed().transposed().placements =~= s.placements);
}

impl<T> View for Solution<T> {
    type V = SolutionView<T>;

    open spec fn view(&self) -> SolutionView<T> {
        SolutionView { placements: self.placements@, volumes: self.volumes@ }
    }
}

impl<T: Copy> Solution<T> {
    /// Exchanges the coordinates of every placement.
    pub fn transpose(self) -> (r: Self)
        ensures
            r@ == self@.transposed(),
    {
        let ghost before = self@;
        let Solution { placements, volumes } = self;
        let mut placements = placements;
        let ghost old_placements = placements@;
        let mut i: usize = 0;
        while i < placements.len()
            invariant
                i <= placements.len(),
                placements.len() == old_placements.len(),
                forall|j: int| 0 <= j < i ==> placements[j] == old_placements[j].transposed(),
                forall|j: int| i <= j < placements.len() ==> placements[j] == old_placements[j],
            decreases placements.len() - i,
        {
            let p = placements[i];
            placements[i] = Point { x: p.y, y: p.x };
            i += 1;
        }
        let r = Solution { placements, volumes };
        proof {
            assert(r@.placements =~= before.transposed().placements);
        }
        r
    }
}

/// The slots whose musician plays `instrument`, in ascending order.
pub open spec fn slots_of(musicians: Seq<usize>, instrument: int) -> Seq<usize>
    decreases musicians.len(),
{
    if musicians.len() == 0 {
        Seq::empty()
    } else if musicians.last() == instrument {
        slots_of(musicians.drop_last(), instrument).push((musicians.len() - 1) as usize)
    } else {
        slots_of(musicians.drop_last(), instrument)
    }
}

/// `slots_of` partitions the slots by instrument: a slot is listed under
/// `instrument` exactly if its musician plays it, and each list ascends.
pub proof fn lemma_slots_of(musicians: Seq<usize>, instrument: int)
    requires
        musicians.len() <= usize::MAX,
    ensures
        plays(musicians, instrument, slots_of(musicians, instrument)),
    decreases musicians.len(),
{
    let list = slots_of(musicians, instrument);
    if musicians.len() == 0 {
        assert forall|m: usize| !list.contains(m) by {
            if list.contains(m) {
                let q = choose|q: int| 0 <= q < list.len() && list[q] == m;
            }
        }
    } else {
        let rest = musicians.drop_last();
        let shorter = slots_of(rest, instrument);
        lemma_slots_of(rest, instrument);
        let top = (musicians.len() - 1) as usize;
        assert forall|m: usize| list.contains(m) <==> (m < musicians.len() && musicians[m as int]
            == instrument) by {
            if list.contains(m) {
                let q = choose|q: int| 0 <= q < list.len() && list[q] == m;
                if q < shorter.len() {
                    assert(shorter[q] == m);
                    assert(shorter.contains(m));
                    assert(rest[m as int] == musicians[m as int]);
                }
            }
            if m < musicians.len() && musicians[m as int] == instrument {
                if m < top {
                    assert(rest[m as int] == musicians[m as int]);
                    assert(shorter.contains(m));
                    let q = choose|q: int| 0 <= q < shorter.len() && shorter[q] == m;
                    assert(list[q] == m);
                } else {
                    assert(list[shorter.len() as int] == m);
                }
            }
        }
        assert forall|a: int, b: int| 0 <= a < b < list.len() implies list[a] < list[b] by {
            if b == shorter.len() {
                assert(shorter.contains(shorter[a]));
            }
        }
    }
}

/// `list` names, in ascending order, exactly the slots whose musician plays
/// `instrument`.
pub open spec fn plays(musicians: Seq<usize>, instrument: int, list: Seq<usize>) -> bool {
    &&& forall|a: int, b: int| 0 <= a < b < list.len() ==> list[a] < list[b]
    &&& forall|m: usize|
        list.contains(m) <==> (m < musicians.len() && musicians[m as int] == instrument)
}

/// Every attendee likes the instruments `i` and `j` the same.
pub open spec fn same_taste(tastes: Seq<Seq<i64>>, i: int, j: int) -> bool {
    forall|a: int| 0 <= a < tastes.len() ==> (#[trigger] tastes[a])[i] == tastes[a][j]
}

/// Pair `x` comes before pair `y` in lexicographic order.
pub open spec fn pair_before(x: (usize, usize), y: (usize, usize)) -> bool {
    x.0 < y.0 || (x.0 == y.0 && x.1 < y.1)
}

/// Executable form of [`same_taste`].
fn tastes_agree(tastes: &Vec<Vec<i64>>, i: usize, j: usize, instruments: usize) -> (same: bool)
    requires
        i < instruments,
        j < instruments,
        forall|a: int| 0 <= a < tastes.len() ==> (#[trigger] tastes[a]).len() == instruments,
    ensures
        same == same_taste(Seq::new(tastes@.len(), |a: int| tastes@[a]@), i as int, j as int),
{
    let ghost rows = Seq::new(tastes@.len(), |a: int| tastes@[a]@);
    let mut a: usize = 0;
    while a < tastes.len()
        invariant
            a <= tastes.len(),
            i < instruments,
            j < instruments,
            rows == Seq::new(tastes@.len(), |a: int| tastes@[a]@),
            forall|b: int| 0 <= b < tastes.len() ==> (#[trigger] tastes[b]).len() == instruments,
            forall|b: int| 0 <= b < a ==> (#[trigger] rows[b])[i as int] == rows[b][j as int],
        decreases tastes.len() - a,
    {
        if tastes[a][i] != tastes[a][j] {
            assert(rows[a as int][i as int] != rows[a as int][j as int]);
            return false;
        }
        a += 1;
    }
    true
}

/// The pair `(x, y)` is one that no attendee tells apart and comes before
/// the pair `(i, j)`.
spec fn found_before(
    rows: Seq<Seq<i64>>,
    instruments: usize,
    i: usize,
    j: usize,
    x: usize,
    y: usize,
) -> bool {
    x < y < instruments && same_taste(rows, x as int, y as int) && pair_before((x, y), (i, j))
}

/// Finds the pairs of instruments that no attendee tells apart: every
/// attendee has the same taste for both. `tastes[a][i]` is a key of the
/// taste of attendee `a` for instrument `i`. The pairs come in lexicographic
/// order, the smaller instrument first in each.
pub fn simplify(tastes: &Vec<Vec<i64>>, instruments: usize) -> (pairs: Vec<(usize, usize)>)
    requires
        forall|a: int| 0 <= a < tastes.len() ==> (#[trigger] tastes[a]).len() == instruments,
    ensures
        forall|p: int, q: int|
            0 <= p < q < pairs.len() ==> pair_before(#[trigger] pairs[p], #[trigger] pairs[q]),
        forall|i: usize, j: usize|
            #[trigger] pairs@.contains((i, j)) <==> (i < j < instruments && same_taste(
                Seq::new(tastes@.len(), |a: int| tastes@[a]@),
                i as int,
                j as int,
            )),
{
    let ghost rows = Seq::new(tastes@.len(), |a: int| tastes@[a]@);
    let mut pairs: Vec<(usize, usize)> = Vec::new();
    let mut i: usize = 0;
    proof {
        assert forall|x: usize, y: usize| #[trigger] pairs@.contains((x, y)) <==> found_before(
            rows,
            instruments,
            0,
            0,
            x,
            y,
        ) by {
            if pairs@.contains((x, y)) {
                let p = choose|p: int| 0 <= p < pairs@.len() && pairs@[p] == (x, y);
            }
        }
    }
    while i < instruments
        invariant
            i <= instruments,
            rows == Seq::new(tastes@.len(), |a: int| tastes@[a]@),
            forall|a: int| 0 <= a < tastes.len() ==> (#[trigger] tastes[a]).len() == instruments,
            forall|p: int, q: int|
                0 <= p < q < pairs.len() ==> pair_before(#[trigger] pairs[p], #[trigger] pairs[q]),
            forall|p: int| 0 <= p < pairs.len() ==> pair_before(#[trigger] pairs[p], (i, 0usize)),
            forall|x: usize, y: usize|
                #[trigger] pairs@.contains((x, y)) <==> found_before(
                    rows,
                    instruments,
                    i,
                    0,
                    x,
                    y,
                ),
        decreases instruments - i,
    {
        let mut j: usize = i + 1;
        proof {
            assert forall|x: usize, y: usize| #[trigger] pairs@.contains((x, y)) <==> found_before(
                rows,
                instruments,
                i,
                j,
                x,
                y,
            ) by {
                assert(found_before(rows, instruments, i, j, x, y) == found_before(
                    rows,
                    instruments,
                    i,
                    0,
                    x,
                    y,
                ));
            }
        }
        while j < instruments
            invariant
                i < instruments,
                i < j <= instruments,
                rows == Seq::new(tastes@.len(), |a: int| tastes@[a]@),
                forall|a: int|
                    0 <= a < tastes.len() ==> (#[trigger] tastes[a]).len() == instruments,
                forall|p: int, q: int|
                    0 <= p < q < pairs.len() ==> pair_before(
                        #[trigger] pairs[p],
                        #[trigger] pairs[q],
                    ),
                forall|p: int| 0 <= p < pairs.len() ==> pair_before(#[trigger] pairs[p], (i, j)),
                forall|x: usize, y: usize|
                    #[trigger] pairs@.contains((x, y)) <==> found_before(
                        rows,
                        instruments,
                        i,
                        j,
                        x,
                        y,
                    ),
            decreases instruments - j,
        {
            let ghost before = pairs@;
            let same = tastes_agree(tastes, i, j, instruments);
            if same {
                pairs.push((i, j));
            }
            proof {
                let after = pairs@;
                let next = (j + 1) as usize;
                assert forall|x: usize, y: usize| #[trigger] after.contains((x, y))
                    <==> found_before(rows, instruments, i, next, x, y) by {
                    assert(before.contains((x, y)) <==> found_before(
                        rows,
                        instruments,
                        i,
                        j,
                        x,
                        y,
                    ));
                    if after.contains((x, y)) {
                        let p = choose|p: int| 0 <= p < after.len() && after[p] == (x, y);
                        if p < before.len() {
                            assert(before[p] == (x, y));
                            assert(before.contains((x, y)));
                        }
                    }
                    if before.contains((x, y)) {
                        let p = choose|p: int| 0 <= p < before.len() && before[p] == (x, y);
                        assert(after[p] == (x, y));
                    }
                    if x == i && y == j && same {
                        assert(after[before.len() as int] == (x, y));
                    }
                }
                assert forall|p: int, q: int| 0 <= p < q < after.len() implies pair_before(
                    #[trigger] after[p],
                    #[trigger] after[q],
                ) by {
                    if q < before.len() {
                        assert(after[p] == before[p] && after[q] == before[q]);
                    } else {
                        assert(after[p] == before[p]);
                        assert(pair_before(before[p], (i, j)));
                    }
                }
                assert forall|p: int| 0 <= p < after.len() implies pair_before(
                    #[trigger] after[p],
                    (i, next),
                ) by {
                    if p < before.len() {
                        assert(after[p] == before[p]);
                        assert(pair_before(before[p], (i, j)));
                    }
                }
            }
            j += 1;
        }
        proof {
            let next = (i + 1) as usize;
            assert forall|x: usize, y: usize| #[trigger] pairs@.contains((x, y)) <==> found_before(
                rows,
                instruments,
                next,
                0,
                x,
                y,
            ) by {
                assert(pairs@.contains((x, y)) <==> found_before(rows, instruments, i, j, x, y));
            }
            assert forall|p: int| 0 <= p < pairs.len() implies pair_before(
                #[trigger] pairs[p],
                (next, 0usize),
            ) by {
                assert(pair_before(pairs[p], (i, j)));
            }
        }
        i += 1;
    }
    proof {
        assert forall|x: usize, y: usize| #[trigger] pairs@.contains((x, y)) <==> (x < y
            < instruments && same_taste(rows, x as int, y as int)) by {
            assert(pairs@.contains((x, y)) <==> found_before(rows, instruments, i, 0, x, y));
        }
    }
    pairs
}

} // verus!
