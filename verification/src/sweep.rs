//! The angular sweep: which viewers around one origin have a free line of
//! sight, given the angular interval and the distance of every obstacle.
//!
//! Angles and distances are integer keys. Any order-preserving encoding of
//! the real angles and distances gives the same answer, because the sweep
//! only compares them.

use crate::active::{ActiveSet, Entry};
use crate::sorting::{ascending, sort_triples, triple_le, triple_lt, Triple};
use vstd::prelude::*;

verus! {

/// An occluder as seen from the origin: it hides every direction from
/// `enter` up to, but not including, `exit`. When `exit < enter` the interval
/// runs through the seam where the largest angle meets the smallest.
#[derive(Clone, Copy, Debug)]
pub struct Obstacle {
    pub enter: i64,
    pub exit: i64,
    pub dist: i64,
}

/// A viewer as seen from the origin.
#[derive(Clone, Copy, Debug)]
pub struct Viewer {
    pub angle: i64,
    pub dist: i64,
}

/// Whether the direction `angle` falls inside the obstacle's interval.
pub open spec fn covers(o: Obstacle, angle: i64) -> bool {
    if o.enter <= o.exit {
        o.enter <= angle < o.exit
    } else {
        angle < o.exit || o.enter <= angle
    }
}

/// Whether some obstacle covers the viewer's direction and is no farther
/// from the origin than the viewer.
pub open spec fn blocked(obstacles: Seq<Obstacle>, v: Viewer) -> bool {
    exists|j: int|
        0 <= j < obstacles.len() && covers(#[trigger] obstacles[j], v.angle) && obstacles[j].dist
            <= v.dist
}

/// The sweep event at which obstacle `j` starts to hide directions.
spec fn enter_mark(o: Seq<Obstacle>, j: int) -> Triple {
    (o[j].enter, 0usize, j as usize)
}

/// The sweep event at which obstacle `j` stops hiding directions.
spec fn exit_mark(o: Seq<Obstacle>, j: int) -> Triple {
    (o[j].exit, 1usize, j as usize)
}

/// The sweep event at which viewer `i` is examined. At equal angles it
/// sorts after every obstacle event.
spec fn look_mark(v: Seq<Viewer>, i: int) -> Triple {
    (v[i].angle, 2usize, i as usize)
}

/// `m` is one of the events of this scene.
spec fn is_mark(o: Seq<Obstacle>, v: Seq<Viewer>, m: Triple) -> bool {
    ||| (m.1 == 0 && m.2 < o.len() && m == enter_mark(o, m.2 as int))
    ||| (m.1 == 1 && m.2 < o.len() && m == exit_mark(o, m.2 as int))
    ||| (m.1 == 2 && m.2 < v.len() && m == look_mark(v, m.2 as int))
}

/// `s` holds every event of the scene once and nothing else.
spec fn holds_all_marks(o: Seq<Obstacle>, v: Seq<Viewer>, s: Seq<Triple>) -> bool {
    &&& o.len() <= usize::MAX
    &&& v.len() <= usize::MAX
    &&& s.no_duplicates()
    &&& forall|k: int| 0 <= k < s.len() ==> is_mark(o, v, #[trigger] s[k])
    &&& forall|j: int| 0 <= j < o.len() ==> s.contains(#[trigger] enter_mark(o, j))
    &&& forall|j: int| 0 <= j < o.len() ==> s.contains(#[trigger] exit_mark(o, j))
    &&& forall|i: int| 0 <= i < v.len() ==> s.contains(#[trigger] look_mark(v, i))
}

/// How often obstacle `j` is open once the events in `done` have been
/// applied: one for an interval through the seam, plus one if it was
/// entered, minus one if it was left.
spec fn open_count(o: Seq<Obstacle>, j: int, done: Seq<Triple>) -> int {
    (if o[j].exit < o[j].enter { 1int } else { 0int })
        + (if done.contains(enter_mark(o, j)) { 1int } else { 0int })
        - (if done.contains(exit_mark(o, j)) { 1int } else { 0int })
}

/// In a duplicate-free ascending sequence, the elements before position `p`
/// are exactly the elements smaller than `s[p]`.
proof fn lemma_prefix_membership(s: Seq<Triple>, p: int, x: Triple)
    requires
        ascending(s),
        s.no_duplicates(),
        0 <= p < s.len(),
        s.contains(x),
    ensures
        s.take(p).contains(x) <==> triple_lt(x, s[p]),
        s.take(p + 1).contains(x) <==> (triple_lt(x, s[p]) || x == s[p]),
{
    let q = choose|q: int| 0 <= q < s.len() && s[q] == x;
    let head = s.take(p);
    let upto = s.take(p + 1);
    if head.contains(x) {
        let r = choose|r: int| 0 <= r < head.len() && head[r] == x;
        assert(s[r] == x);
        assert(r == q);
    }
    if upto.contains(x) {
        let r = choose|r: int| 0 <= r < upto.len() && upto[r] == x;
        assert(s[r] == x);
        assert(r == q);
    }
    if q < p {
        assert(head[q] == x);
        assert(upto[q] == x);
        assert(triple_le(s[q], s[p]));
    } else if q == p {
        assert(upto[q] == x);
    } else {
        assert(triple_le(s[p], s[q]));
    }
}

/// Collects the events of a scene in input order.
fn collect_marks(obstacles: &Vec<Obstacle>, viewers: &Vec<Viewer>) -> (marks: Vec<Triple>)
    ensures
        holds_all_marks(obstacles@, viewers@, marks@),
{
    let mut marks: Vec<Triple> = Vec::new();
    let mut j: usize = 0;
    while j < obstacles.len()
        invariant
            j <= obstacles.len(),
            marks@.no_duplicates(),
            forall|k: int|
                0 <= k < marks@.len() ==> is_mark(obstacles@, viewers@, #[trigger] marks@[k])
                    && marks@[k].1 < 2 && marks@[k].2 < j,
            forall|a: int| 0 <= a < j ==> marks@.contains(#[trigger] enter_mark(obstacles@, a)),
            forall|a: int| 0 <= a < j ==> marks@.contains(#[trigger] exit_mark(obstacles@, a)),
        decreases obstacles.len() - j,
    {
        let o = obstacles[j];
        let ghost before = marks@;
        marks.push((o.enter, 0usize, j));
        marks.push((o.exit, 1usize, j));
        proof {
            let after = marks@;
            let n = before.len() as int;
            assert(after[n] == enter_mark(obstacles@, j as int));
            assert(after[n + 1] == exit_mark(obstacles@, j as int));
            assert forall|a: int| 0 <= a < j + 1 implies after.contains(
                #[trigger] enter_mark(obstacles@, a),
            ) by {
                if a < j {
                    let k = choose|k: int|
                        0 <= k < before.len() && before[k] == enter_mark(obstacles@, a);
                    assert(after[k] == enter_mark(obstacles@, a));
                }
            }
            assert forall|a: int| 0 <= a < j + 1 implies after.contains(
                #[trigger] exit_mark(obstacles@, a),
            ) by {
                if a < j {
                    let k = choose|k: int|
                        0 <= k < before.len() && before[k] == exit_mark(obstacles@, a);
                    assert(after[k] == exit_mark(obstacles@, a));
                }
            }
            assert forall|k: int| 0 <= k < after.len() implies is_mark(
                obstacles@,
                viewers@,
                #[trigger] after[k],
            ) && after[k].1 < 2 && after[k].2 < j + 1 by {
                if k < n {
                    assert(after[k] == before[k]);
                }
            }
            assert forall|a: int, b: int| 0 <= a < after.len() && 0 <= b < after.len() && a
                != b implies after[a] != after[b] by {
                if a < n {
                    assert(after[a] == before[a]);
                }
                if b < n {
                    assert(after[b] == before[b]);
                }
            }
        }
        j += 1;
    }
    let mut i: usize = 0;
    while i < viewers.len()
        invariant
            i <= viewers.len(),
            marks@.no_duplicates(),
            forall|k: int|
                0 <= k < marks@.len() ==> is_mark(obstacles@, viewers@, #[trigger] marks@[k])
                    && (marks@[k].1 == 2 ==> marks@[k].2 < i),
            forall|a: int|
                0 <= a < obstacles.len() ==> marks@.contains(#[trigger] enter_mark(obstacles@, a)),
            forall|a: int|
                0 <= a < obstacles.len() ==> marks@.contains(#[trigger] exit_mark(obstacles@, a)),
            forall|a: int| 0 <= a < i ==> marks@.contains(#[trigger] look_mark(viewers@, a)),
        decreases viewers.len() - i,
    {
        let v = viewers[i];
        let ghost before = marks@;
        marks.push((v.angle, 2usize, i));
        proof {
            let after = marks@;
            let n = before.len() as int;
            assert(after[n] == look_mark(viewers@, i as int));
            assert forall|a: int| 0 <= a < obstacles.len() implies after.contains(
                #[trigger] enter_mark(obstacles@, a),
            ) by {
                let k = choose|k: int|
                    0 <= k < before.len() && before[k] == enter_mark(obstacles@, a);
                assert(after[k] == enter_mark(obstacles@, a));
            }
            assert forall|a: int| 0 <= a < obstacles.len() implies after.contains(
                #[trigger] exit_mark(obstacles@, a),
            ) by {
                let k = choose|k: int|
                    0 <= k < before.len() && before[k] == exit_mark(obstacles@, a);
                assert(after[k] == exit_mark(obstacles@, a));
            }
            assert forall|a: int| 0 <= a < i + 1 implies after.contains(
                #[trigger] look_mark(viewers@, a),
            ) by {
                if a < i {
                    let k = choose|k: int|
                        0 <= k < before.len() && before[k] == look_mark(viewers@, a);
                    assert(after[k] == look_mark(viewers@, a));
                }
            }
            assert forall|k: int| 0 <= k < after.len() implies is_mark(
                obstacles@,
                viewers@,
                #[trigger] after[k],
            ) && (after[k].1 == 2 ==> after[k].2 < i + 1) by {
                if k < n {
                    assert(after[k] == before[k]);
                }
            }
            assert forall|a: int, b: int| 0 <= a < after.len() && 0 <= b < after.len() && a
                != b implies after[a] != after[b] by {
                if a < n {
                    assert(after[a] == before[a]);
                }
                if b < n {
                    assert(after[b] == before[b]);
                }
            }
        }
        i += 1;
    }
    marks
}

/// Sorting keeps the set of events and makes it ascending.
proof fn lemma_sorted_marks(o: Seq<Obstacle>, v: Seq<Viewer>, marks: Seq<Triple>, s: Seq<Triple>)
    requires
        holds_all_marks(o, v, marks),
        s.to_multiset() == marks.to_multiset(),
    ensures
        holds_all_marks(o, v, s),
{
    broadcast use vstd::seq_lib::group_to_multiset_ensures;

    marks.lemma_multiset_has_no_duplicates();
    s.lemma_multiset_has_no_duplicates_conv();
    assert forall|x: Triple| s.contains(x) <==> marks.contains(x) by {
        vstd::seq_lib::to_multiset_contains(s, x);
        vstd::seq_lib::to_multiset_contains(marks, x);
    }
    assert forall|j: int| 0 <= j < o.len() implies s.contains(#[trigger] enter_mark(o, j)) by {
        assert(marks.contains(enter_mark(o, j)));
    }
    assert forall|j: int| 0 <= j < o.len() implies s.contains(#[trigger] exit_mark(o, j)) by {
        assert(marks.contains(exit_mark(o, j)));
    }
    assert forall|i: int| 0 <= i < v.len() implies s.contains(#[trigger] look_mark(v, i)) by {
        assert(marks.contains(look_mark(v, i)));
    }
    assert forall|k: int| 0 <= k < s.len() implies is_mark(o, v, #[trigger] s[k]) by {
        assert(s.contains(s[k]));
        let q = choose|q: int| 0 <= q < marks.len() && marks[q] == s[k];
        assert(is_mark(o, v, marks[q]));
    }
}

/// When the sweep reaches a viewer, exactly the obstacles that cover the
/// viewer's direction are open.
proof fn lemma_open_at_look(o: Seq<Obstacle>, v: Seq<Viewer>, s: Seq<Triple>, p: int, j: int)
    requires
        ascending(s),
        holds_all_marks(o, v, s),
        0 <= p < s.len(),
        s[p].1 == 2,
        0 <= j < o.len(),
    ensures
        open_count(o, j, s.take(p)) == 1 <==> covers(o[j], s[p].0),
        open_count(o, j, s.take(p + 1)) == open_count(o, j, s.take(p)),
{
    lemma_prefix_membership(s, p, enter_mark(o, j));
    lemma_prefix_membership(s, p, exit_mark(o, j));
}

/// Applying the enter event of obstacle `j` opens `j` and leaves the others
/// as they were.
proof fn lemma_open_at_enter(o: Seq<Obstacle>, v: Seq<Viewer>, s: Seq<Triple>, p: int, j: int)
    requires
        ascending(s),
        holds_all_marks(o, v, s),
        0 <= p < s.len(),
        s[p].1 == 0,
        0 <= j < o.len(),
    ensures
        j == s[p].2 ==> open_count(o, j, s.take(p)) == 0 && open_count(o, j, s.take(p + 1)) == 1,
        j != s[p].2 ==> open_count(o, j, s.take(p + 1)) == open_count(o, j, s.take(p)),
{
    assert(is_mark(o, v, s[p]));
    lemma_prefix_membership(s, p, enter_mark(o, j));
    lemma_prefix_membership(s, p, exit_mark(o, j));
}

/// Applying the exit event of obstacle `j` closes `j` and leaves the others
/// as they were.
proof fn lemma_open_at_exit(o: Seq<Obstacle>, v: Seq<Viewer>, s: Seq<Triple>, p: int, j: int)
    requires
        ascending(s),
        holds_all_marks(o, v, s),
        0 <= p < s.len(),
        s[p].1 == 1,
        0 <= j < o.len(),
    ensures
        j == s[p].2 ==> open_count(o, j, s.take(p)) == 1 && open_count(o, j, s.take(p + 1)) == 0,
        j != s[p].2 ==> open_count(o, j, s.take(p + 1)) == open_count(o, j, s.take(p)),
{
    assert(is_mark(o, v, s[p]));
    lemma_prefix_membership(s, p, enter_mark(o, j));
    lemma_prefix_membership(s, p, exit_mark(o, j));
}

/// The active set holds exactly the open obstacles, each under its distance.
spec fn tracks(active: ActiveSet, o: Seq<Obstacle>, done: Seq<Triple>) -> bool {
    &&& active.wf()
    &&& forall|e: Entry| #[trigger] active.has(e) ==> e.1 < o.len() && e.0 == o[e.1 as int].dist
    &&& forall|j: int|
        0 <= j < o.len() ==> (active.has((#[trigger] o[j].dist, j as usize)) <==> open_count(
            o,
            j,
            done,
        ) == 1)
}

/// For one origin, decides for every viewer whether its line of sight is
/// free. `seen[i]` is false exactly when some obstacle covers the direction
/// of viewer `i` and lies no farther from the origin than the viewer.
pub fn sweep(obstacles: &Vec<Obstacle>, viewers: &Vec<Viewer>) -> (seen: Vec<bool>)
    ensures
        seen.len() == viewers.len(),
        forall|i: int| 0 <= i < viewers.len() ==> seen[i] == !blocked(obstacles@, viewers[i]),
{
    let marks = collect_marks(obstacles, viewers);
    let sorted = sort_triples(&marks);
    proof {
        lemma_sorted_marks(obstacles@, viewers@, marks@, sorted@);
    }
    let mut seen: Vec<bool> = Vec::new();
    let mut i: usize = 0;
    while i < viewers.len()
        invariant
            i <= viewers.len(),
            seen.len() == i,
        decreases viewers.len() - i,
    {
        seen.push(true);
        i += 1;
    }
    let mut active = ActiveSet::new();
    proof {
        assert(sorted@.take(0) =~= Seq::<Triple>::empty());
    }
    let mut j: usize = 0;
    while j < obstacles.len()
        invariant
            j <= obstacles.len(),
            active.wf(),
            forall|e: Entry|
                #[trigger] active.has(e) ==> e.1 < j && e.0 == obstacles@[e.1 as int].dist
                    && obstacles@[e.1 as int].exit < obstacles@[e.1 as int].enter,
            forall|a: int|
                0 <= a < j && obstacles@[a].exit < obstacles@[a].enter ==> active.has(
                    (#[trigger] obstacles@[a].dist, a as usize),
                ),
        decreases obstacles.len() - j,
    {
        let o = obstacles[j];
        if o.exit < o.enter {
            let ghost before = active;
            proof {
                assert forall|d: i64| !active.has((d, j)) by {
                    if active.has((d, j)) {
                        assert((d, j).1 < j);
                    }
                }
            }
            active.insert((o.dist, j));
            assert forall|a: int|
                0 <= a < j + 1 && obstacles@[a].exit < obstacles@[a].enter implies active.has(
                (#[trigger] obstacles@[a].dist, a as usize),
            ) by {
                if a < j {
                    assert(before.has((obstacles@[a].dist, a as usize)));
                }
            }
        }
        j += 1;
    }
    proof {
        let none = sorted@.take(0);
        assert forall|a: int| 0 <= a < obstacles@.len() implies (active.has(
            (#[trigger] obstacles@[a].dist, a as usize),
        ) <==> open_count(obstacles@, a, none) == 1) by {
            assert(!none.contains(enter_mark(obstacles@, a)));
            assert(!none.contains(exit_mark(obstacles@, a)));
            if active.has((obstacles@[a].dist, a as usize)) {
                assert(obstacles@[a].exit < obstacles@[a].enter);
            }
        }
    }
    let mut p: usize = 0;
    while p < sorted.len()
        invariant
            p <= sorted.len(),
            ascending(sorted@),
            holds_all_marks(obstacles@, viewers@, sorted@),
            seen.len() == viewers.len(),
            tracks(active, obstacles@, sorted@.take(p as int)),
            forall|i: int|
                0 <= i < viewers.len() && sorted@.take(p as int).contains(
                    #[trigger] look_mark(viewers@, i),
                ) ==> seen[i] == !blocked(obstacles@, viewers[i]),
        decreases sorted.len() - p,
    {
        let m = sorted[p];
        let ghost done = sorted@.take(p as int);
        let ghost next = sorted@.take(p + 1);
        proof {
            assert(is_mark(obstacles@, viewers@, sorted@[p as int]));
        }
        if m.1 == 0 {
            let e: Entry = (obstacles[m.2].dist, m.2);
            proof {
                lemma_open_at_enter(obstacles@, viewers@, sorted@, p as int, m.2 as int);
                assert forall|d: i64| !active.has((d, m.2)) by {
                    if active.has((d, m.2)) {
                        assert((d, m.2).0 == obstacles@[m.2 as int].dist);
                    }
                }
            }
            let ghost before = active;
            active.insert(e);
            proof {
                assert forall|j: int| 0 <= j < obstacles@.len() implies (active.has(
                    (#[trigger] obstacles@[j].dist, j as usize),
                ) <==> open_count(obstacles@, j, next) == 1) by {
                    lemma_open_at_enter(obstacles@, viewers@, sorted@, p as int, j);
                    assert(before.has((obstacles@[j].dist, j as usize)) <==> open_count(
                        obstacles@,
                        j,
                        done,
                    ) == 1);
                }
                assert forall|i: int|
                    0 <= i < viewers.len() && next.contains(
                        #[trigger] look_mark(viewers@, i),
                    ) implies seen[i] == !blocked(obstacles@, viewers[i]) by {
                    lemma_prefix_membership(sorted@, p as int, look_mark(viewers@, i));
                }
            }
        } else if m.1 == 1 {
            let e: Entry = (obstacles[m.2].dist, m.2);
            proof {
                lemma_open_at_exit(obstacles@, viewers@, sorted@, p as int, m.2 as int);
            }
            let ghost before = active;
            active.remove(e);
            proof {
                assert forall|j: int| 0 <= j < obstacles@.len() implies (active.has(
                    (#[trigger] obstacles@[j].dist, j as usize),
                ) <==> open_count(obstacles@, j, next) == 1) by {
                    lemma_open_at_exit(obstacles@, viewers@, sorted@, p as int, j);
                    assert(before.has((obstacles@[j].dist, j as usize)) <==> open_count(
                        obstacles@,
                        j,
                        done,
                    ) == 1);
                }
                assert forall|i: int|
                    0 <= i < viewers.len() && next.contains(
                        #[trigger] look_mark(viewers@, i),
                    ) implies seen[i] == !blocked(obstacles@, viewers[i]) by {
                    lemma_prefix_membership(sorted@, p as int, look_mark(viewers@, i));
                }
            }
        } else {
            let v = viewers[m.2];
            let ghost before = active;
            let hit = active.reaches(v.dist);
            let ghost old_seen = seen@;
            seen.set(m.2, !hit);
            proof {
                assert forall|j: int| 0 <= j < obstacles@.len() implies (active.has(
                    (#[trigger] obstacles@[j].dist, j as usize),
                ) <==> open_count(obstacles@, j, done) == 1) by {
                    assert(before.has((obstacles@[j].dist, j as usize)) <==> open_count(
                        obstacles@,
                        j,
                        done,
                    ) == 1);
                }
                if hit {
                    let e = choose|e: Entry| before.has(e) && e.0 <= v.dist;
                    assert(active.has(e));
                    let j = e.1 as int;
                    assert(e == (obstacles@[j].dist, j as usize));
                    lemma_open_at_look(obstacles@, viewers@, sorted@, p as int, j);
                    assert(covers(obstacles@[j], v.angle) && obstacles@[j].dist <= v.dist);
                }
                if blocked(obstacles@, v) {
                    let j = choose|j: int|
                        0 <= j < obstacles@.len() && covers(#[trigger] obstacles@[j], v.angle)
                            && obstacles@[j].dist <= v.dist;
                    lemma_open_at_look(obstacles@, viewers@, sorted@, p as int, j);
                    assert(active.has((obstacles@[j].dist, j as usize)));
                }
                assert forall|j: int| 0 <= j < obstacles@.len() implies (active.has(
                    (#[trigger] obstacles@[j].dist, j as usize),
                ) <==> open_count(obstacles@, j, next) == 1) by {
                    lemma_open_at_look(obstacles@, viewers@, sorted@, p as int, j);
                }
                assert forall|i: int|
                    0 <= i < viewers.len() && next.contains(
                        #[trigger] look_mark(viewers@, i),
                    ) implies seen[i] == !blocked(obstacles@, viewers[i]) by {
                    lemma_prefix_membership(sorted@, p as int, look_mark(viewers@, i));
                    if i != m.2 {
                        assert(seen[i] == old_seen[i]);
                    }
                }
            }
        }
        p += 1;
    }
    proof {
        assert(sorted@.take(p as int) =~= sorted@);
        assert forall|i: int| 0 <= i < viewers.len() implies seen[i] == !blocked(
            obstacles@,
            viewers[i],
        ) by {
            assert(sorted@.contains(look_mark(viewers@, i)));
        }
    }
    seen
}

} // verus!
