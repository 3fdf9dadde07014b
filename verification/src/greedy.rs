//! Greedy reassignment of musicians to the slots of a solution.
//!
//! Every pair of an instrument and a slot has a value: what the attendees
//! that hear the slot would give to a musician of that instrument standing
//! there. The pairs are served from the most to the least valuable; a pair
//! that meets a free slot and a musician of its instrument who has not been
//! placed yet puts that musician on that slot.

use crate::model::{slots_of, Point, Solution, Task};
use crate::score::rows_of;
use crate::sorting::{sort_triples, triple_order, Triple};
use vstd::prelude::*;

verus! {

/// Progress of the assignment.
pub struct Assignment {
    /// For every slot index, the slot whose position the musician of that
    /// index takes over.
    pub source: Seq<usize>,
    /// Which slots have been handed out.
    pub picked: Seq<bool>,
    /// For every instrument, the musicians that wait for a slot; the last
    /// one is served first.
    pub free: Seq<Seq<usize>>,
}

/// Before the first pair is served every musician stays where it is, no slot
/// is taken and all musicians wait.
pub open spec fn start(musicians: Seq<usize>, instruments: nat, slots: nat) -> Assignment {
    Assignment {
        source: Seq::new(slots, |m: int| m as usize),
        picked: Seq::new(slots, |p: int| false),
        free: Seq::new(instruments, |i: int| slots_of(musicians, i)),
    }
}

/// Serves one pair `(value, instrument, slot)`.
pub open spec fn serve(st: Assignment, c: Triple) -> Assignment {
    let instrument = c.1 as int;
    let slot = c.2 as int;
    if st.picked[slot] || st.free[instrument].len() == 0 {
        st
    } else {
        Assignment {
            source: st.source.update(st.free[instrument].last() as int, c.2),
            picked: st.picked.update(slot, true),
            free: st.free.update(instrument, st.free[instrument].drop_last()),
        }
    }
}

/// Serves the pairs of an ascending sequence from its end to its start, that
/// is in descending order.
pub open spec fn serve_all(st: Assignment, order: Seq<Triple>) -> Assignment
    decreases order.len(),
{
    if order.len() == 0 {
        st
    } else {
        serve_all(serve(st, order.last()), order.drop_last())
    }
}

/// The pairs of one instrument, in slot order.
pub open spec fn row_candidates(row: Seq<i64>, instrument: usize) -> Seq<Triple> {
    Seq::new(row.len(), |p: int| (row[p], instrument, p as usize))
}

/// All pairs, instrument by instrument.
pub open spec fn candidates(values: Seq<Seq<i64>>) -> Seq<Triple>
    decreases values.len(),
{
    if values.len() == 0 {
        Seq::empty()
    } else {
        candidates(values.drop_last()) + row_candidates(
            values.last(),
            (values.len() - 1) as usize,
        )
    }
}

/// The assignment that the greedy rule arrives at.
pub open spec fn greedy_assignment(
    musicians: Seq<usize>,
    values: Seq<Seq<i64>>,
    slots: nat,
) -> Seq<usize> {
    serve_all(
        start(musicians, values.len(), slots),
        candidates(values).sort_by(triple_order()),
    ).source
}

/// The views of the waiting lists.
spec fn lists_of(m: &Vec<Vec<usize>>) -> Seq<Seq<usize>> {
    Seq::new(m@.len(), |a: int| m@[a]@)
}

/// Every pair names an instrument below `instruments` and a slot below
/// `slots`.
spec fn in_range(order: Seq<Triple>, instruments: nat, slots: nat) -> bool {
    forall|t: int| 0 <= t < order.len() ==> (#[trigger] order[t]).1 < instruments && order[t].2 < slots
}

/// Every pair of the value matrix is in range.
proof fn lemma_candidates_in_range(values: Seq<Seq<i64>>, slots: nat)
    requires
        values.len() <= usize::MAX,
        slots <= usize::MAX,
        forall|i: int| 0 <= i < values.len() ==> (#[trigger] values[i]).len() == slots,
    ensures
        in_range(candidates(values), values.len(), slots),
    decreases values.len(),
{
    if values.len() > 0 {
        let rest = values.drop_last();
        assert forall|i: int| 0 <= i < rest.len() implies (#[trigger] rest[i]).len() == slots by {
            assert(rest[i] == values[i]);
        }
        lemma_candidates_in_range(rest, slots);
        let head = candidates(rest);
        let row = row_candidates(values.last(), (values.len() - 1) as usize);
        let all = candidates(values);
        assert forall|t: int| 0 <= t < all.len() implies (#[trigger] all[t]).1 < values.len()
            && all[t].2 < slots by {
            if t < head.len() {
                assert(all[t] == head[t]);
            } else {
                assert(all[t] == row[t - head.len()]);
            }
        }
    }
}

/// Collects the pairs of the value matrix.
fn collect_candidates(values: &Vec<Vec<i64>>, slots: usize) -> (out: Vec<Triple>)
    requires
        forall|i: int| 0 <= i < values.len() ==> (#[trigger] values[i]).len() == slots,
    ensures
        out@ == candidates(rows_of(values)),
{
    let ghost rows = rows_of(values);
    let mut out: Vec<Triple> = Vec::new();
    let mut i: usize = 0;
    proof {
        assert(rows.take(0) =~= Seq::<Seq<i64>>::empty());
    }
    while i < values.len()
        invariant
            i <= values.len(),
            rows == rows_of(values),
            forall|j: int| 0 <= j < values.len() ==> (#[trigger] values[j]).len() == slots,
            out@ == candidates(rows.take(i as int)),
        decreases values.len() - i,
    {
        let ghost head = out@;
        let mut p: usize = 0;
        while p < slots
            invariant
                p <= slots,
                i < values.len(),
                values[i as int].len() == slots,
                rows == rows_of(values),
                out@ == head + row_candidates(rows[i as int], i).take(p as int),
            decreases slots - p,
        {
            let ghost before = out@;
            out.push((values[i][p], i, p));
            proof {
                let row = row_candidates(rows[i as int], i);
                assert(row.take(p + 1) =~= row.take(p as int).push(row[p as int]));
                assert(out@ =~= head + row.take(p + 1));
            }
            p += 1;
        }
        proof {
            let row = row_candidates(rows[i as int], i);
            assert(row.take(p as int) =~= row);
            assert(rows.take(i + 1).drop_last() =~= rows.take(i as int));
            assert(rows.take(i + 1).last() == rows[i as int]);
        }
        i += 1;
    }
    proof {
        assert(rows.take(i as int) =~= rows);
    }
    out
}

/// Computes the greedy assignment.
///
/// `values[i][p]` is what a musician of instrument `i` would earn on slot
/// `p`. The result has one entry per slot: `source[m]` is the slot whose
/// position musician `m` takes over, and `m` itself where nothing was
/// assigned. Pairs are served in descending order of
/// `(value, instrument, slot)`; of the waiting musicians of an instrument the
/// one with the highest index is placed first.
pub fn assign_greedily<T: Copy>(task: &Task<T>, values: &Vec<Vec<i64>>, slots: usize) -> (source:
    Vec<usize>)
    requires
        task.attendees@.len() > 0,
        task.wf(),
        task.musicians.len() <= slots,
        values.len() == task.instruments(),
        forall|i: int| 0 <= i < values.len() ==> (#[trigger] values[i]).len() == slots,
    ensures
        source.len() == slots,
        source@ == greedy_assignment(task.musicians@, rows_of(values), slots as nat),
        forall|m: int| 0 <= m < slots ==> source[m] < slots,
        slots == task.musicians.len() ==> crate::moves::is_permutation(source@),
{
    let pairs = collect_candidates(values, slots);
    let sorted = sort_triples(&pairs);
    let mut free = task.musician_by_instrument();
    let mut picked: Vec<bool> = Vec::new();
    let mut source: Vec<usize> = Vec::new();
    let mut m: usize = 0;
    while m < slots
        invariant
            m <= slots,
            picked.len() == m,
            source.len() == m,
            forall|q: int| 0 <= q < m ==> !picked[q],
            forall|q: int| 0 <= q < m ==> source[q] == q,
        decreases slots - m,
    {
        picked.push(false);
        source.push(m);
        m += 1;
    }
    let ghost rows = rows_of(values);
    let ghost begin = start(task.musicians@, values.len() as nat, slots as nat);
    proof {
        assert(rows.len() == values.len());
        assert forall|i: int| 0 <= i < rows.len() implies (#[trigger] rows[i]).len() == slots by {
            assert(values[i].len() == slots);
        }
        lemma_candidates_in_range(rows, slots as nat);
        broadcast use vstd::seq_lib::group_to_multiset_ensures;
        assert forall|t: int| 0 <= t < sorted@.len() implies (#[trigger] sorted@[t]).1
            < values.len() && sorted@[t].2 < slots by {
            let x = sorted@[t];
            vstd::seq_lib::to_multiset_contains(sorted@, x);
            vstd::seq_lib::to_multiset_contains(pairs@, x);
            assert(sorted@.contains(x));
            let q = choose|q: int| 0 <= q < pairs@.len() && pairs@[q] == x;
            assert(pairs@[q].1 < values.len());
        }
        assert(source@ =~= begin.source);
        assert(picked@ =~= begin.picked);
        assert(lists_of(&free) =~= begin.free);
        assert forall|i: int, q: int|
            0 <= i < free.len() && 0 <= q < free[i].len() implies (#[trigger] free[i][q])
            < task.musicians.len() by {
            crate::model::lemma_slots_of(task.musicians@, i);
            assert(free[i]@.contains(free[i]@[q]));
        }
        assert(sorted@.take(sorted@.len() as int) =~= sorted@);
    }
    let mut t: usize = sorted.len();
    while t > 0
        invariant
            t <= sorted.len(),
            source.len() == slots,
            picked.len() == slots,
            free.len() == values.len(),
            task.musicians.len() <= slots,
            in_range(sorted@, values.len() as nat, slots as nat),
            forall|i: int, q: int|
                0 <= i < free.len() && 0 <= q < free[i].len() ==> (#[trigger] free[i][q])
                    < task.musicians.len(),
            forall|q: int| 0 <= q < slots ==> source[q] < slots,
            serve_all(begin, sorted@) == serve_all(
                Assignment { source: source@, picked: picked@, free: lists_of(&free) },
                sorted@.take(t as int),
            ),
        decreases t,
    {
        t -= 1;
        let c = sorted[t];
        let instrument = c.1;
        let slot = c.2;
        let ghost before = Assignment { source: source@, picked: picked@, free: lists_of(&free) };
        proof {
            assert(sorted@.take(t + 1).last() == c);
            assert(sorted@.take(t + 1).drop_last() =~= sorted@.take(t as int));
            assert(c.1 < values.len() && c.2 < slots);
        }
        if !picked[slot] && free[instrument].len() > 0 {
            let ghost waiting = free@;
            let musician = free[instrument].pop().unwrap();
            assert(musician == waiting[instrument as int]@.last());
            assert(musician < task.musicians.len());
            source[musician] = slot;
            picked[slot] = true;
            proof {
                let after = Assignment { source: source@, picked: picked@, free: lists_of(&free) };
                assert(after.free =~= before.free.update(
                    instrument as int,
                    before.free[instrument as int].drop_last(),
                ));
                assert(after == serve(before, c));
                assert forall|i: int, q: int|
                    0 <= i < free.len() && 0 <= q < free[i].len() implies (#[trigger] free[i][q])
                    < task.musicians.len() by {
                    if i == instrument {
                        assert(free[i][q] == waiting[i][q]);
                    } else {
                        assert(free[i] == waiting[i]);
                    }
                }
            }
        } else {
            assert(before == serve(before, c));
        }
    }
    proof {
        assert(sorted@.take(0) =~= Seq::<Triple>::empty());
        if slots == task.musicians.len() {
            assert forall|k: int| 0 <= k < task.musicians@.len() implies (
            #[trigger] task.musicians@[k]) < rows.len() by {
                assert(task.musicians@[k] < task.attendees@[0].tastes@.len());
            }
            lemma_greedy_is_permutation(task.musicians@, rows, slots as nat);
        }
    }
    source
}

/// Moves the items to the slots that an assignment gives them: entry `m`
/// of the result is `items[source[m]]`.
pub fn rearrange<T: Copy>(items: &Vec<T>, source: &Vec<usize>) -> (out: Vec<T>)
    requires
        forall|m: int| 0 <= m < source.len() ==> source[m] < items.len(),
    ensures
        out.len() == source.len(),
        forall|m: int| 0 <= m < out.len() ==> out[m] == items[source[m] as int],
{
    let mut out: Vec<T> = Vec::new();
    let mut m: usize = 0;
    while m < source.len()
        invariant
            m <= source.len(),
            out.len() == m,
            forall|q: int| 0 <= q < source.len() ==> source[q] < items.len(),
            forall|q: int| 0 <= q < m ==> out[q] == items[source[q] as int],
        decreases source.len() - m,
    {
        out.push(items[source[m]]);
        m += 1;
    }
    out
}

/// Reassigns the musicians greedily: every musician takes over the position
/// of the slot that [`assign_greedily`] gives it. Volumes stay with their
/// slots. Where the solution has one placement per musician, the positions
/// are only rearranged: each is used once.
pub fn optimize_placements_greedy<T: Copy>(
    task: &Task<T>,
    solution: &Solution<T>,
    values: &Vec<Vec<i64>>,
) -> (res: Solution<T>)
    requires
        task.attendees@.len() > 0,
        task.wf(),
        task.musicians.len() <= solution.placements.len(),
        values.len() == task.instruments(),
        forall|i: int|
            0 <= i < values.len() ==> (#[trigger] values[i]).len() == solution.placements.len(),
    ensures
        res.placements.len() == solution.placements.len(),
        greedy_assignment(
            task.musicians@,
            rows_of(values),
            solution.placements.len() as nat,
        ).len() == solution.placements.len(),
        forall|m: int|
            0 <= m < solution.placements.len() ==> (#[trigger] greedy_assignment(
                task.musicians@,
                rows_of(values),
                solution.placements.len() as nat,
            )[m]) < solution.placements.len(),
        forall|m: int|
            0 <= m < res.placements.len() ==> res.placements[m] == solution.placements[greedy_assignment(
                task.musicians@,
                rows_of(values),
                solution.placements.len() as nat,
            )[m] as int],
        res.volumes@ == solution.volumes@,
        task.musicians.len() == solution.placements.len() ==> crate::moves::is_permutation(
            greedy_assignment(
                task.musicians@,
                rows_of(values),
                solution.placements.len() as nat,
            ),
        ),
{
    let source = assign_greedily(task, values, solution.placements.len());
    let placements: Vec<Point<T>> = rearrange(&solution.placements, &source);
    let keep = crate::moves::identity(solution.volumes.len());
    let volumes: Vec<T> = rearrange(&solution.volumes, &keep);
    proof {
        assert(volumes@ =~= solution.volumes@);
    }
    Solution { placements, volumes }
}

/// Number of slots that have been handed out.
spec fn count_true(s: Seq<bool>) -> nat
    decreases s.len(),
{
    if s.len() == 0 {
        0
    } else {
        count_true(s.drop_last()) + (if s.last() { 1nat } else { 0nat })
    }
}

/// Number of musicians that wait for a slot.
spec fn waiting(free: Seq<Seq<usize>>) -> nat
    decreases free.len(),
{
    if free.len() == 0 {
        0
    } else {
        waiting(free.drop_last()) + free.last().len()
    }
}

/// Musician `m` has been given a slot.
spec fn placed(st: Assignment, musicians: Seq<usize>, m: int) -> bool {
    0 <= m < musicians.len() && !st.free[musicians[m] as int].contains(m as usize)
}

/// The assignment is consistent: the waiting lists are what is left of the
/// lists of the instruments, as many slots are taken as musicians are
/// placed, every placed musician holds a taken slot, and no two of them hold
/// the same.
spec fn sound(st: Assignment, musicians: Seq<usize>, slots: nat) -> bool {
    &&& st.source.len() == slots
    &&& st.picked.len() == slots
    &&& musicians.len() <= slots <= usize::MAX
    &&& forall|k: int| 0 <= k < musicians.len() ==> (#[trigger] musicians[k]) < st.free.len()
    &&& forall|i: int|
        0 <= i < st.free.len() ==> (#[trigger] st.free[i]).len() <= slots_of(musicians, i).len()
            && st.free[i] == slots_of(musicians, i).take(st.free[i].len() as int)
    &&& count_true(st.picked) + waiting(st.free) == musicians.len()
    &&& forall|m: int|
        placed(st, musicians, m) ==> (#[trigger] st.source[m]) < slots && st.picked[st.source[m] as int]
    &&& forall|a: int, b: int|
        placed(st, musicians, a) && placed(st, musicians, b) && a != b ==> #[trigger] st.source[a]
            != #[trigger] st.source[b]
}

/// The pair has been dealt with: its slot is taken or nobody waits for it.
spec fn served(st: Assignment, c: Triple) -> bool {
    st.picked[c.2 as int] || st.free[c.1 as int].len() == 0
}

/// Nothing is given back: taken slots stay taken and waiting lists only
/// shrink.
spec fn advanced(before: Assignment, after: Assignment) -> bool {
    &&& after.picked.len() == before.picked.len()
    &&& after.free.len() == before.free.len()
    &&& forall|p: int| 0 <= p < before.picked.len() && before.picked[p] ==> #[trigger] after.picked[p]
    &&& forall|i: int|
        0 <= i < before.free.len() ==> (#[trigger] after.free[i]).len() <= before.free[i].len()
}

/// Whoever was placed before is still placed, and on the same slot.
spec fn settled(before: Assignment, after: Assignment, musicians: Seq<usize>) -> bool {
    forall|k: int|
        placed(before, musicians, k) ==> placed(after, musicians, k) && #[trigger] after.source[k]
            == before.source[k]
}

/// Musician `m` waited before and holds the slot `slot` after.
spec fn newly_placed(
    before: Assignment,
    after: Assignment,
    musicians: Seq<usize>,
    m: int,
    slot: usize,
) -> bool {
    &&& 0 <= m < musicians.len()
    &&& !placed(before, musicians, m)
    &&& placed(after, musicians, m)
    &&& after.source[m] == slot
}

proof fn lemma_count_true_set(s: Seq<bool>, p: int)
    requires
        0 <= p < s.len(),
        !s[p],
    ensures
        count_true(s.update(p, true)) == count_true(s) + 1,
    decreases s.len(),
{
    let t = s.update(p, true);
    if p == s.len() - 1 {
        assert(t.drop_last() =~= s.drop_last());
    } else {
        lemma_count_true_set(s.drop_last(), p);
        assert(t.drop_last() =~= s.drop_last().update(p, true));
    }
}

proof fn lemma_count_true_none(s: Seq<bool>)
    requires
        forall|p: int| 0 <= p < s.len() ==> !s[p],
    ensures
        count_true(s) == 0,
    decreases s.len(),
{
    if s.len() > 0 {
        lemma_count_true_none(s.drop_last());
    }
}

proof fn lemma_count_true_gap(s: Seq<bool>)
    requires
        count_true(s) < s.len(),
    ensures
        exists|p: int| 0 <= p < s.len() && !s[p],
    decreases s.len(),
{
    if s.len() > 0 {
        if s.last() {
            lemma_count_true_gap(s.drop_last());
            let p = choose|p: int| 0 <= p < s.drop_last().len() && !s.drop_last()[p];
            assert(!s[p]);
        } else {
            assert(!s[s.len() - 1]);
        }
    }
}

proof fn lemma_waiting_update(free: Seq<Seq<usize>>, i: int, list: Seq<usize>)
    requires
        0 <= i < free.len(),
    ensures
        waiting(free.update(i, list)) == waiting(free) - free[i].len() + list.len(),
    decreases free.len(),
{
    let g = free.update(i, list);
    if i == free.len() - 1 {
        assert(g.drop_last() =~= free.drop_last());
    } else {
        lemma_waiting_update(free.drop_last(), i, list);
        assert(g.drop_last() =~= free.drop_last().update(i, list));
    }
}

proof fn lemma_waiting_none(free: Seq<Seq<usize>>)
    requires
        forall|i: int| 0 <= i < free.len() ==> (#[trigger] free[i]).len() == 0,
    ensures
        waiting(free) == 0,
    decreases free.len(),
{
    if free.len() > 0 {
        let rest = free.drop_last();
        assert forall|i: int| 0 <= i < rest.len() implies (#[trigger] rest[i]).len() == 0 by {
            assert(rest[i] == free[i]);
        }
        lemma_waiting_none(rest);
    }
}

proof fn lemma_waiting_someone(free: Seq<Seq<usize>>)
    requires
        waiting(free) > 0,
    ensures
        exists|i: int| 0 <= i < free.len() && (#[trigger] free[i]).len() > 0,
    decreases free.len(),
{
    if free.len() > 0 {
        if free.last().len() > 0 {
            assert(free[free.len() - 1].len() > 0);
        } else {
            lemma_waiting_someone(free.drop_last());
            let rest = free.drop_last();
            let i = choose|i: int| 0 <= i < rest.len() && (#[trigger] rest[i]).len() > 0;
            assert(free[i] == rest[i]);
        }
    }
}

/// At the start every musician waits in the list of its instrument.
proof fn lemma_everyone_waits(musicians: Seq<usize>, instruments: nat)
    requires
        forall|k: int| 0 <= k < musicians.len() ==> (#[trigger] musicians[k]) < instruments,
    ensures
        waiting(Seq::new(instruments, |i: int| slots_of(musicians, i))) == musicians.len(),
    decreases musicians.len(),
{
    let lists = Seq::new(instruments, |i: int| slots_of(musicians, i));
    if musicians.len() == 0 {
        lemma_waiting_none(lists);
    } else {
        let rest = musicians.drop_last();
        let x = musicians.last() as int;
        assert(musicians[musicians.len() - 1] < instruments);
        assert forall|k: int| 0 <= k < rest.len() implies (#[trigger] rest[k]) < instruments by {
            assert(rest[k] == musicians[k]);
        }
        lemma_everyone_waits(rest, instruments);
        let fewer = Seq::new(instruments, |i: int| slots_of(rest, i));
        assert(lists =~= fewer.update(x, slots_of(musicians, x)));
        lemma_waiting_update(fewer, x, slots_of(musicians, x));
    }
}

/// Every pair of an instrument and a slot is among the candidates.
proof fn lemma_candidates_complete(values: Seq<Seq<i64>>, slots: nat, i: int, p: int)
    requires
        forall|j: int| 0 <= j < values.len() ==> (#[trigger] values[j]).len() == slots,
        0 <= i < values.len(),
        0 <= p < slots,
    ensures
        candidates(values).contains((values[i][p], i as usize, p as usize)),
    decreases values.len(),
{
    let rest = values.drop_last();
    let head = candidates(rest);
    let row = row_candidates(values.last(), (values.len() - 1) as usize);
    let all = candidates(values);
    if i == values.len() - 1 {
        assert(all[head.len() + p] == row[p]);
    } else {
        assert forall|j: int| 0 <= j < rest.len() implies (#[trigger] rest[j]).len() == slots by {
            assert(rest[j] == values[j]);
        }
        lemma_candidates_complete(rest, slots, i, p);
        assert(rest[i] == values[i]);
        let q = choose|q: int|
            0 <= q < head.len() && head[q] == (values[i][p], i as usize, p as usize);
        assert(all[q] == head[q]);
    }
}

/// Serving one pair keeps the assignment consistent, gives nothing back and
/// deals with the pair.
proof fn lemma_serve(st: Assignment, c: Triple, musicians: Seq<usize>, slots: nat)
    requires
        sound(st, musicians, slots),
        c.1 < st.free.len(),
        c.2 < slots,
    ensures
        sound(serve(st, c), musicians, slots),
        advanced(st, serve(st, c)),
        served(serve(st, c), c),
        settled(st, serve(st, c), musicians),
        !(st.picked[c.2 as int] || st.free[c.1 as int].len() == 0) ==> newly_placed(
            st,
            serve(st, c),
            musicians,
            st.free[c.1 as int].last() as int,
            c.2,
        ),
{
    let i = c.1 as int;
    let p = c.2 as int;
    let after = serve(st, c);
    if !(st.picked[p] || st.free[i].len() == 0) {
        let list = st.free[i];
        let all = slots_of(musicians, i);
        let m = list.last() as int;
        crate::model::lemma_slots_of(musicians, i);
        assert(list == all.take(list.len() as int));
        assert(all[list.len() - 1] == list.last());
        assert(all.contains(list.last()));
        assert(0 <= m < musicians.len() && musicians[m] == i);
        let shorter = list.drop_last();
        assert(shorter =~= all.take(shorter.len() as int));
        lemma_count_true_set(st.picked, p);
        lemma_waiting_update(st.free, i, shorter);
        assert forall|k: int| 0 <= k < slots implies (placed(after, musicians, k) <==> (placed(
            st,
            musicians,
            k,
        ) || k == m)) by {
            if 0 <= k < musicians.len() {
                let j = musicians[k] as int;
                if j == i {
                    if shorter.contains(k as usize) {
                        let q = choose|q: int| 0 <= q < shorter.len() && shorter[q] == k as usize;
                        assert(list[q] == k as usize);
                        assert(all[q] == k as usize);
                        assert(all[q] < all[list.len() - 1]);
                    }
                    if list.contains(k as usize) && k != m {
                        let q = choose|q: int| 0 <= q < list.len() && list[q] == k as usize;
                        assert(shorter[q] == k as usize);
                    }
                    if k == m {
                        assert(list[list.len() - 1] == k as usize);
                    }
                } else {
                    assert(after.free[j] == st.free[j]);
                }
            }
        }
        assert forall|k: int| placed(after, musicians, k) implies (#[trigger] after.source[k])
            < slots && after.picked[after.source[k] as int] by {
            if k != m {
                assert(placed(st, musicians, k));
                assert(st.picked[st.source[k] as int]);
            }
        }
        assert forall|a: int, b: int|
            placed(after, musicians, a) && placed(after, musicians, b) && a
                != b implies #[trigger] after.source[a] != #[trigger] after.source[b] by {
            if a != m && b != m {
                assert(placed(st, musicians, a) && placed(st, musicians, b));
            } else if a == m {
                assert(placed(st, musicians, b));
                assert(st.picked[st.source[b] as int]);
            } else {
                assert(placed(st, musicians, a));
                assert(st.picked[st.source[a] as int]);
            }
        }
        assert forall|j: int| 0 <= j < after.free.len() implies (#[trigger] after.free[j]).len()
            <= slots_of(musicians, j).len() && after.free[j] == slots_of(musicians, j).take(
            after.free[j].len() as int,
        ) by {
            if j != i {
                assert(after.free[j] == st.free[j]);
            }
        }
        assert forall|j: int| 0 <= j < st.free.len() implies (#[trigger] after.free[j]).len()
            <= st.free[j].len() by {
            if j != i {
                assert(after.free[j] == st.free[j]);
            }
        }
        assert(list[list.len() - 1] == m as usize);
        assert(list.contains(m as usize));
        assert(!placed(st, musicians, m));
        assert(placed(after, musicians, m));
        assert forall|k: int| placed(st, musicians, k) implies placed(after, musicians, k)
            && #[trigger] after.source[k] == st.source[k] by {
            assert(k != m);
        }
    }
}

/// Serving a sequence of pairs keeps the assignment consistent, gives
/// nothing back and deals with every pair of the sequence.
proof fn lemma_serve_all(st: Assignment, order: Seq<Triple>, musicians: Seq<usize>, slots: nat)
    requires
        sound(st, musicians, slots),
        in_range(order, st.free.len(), slots),
    ensures
        sound(serve_all(st, order), musicians, slots),
        advanced(st, serve_all(st, order)),
        settled(st, serve_all(st, order), musicians),
        forall|t: int| 0 <= t < order.len() ==> served(serve_all(st, order), #[trigger] order[t]),
    decreases order.len(),
{
    if order.len() > 0 {
        let c = order.last();
        let rest = order.drop_last();
        let mid = serve(st, c);
        assert(order[order.len() - 1].1 < st.free.len());
        lemma_serve(st, c, musicians, slots);
        assert forall|t: int| 0 <= t < rest.len() implies (#[trigger] rest[t]).1 < mid.free.len()
            && rest[t].2 < slots by {
            assert(rest[t] == order[t]);
        }
        lemma_serve_all(mid, rest, musicians, slots);
        let end = serve_all(mid, rest);
        assert forall|t: int| 0 <= t < order.len() implies served(end, #[trigger] order[t]) by {
            if t < rest.len() {
                assert(rest[t] == order[t]);
            } else {
                assert(served(mid, c));
                if mid.picked[c.2 as int] {
                    assert(end.picked[c.2 as int]);
                } else {
                    assert(end.free[c.1 as int].len() <= mid.free[c.1 as int].len());
                }
            }
        }
        assert forall|p: int| 0 <= p < st.picked.len() && st.picked[p] implies #[trigger] end.picked[p] by {
            assert(mid.picked[p]);
        }
        assert forall|i: int| 0 <= i < st.free.len() implies (#[trigger] end.free[i]).len()
            <= st.free[i].len() by {
            assert(mid.free[i].len() <= st.free[i].len());
        }
        assert forall|k: int| placed(st, musicians, k) implies placed(end, musicians, k)
            && #[trigger] end.source[k] == st.source[k] by {
            assert(placed(mid, musicians, k) && mid.source[k] == st.source[k]);
        }
    }
}

/// At the start the assignment is consistent and nobody is placed.
proof fn lemma_start_is_sound(musicians: Seq<usize>, instruments: nat, slots: nat)
    requires
        musicians.len() <= slots <= usize::MAX,
        forall|k: int| 0 <= k < musicians.len() ==> (#[trigger] musicians[k]) < instruments,
    ensures
        sound(start(musicians, instruments, slots), musicians, slots),
        forall|m: int| !placed(start(musicians, instruments, slots), musicians, m),
{
    let begin = start(musicians, instruments, slots);
    lemma_count_true_none(begin.picked);
    lemma_everyone_waits(musicians, instruments);
    assert forall|m: int| !placed(begin, musicians, m) by {
        if 0 <= m < musicians.len() {
            crate::model::lemma_slots_of(musicians, musicians[m] as int);
        }
    }
    assert forall|i: int| 0 <= i < begin.free.len() implies (#[trigger] begin.free[i]).len()
        <= slots_of(musicians, i).len() && begin.free[i] == slots_of(musicians, i).take(
        begin.free[i].len() as int,
    ) by {
        assert(slots_of(musicians, i).take(slots_of(musicians, i).len() as int) =~= slots_of(
            musicians,
            i,
        ));
    }
}

/// The greedy rule places every musician, and no two on the same slot: when
/// there are as many slots as musicians, the assignment lists every slot
/// exactly once. A valid arrangement of positions is therefore only
/// rearranged, never duplicated or lost.
pub proof fn lemma_greedy_is_permutation(musicians: Seq<usize>, values: Seq<Seq<i64>>, slots: nat)
    requires
        slots == musicians.len(),
        slots <= usize::MAX,
        values.len() <= usize::MAX,
        forall|k: int| 0 <= k < musicians.len() ==> (#[trigger] musicians[k]) < values.len(),
        forall|i: int| 0 <= i < values.len() ==> (#[trigger] values[i]).len() == slots,
    ensures
        crate::moves::is_permutation(greedy_assignment(musicians, values, slots)),
        greedy_assignment(musicians, values, slots).len() == slots,
{
    let begin = start(musicians, values.len(), slots);
    let pairs = candidates(values);
    let order = pairs.sort_by(triple_order());
    crate::sorting::lemma_triple_order_total();
    pairs.lemma_sort_by_ensures(triple_order());
    lemma_candidates_in_range(values, slots);
    assert forall|x: Triple| order.contains(x) <==> pairs.contains(x) by {
        vstd::seq_lib::to_multiset_contains(order, x);
        vstd::seq_lib::to_multiset_contains(pairs, x);
    }
    assert forall|t: int| 0 <= t < order.len() implies (#[trigger] order[t]).1 < values.len()
        && order[t].2 < slots by {
        assert(order.contains(order[t]));
        let q = choose|q: int| 0 <= q < pairs.len() && pairs[q] == order[t];
        assert(pairs[q].1 < values.len());
    }
    lemma_start_is_sound(musicians, values.len(), slots);
    lemma_serve_all(begin, order, musicians, slots);
    let end = serve_all(begin, order);
    if waiting(end.free) > 0 {
        lemma_waiting_someone(end.free);
        let i = choose|i: int| 0 <= i < end.free.len() && (#[trigger] end.free[i]).len() > 0;
        lemma_count_true_gap(end.picked);
        let p = choose|p: int| 0 <= p < end.picked.len() && !end.picked[p];
        lemma_candidates_complete(values, slots, i, p);
        let c = (values[i][p], i as usize, p as usize);
        assert(order.contains(c));
        let t = choose|t: int| 0 <= t < order.len() && order[t] == c;
        assert(served(end, order[t]));
        assert(false);
    }
    assert forall|i: int| 0 <= i < end.free.len() implies (#[trigger] end.free[i]).len() == 0 by {
        if end.free[i].len() > 0 {
            lemma_waiting_update(end.free, i, Seq::<usize>::empty());
        }
    }
    assert forall|m: int| 0 <= m < slots implies placed(end, musicians, m) by {
        let list = end.free[musicians[m] as int];
        assert(list.len() == 0);
        if list.contains(m as usize) {
            let q = choose|q: int| 0 <= q < list.len() && list[q] == m as usize;
        }
    }
    let source = end.source;
    assert forall|a: int, b: int| 0 <= a < source.len() && 0 <= b < source.len() && a
        != b implies source[a] != source[b] by {
        assert(placed(end, musicians, a) && placed(end, musicians, b));
    }
    assert forall|a: int| 0 <= a < source.len() implies (#[trigger] source[a]) < source.len() by {
        assert(placed(end, musicians, a));
    }
}

/// Where the greedy rule leaves every musician on its own slot, applying it
/// again to the unchanged input leaves every item where it is.
pub proof fn lemma_greedy_fixed_point<T>(
    musicians: Seq<usize>,
    values: Seq<Seq<i64>>,
    items: Seq<T>,
)
    requires
        forall|m: int|
            0 <= m < items.len() ==> greedy_assignment(musicians, values, items.len())[m] == m,
    ensures
        Seq::new(
            items.len(),
            |m: int| items[greedy_assignment(musicians, values, items.len())[m] as int],
        ) == items,
{
    let source = greedy_assignment(musicians, values, items.len());
    assert(Seq::new(items.len(), |m: int| items[source[m] as int]) =~= items);
}

/// What the pairs are worth after a rearrangement: slot `q` then holds the
/// position of the old slot `source[q]`, and is worth what that slot was.
pub open spec fn rearranged_values(values: Seq<Seq<i64>>, source: Seq<usize>) -> Seq<Seq<i64>> {
    Seq::new(values.len(), |i: int| Seq::new(source.len(), |q: int| values[i][source[q] as int]))
}

/// No two pairs of an instrument and a slot are worth the same.
pub open spec fn distinct_values(values: Seq<Seq<i64>>) -> bool {
    forall|i: int, p: int, j: int, q: int|
        0 <= i < values.len() && 0 <= p < values[i].len() && 0 <= j < values.len() && 0 <= q
            < values[j].len() && (i != j || p != q) ==> #[trigger] values[i][p]
            != #[trigger] values[j][q]
}

/// A sequence of distinct numbers below `k` has at most `k` entries.
proof fn lemma_distinct_below(s: Seq<usize>, k: nat)
    requires
        s.no_duplicates(),
        forall|t: int| 0 <= t < s.len() ==> (#[trigger] s[t]) < k,
    ensures
        s.len() <= k,
    decreases k,
{
    if k == 0 {
        if s.len() > 0 {
            assert(s[0] < k);
        }
    } else {
        let top = (k - 1) as usize;
        if s.contains(top) {
            let j = choose|j: int| 0 <= j < s.len() && s[j] == top;
            let r = s.remove(j);
            assert forall|t: int| 0 <= t < r.len() implies (#[trigger] r[t]) < (k - 1) as nat by {
                let u = if t < j { t } else { t + 1 };
                assert(r[t] == s[u]);
                assert(s[u] != s[j]);
                assert(s[u] < k);
            }
            assert forall|a: int, b: int| 0 <= a < r.len() && 0 <= b < r.len() && a
                != b implies r[a] != r[b] by {
                let ua = if a < j { a } else { a + 1 };
                let ub = if b < j { b } else { b + 1 };
                assert(r[a] == s[ua] && r[b] == s[ub]);
            }
            lemma_distinct_below(r, (k - 1) as nat);
        } else {
            assert forall|t: int| 0 <= t < s.len() implies (#[trigger] s[t]) < (k - 1) as nat by {
                assert(s.contains(s[t]));
                assert(s[t] < k);
            }
            lemma_distinct_below(s, (k - 1) as nat);
        }
    }
}

/// A permutation of the slots names every slot.
proof fn lemma_permutation_is_onto(s: Seq<usize>, p: int)
    requires
        crate::moves::is_permutation(s),
        0 <= p < s.len(),
        s.len() <= usize::MAX,
    ensures
        s.contains(p as usize),
    decreases s.len(),
{
    let n = s.len();
    let top = (n - 1) as usize;
    if !s.contains(top) {
        assert forall|t: int| 0 <= t < s.len() implies (#[trigger] s[t]) < (n - 1) as nat by {
            assert(s.contains(s[t]));
            assert(s[t] < n);
        }
        lemma_distinct_below(s, (n - 1) as nat);
    }
    if p != n - 1 {
        let j = choose|j: int| 0 <= j < s.len() && s[j] == top;
        let r = s.remove(j);
        assert forall|t: int| 0 <= t < r.len() implies (#[trigger] r[t]) < r.len() by {
            let u = if t < j { t } else { t + 1 };
            assert(r[t] == s[u]);
            assert(s[u] != s[j]);
            assert(s[u] < n);
        }
        assert forall|a: int, b: int| 0 <= a < r.len() && 0 <= b < r.len() && a != b implies r[a]
            != r[b] by {
            let ua = if a < j { a } else { a + 1 };
            let ub = if b < j { b } else { b + 1 };
            assert(r[a] == s[ua] && r[b] == s[ub]);
        }
        lemma_permutation_is_onto(r, p);
        let t = choose|t: int| 0 <= t < r.len() && r[t] == p as usize;
        let u = if t < j { t } else { t + 1 };
        assert(s[u] == p as usize);
    }
}

/// Every candidate carries the value of its pair, and no candidate occurs
/// twice.
proof fn lemma_candidates_members(values: Seq<Seq<i64>>, slots: nat)
    requires
        values.len() <= usize::MAX,
        slots <= usize::MAX,
        forall|i: int| 0 <= i < values.len() ==> (#[trigger] values[i]).len() == slots,
    ensures
        candidates(values).no_duplicates(),
        forall|t: int|
            0 <= t < candidates(values).len() ==> (#[trigger] candidates(values)[t]).1
                < values.len() && candidates(values)[t].2 < slots && candidates(values)[t].0
                == values[candidates(values)[t].1 as int][candidates(values)[t].2 as int],
    decreases values.len(),
{
    if values.len() > 0 {
        let rest = values.drop_last();
        assert forall|i: int| 0 <= i < rest.len() implies (#[trigger] rest[i]).len() == slots by {
            assert(rest[i] == values[i]);
        }
        lemma_candidates_members(rest, slots);
        let head = candidates(rest);
        let row = row_candidates(values.last(), (values.len() - 1) as usize);
        let all = candidates(values);
        assert forall|t: int| 0 <= t < all.len() implies (#[trigger] all[t]).1 < values.len()
            && all[t].2 < slots && all[t].0 == values[all[t].1 as int][all[t].2 as int] && (t
            < head.len() <==> all[t].1 < values.len() - 1) by {
            if t < head.len() {
                assert(all[t] == head[t]);
                assert(rest[head[t].1 as int] == values[head[t].1 as int]);
            } else {
                assert(all[t] == row[t - head.len()]);
            }
        }
        assert forall|a: int, b: int| 0 <= a < all.len() && 0 <= b < all.len() && a
            != b implies all[a] != all[b] by {
            if a < head.len() && b < head.len() {
                assert(all[a] == head[a] && all[b] == head[b]);
            } else if a >= head.len() && b >= head.len() {
                assert(all[a] == row[a - head.len()] && all[b] == row[b - head.len()]);
            } else {
                assert(all[a].1 != all[b].1);
            }
        }
    }
}

/// Two sequences without duplicates that hold the same elements are
/// rearrangements of each other.
proof fn lemma_same_elements(a: Seq<Triple>, b: Seq<Triple>)
    requires
        a.no_duplicates(),
        b.no_duplicates(),
        forall|x: Triple| a.contains(x) <==> b.contains(x),
    ensures
        a.to_multiset() == b.to_multiset(),
{
    a.lemma_multiset_has_no_duplicates();
    b.lemma_multiset_has_no_duplicates();
    assert forall|x: Triple| a.to_multiset().count(x) == b.to_multiset().count(x) by {
        vstd::seq_lib::to_multiset_contains(a, x);
        vstd::seq_lib::to_multiset_contains(b, x);
    }
    assert(a.to_multiset() =~= b.to_multiset());
}

/// The pairs in the order in which they are served.
spec fn serving_order(values: Seq<Seq<i64>>) -> Seq<Triple> {
    candidates(values).sort_by(triple_order())
}

/// The serving order holds every pair once, each with its value; where no
/// two pairs are worth the same it ascends strictly by value.
proof fn lemma_serving_order(values: Seq<Seq<i64>>, slots: nat)
    requires
        values.len() <= usize::MAX,
        slots <= usize::MAX,
        forall|i: int| 0 <= i < values.len() ==> (#[trigger] values[i]).len() == slots,
    ensures
        vstd::relations::sorted_by(serving_order(values), triple_order()),
        serving_order(values).to_multiset() == candidates(values).to_multiset(),
        serving_order(values).no_duplicates(),
        forall|x: Triple| serving_order(values).contains(x) <==> candidates(values).contains(x),
        in_range(serving_order(values), values.len(), slots),
        forall|t: int|
            0 <= t < serving_order(values).len() ==> (#[trigger] serving_order(values)[t]).0
                == values[serving_order(values)[t].1 as int][serving_order(values)[t].2 as int],
        distinct_values(values) ==> forall|a: int, b: int|
            0 <= a < b < serving_order(values).len() ==> (#[trigger] serving_order(values)[a]).0 < (
            #[trigger] serving_order(values)[b]).0,
{
    let pairs = candidates(values);
    let order = serving_order(values);
    crate::sorting::lemma_triple_order_total();
    pairs.lemma_sort_by_ensures(triple_order());
    lemma_candidates_members(values, slots);
    pairs.lemma_multiset_has_no_duplicates();
    order.lemma_multiset_has_no_duplicates_conv();
    assert forall|x: Triple| order.contains(x) <==> pairs.contains(x) by {
        vstd::seq_lib::to_multiset_contains(order, x);
        vstd::seq_lib::to_multiset_contains(pairs, x);
    }
    assert forall|t: int| 0 <= t < order.len() implies (#[trigger] order[t]).1 < values.len()
        && order[t].2 < slots && order[t].0 == values[order[t].1 as int][order[t].2 as int] by {
        assert(order.contains(order[t]));
        let q = choose|q: int| 0 <= q < pairs.len() && pairs[q] == order[t];
        assert(pairs[q].1 < values.len());
    }
    if distinct_values(values) {
        assert forall|a: int, b: int| 0 <= a < b < order.len() implies (#[trigger] order[a]).0 < (
        #[trigger] order[b]).0 by {
            let r = triple_order();
            assert(r(order[a], order[b]));
            assert(crate::sorting::triple_le(order[a], order[b]));
            assert(order[a] != order[b]);
            let i = order[a].1 as int;
            let p = order[a].2 as int;
            let j = order[b].1 as int;
            let q = order[b].2 as int;
            assert(order[a].0 == values[i][p]);
            assert(order[b].0 == values[j][q]);
            if order[a].0 == order[b].0 {
                assert(i != j || p != q);
                assert(values[i][p] != values[j][q]);
            }
        }
    }
}

/// The pair with its slot named as before the rearrangement.
spec fn relabel(c: Triple, sigma: Seq<usize>) -> Triple {
    (c.0, c.1, sigma[c.2 as int])
}

/// The second run mirrors the first: the same musicians wait, nobody has
/// moved in the second run, and a slot is taken in the second run exactly
/// if the slot that it came from is taken in the first.
spec fn mirrored(first: Assignment, second: Assignment, sigma: Seq<usize>, slots: nat) -> bool {
    &&& first.free == second.free
    &&& second.source == crate::moves::identity_of(slots)
    &&& first.picked.len() == slots
    &&& second.picked.len() == slots
    &&& forall|q: int|
        0 <= q < slots ==> #[trigger] second.picked[q] == first.picked[sigma[q] as int]
}

/// Served pair by pair, the second run never moves anybody.
proof fn lemma_second_run(
    first: Assignment,
    second: Assignment,
    order1: Seq<Triple>,
    order2: Seq<Triple>,
    musicians: Seq<usize>,
    slots: nat,
)
    requires
        slots == musicians.len(),
        sound(first, musicians, slots),
        in_range(order1, first.free.len(), slots),
        in_range(order2, first.free.len(), slots),
        order1.len() == order2.len(),
        crate::moves::is_permutation(serve_all(first, order1).source),
        serve_all(first, order1).source.len() == slots,
        forall|t: int|
            0 <= t < order2.len() ==> order1[t] == relabel(
                #[trigger] order2[t],
                serve_all(first, order1).source,
            ),
        mirrored(first, second, serve_all(first, order1).source, slots),
    ensures
        serve_all(second, order2).source == crate::moves::identity_of(slots),
    decreases order1.len(),
{
    let sigma = serve_all(first, order1).source;
    if order1.len() > 0 {
        let c1 = order1.last();
        let c2 = order2.last();
        let last = order2.len() - 1;
        assert(order1[last] == relabel(order2[last], sigma));
        assert(order1[last].1 < first.free.len() && order1[last].2 < slots);
        assert(order2[last].1 < first.free.len() && order2[last].2 < slots);
        let i = c1.1 as int;
        let p = c1.2 as int;
        let q = c2.2 as int;
        assert(sigma[q] == p);
        let mid1 = serve(first, c1);
        let mid2 = serve(second, c2);
        let rest1 = order1.drop_last();
        let rest2 = order2.drop_last();
        lemma_serve(first, c1, musicians, slots);
        assert(second.picked[q] == first.picked[p]);
        if !(first.picked[p] || first.free[i].len() == 0) {
            let m = first.free[i].last() as int;
            assert(newly_placed(first, mid1, musicians, m, c1.2));
            assert forall|t: int| 0 <= t < rest1.len() implies (#[trigger] rest1[t]).1
                < mid1.free.len() && rest1[t].2 < slots by {
                assert(rest1[t] == order1[t]);
            }
            lemma_serve_all(mid1, rest1, musicians, slots);
            assert(sigma[m] == mid1.source[m]);
            assert(sigma[m] == sigma[q]);
            assert(m == q);
            assert(mid2.source =~= crate::moves::identity_of(slots));
            assert forall|r: int| 0 <= r < slots implies #[trigger] mid2.picked[r]
                == mid1.picked[sigma[r] as int] by {
                assert(second.picked[r] == first.picked[sigma[r] as int]);
                if r != q {
                    assert(sigma[r] != sigma[q]);
                }
            }
        }
        assert(mirrored(mid1, mid2, sigma, slots));
        assert forall|t: int| 0 <= t < rest1.len() implies (#[trigger] rest1[t]).1
            < mid1.free.len() && rest1[t].2 < slots by {
            assert(rest1[t] == order1[t]);
        }
        assert forall|t: int| 0 <= t < rest2.len() implies (#[trigger] rest2[t]).1
            < mid1.free.len() && rest2[t].2 < slots by {
            assert(rest2[t] == order2[t]);
        }
        assert forall|t: int| 0 <= t < rest2.len() implies rest1[t] == relabel(
            #[trigger] rest2[t],
            sigma,
        ) by {
            assert(rest1[t] == order1[t] && rest2[t] == order2[t]);
        }
        lemma_second_run(mid1, mid2, rest1, rest2, musicians, slots);
    }
}

/// Applied to its own result, the greedy rule moves nobody, provided that
/// no two pairs of an instrument and a slot are worth the same: the second
/// assignment leaves every musician on its slot, so the solution and with
/// it the score stay the same.
pub proof fn lemma_second_greedy_moves_nothing(
    musicians: Seq<usize>,
    values: Seq<Seq<i64>>,
    slots: nat,
)
    requires
        slots == musicians.len(),
        slots <= usize::MAX,
        values.len() <= usize::MAX,
        forall|k: int| 0 <= k < musicians.len() ==> (#[trigger] musicians[k]) < values.len(),
        forall|i: int| 0 <= i < values.len() ==> (#[trigger] values[i]).len() == slots,
        distinct_values(values),
    ensures
        greedy_assignment(
            musicians,
            rearranged_values(values, greedy_assignment(musicians, values, slots)),
            slots,
        ) == crate::moves::identity_of(slots),
{
    let sigma = greedy_assignment(musicians, values, slots);
    lemma_greedy_is_permutation(musicians, values, slots);
    let again = rearranged_values(values, sigma);
    assert forall|i: int| 0 <= i < again.len() implies (#[trigger] again[i]).len() == slots by {}
    assert(distinct_values(again)) by {
        assert forall|i: int, p: int, j: int, q: int|
            0 <= i < again.len() && 0 <= p < again[i].len() && 0 <= j < again.len() && 0 <= q
                < again[j].len() && (i != j || p != q) implies #[trigger] again[i][p]
            != #[trigger] again[j][q] by {
            assert(sigma[p] < slots && sigma[q] < slots);
            if p != q {
                assert(sigma[p] != sigma[q]);
            }
            assert(values[i][sigma[p] as int] != values[j][sigma[q] as int]);
        }
    }
    let order1 = serving_order(values);
    let order2 = serving_order(again);
    lemma_serving_order(values, slots);
    lemma_serving_order(again, slots);
    lemma_candidates_members(values, slots);
    lemma_candidates_members(again, slots);
    let back = Seq::new(order2.len(), |t: int| relabel(order2[t], sigma));
    assert forall|a: int, b: int| 0 <= a < b < back.len() implies crate::sorting::triple_le(
        #[trigger] back[a],
        #[trigger] back[b],
    ) && back[a] != back[b] by {
        assert(order2[a].0 < order2[b].0);
    }
    assert(back.no_duplicates());
    assert forall|x: Triple| back.contains(x) <==> candidates(values).contains(x) by {
        if back.contains(x) {
            let t = choose|t: int| 0 <= t < back.len() && back[t] == x;
            let c = order2[t];
            assert(c.1 < again.len() && c.2 < slots);
            assert(c.0 == again[c.1 as int][c.2 as int]);
            assert(sigma[c.2 as int] < slots);
            lemma_candidates_complete(values, slots, c.1 as int, sigma[c.2 as int] as int);
        }
        if candidates(values).contains(x) {
            let u = choose|u: int| 0 <= u < candidates(values).len() && candidates(values)[u] == x;
            assert(candidates(values)[u].1 < values.len());
            let i = x.1 as int;
            let p = x.2 as int;
            lemma_permutation_is_onto(sigma, p);
            let q = choose|q: int| 0 <= q < sigma.len() && sigma[q] == p as usize;
            lemma_candidates_complete(again, slots, i, q);
            let c = (again[i][q], i as usize, q as usize);
            assert(order2.contains(c));
            let t = choose|t: int| 0 <= t < order2.len() && order2[t] == c;
            assert(back[t] == x);
        }
    }
    lemma_same_elements(back, candidates(values));
    crate::sorting::lemma_triple_order_total();
    assert(vstd::relations::sorted_by(back, triple_order())) by {
        let r = triple_order();
        assert forall|a: int, b: int| 0 <= a < b < back.len() implies #[trigger] r(
            back[a],
            back[b],
        ) by {
            assert(crate::sorting::triple_le(back[a], back[b]));
        }
    }
    vstd::seq_lib::lemma_sorted_unique(back, order1, triple_order());
    assert(back == order1);
    let begin = start(musicians, values.len(), slots);
    lemma_start_is_sound(musicians, values.len(), slots);
    assert(start(musicians, again.len(), slots) == begin);
    assert forall|t: int| 0 <= t < order2.len() implies order1[t] == relabel(
        #[trigger] order2[t],
        sigma,
    ) by {
        assert(back[t] == relabel(order2[t], sigma));
    }
    lemma_second_run(begin, begin, order1, order2, musicians, slots);
}

} // verus!
