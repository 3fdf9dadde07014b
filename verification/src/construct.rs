//! Incremental construction: the order in which musicians join a growing
//! partial problem, and how the result is put back into slot order.

use crate::moves::{is_permutation, shuffled_order};
use crate::rng::sample;
use rand_xoshiro::Xoshiro256PlusPlus;
use vstd::prelude::*;

verus! {

/// How often a free point for a joining musician is looked for before the
/// construction gives up.
pub const MAX_PLACEMENT_TRIES: usize = 1000;

/// How many musicians join between two runs of the search: one, or a
/// twentieth of the musicians if there are more than fifty.
pub fn chunk_size(musicians: usize) -> (size: usize)
    ensures
        size == (if musicians > 50 { musicians / 20 } else { 1 }),
        size >= 1,
{
    if musicians > 50 {
        musicians / 20
    } else {
        1
    }
}

/// Whether the search runs on a partial problem with `placed` musicians: a
/// lone musician is left as it is.
pub fn optimizes_after_chunk(placed: usize) -> (run: bool)
    ensures
        run == (placed != 1),
{
    placed != 1
}

/// What happens after one attempt to place a joining musician.
#[derive(Clone, Copy, Debug, PartialEq, Eq, Structural)]
pub enum Step {
    /// The position is free: the musician takes it.
    Place,
    /// The position is taken: another point is drawn and tried.
    Retry,
    /// The position is taken and the attempts are used up.
    GiveUp,
}

/// The step that follows an attempt: a free position is taken; a taken one
/// leads to another attempt unless this was the last of
/// `MAX_PLACEMENT_TRIES`.
pub open spec fn step_after(tries: usize, possible: bool) -> Step {
    if possible {
        Step::Place
    } else if tries + 1 >= MAX_PLACEMENT_TRIES {
        Step::GiveUp
    } else {
        Step::Retry
    }
}

/// Decides how the placement of a joining musician goes on. `tries` counts
/// the attempts that failed before this one, `possible` says whether the
/// position tried now keeps the minimum separation.
pub fn placement_step(tries: usize, possible: bool) -> (s: Step)
    ensures
        s == step_after(tries, possible),
{
    if possible {
        Step::Place
    } else if tries >= MAX_PLACEMENT_TRIES - 1 {
        Step::GiveUp
    } else {
        Step::Retry
    }
}

/// The chunks laid end to end.
pub open spec fn joined(chunks: Seq<Seq<usize>>) -> Seq<usize>
    decreases chunks.len(),
{
    if chunks.len() == 0 {
        Seq::empty()
    } else {
        joined(chunks.drop_last()) + chunks.last()
    }
}

/// The views of the chunks.
pub open spec fn chunks_of(v: &Vec<Vec<usize>>) -> Seq<Seq<usize>> {
    Seq::new(v@.len(), |c: int| v@[c]@)
}

/// Every chunk but the last has `size` entries, and the last has between one
/// and `size`.
pub open spec fn evenly_cut(chunks: Seq<Seq<usize>>, size: nat) -> bool {
    &&& forall|c: int| 0 <= c < chunks.len() ==> 1 <= (#[trigger] chunks[c]).len() <= size
    &&& forall|c: int| 0 <= c < chunks.len() - 1 ==> (#[trigger] chunks[c]).len() == size
}

/// Cuts `order` into consecutive chunks of `size` entries; the last chunk
/// takes what is left.
pub fn chunks(order: &Vec<usize>, size: usize) -> (out: Vec<Vec<usize>>)
    requires
        size >= 1,
    ensures
        joined(chunks_of(&out)) == order@,
        evenly_cut(chunks_of(&out), size as nat),
{
    let mut out: Vec<Vec<usize>> = Vec::new();
    let mut current: Vec<usize> = Vec::new();
    let mut i: usize = 0;
    proof {
        assert(chunks_of(&out) =~= Seq::<Seq<usize>>::empty());
        assert(order@.take(0) =~= Seq::<usize>::empty());
        assert(joined(chunks_of(&out)) + current@ =~= order@.take(0));
    }
    while i < order.len()
        invariant
            i <= order.len(),
            size >= 1,
            current.len() < size,
            joined(chunks_of(&out)) + current@ == order@.take(i as int),
            forall|c: int| 0 <= c < out.len() ==> (#[trigger] chunks_of(&out)[c]).len() == size,
        decreases order.len() - i,
    {
        let ghost done = joined(chunks_of(&out));
        let ghost partial = current@;
        current.push(order[i]);
        proof {
            assert(order@.take(i + 1) =~= order@.take(i as int).push(order@[i as int]));
            assert(done + current@ =~= order@.take(i + 1));
        }
        if current.len() == size {
            let ghost full = current@;
            let ghost before = chunks_of(&out);
            out.push(current);
            current = Vec::new();
            proof {
                let after = chunks_of(&out);
                assert(after =~= before.push(full));
                assert(after.drop_last() =~= before);
                assert(joined(after) == done + full);
                assert(joined(after) + current@ =~= order@.take(i + 1));
                assert forall|c: int| 0 <= c < out.len() implies (#[trigger] chunks_of(&out)[c]).len()
                    == size by {
                    if c < before.len() {
                        assert(after[c] == before[c]);
                    }
                }
            }
        }
        i += 1;
    }
    proof {
        assert(order@.take(i as int) =~= order@);
    }
    if current.len() > 0 {
        let ghost rest = current@;
        let ghost before = chunks_of(&out);
        out.push(current);
        proof {
            let after = chunks_of(&out);
            assert(after =~= before.push(rest));
            assert(after.drop_last() =~= before);
            assert forall|c: int| 0 <= c < after.len() implies 1 <= (#[trigger] after[c]).len()
                <= size by {
                if c < before.len() {
                    assert(after[c] == before[c]);
                }
            }
            assert forall|c: int| 0 <= c < after.len() - 1 implies (#[trigger] after[c]).len()
                == size by {
                assert(after[c] == before[c]);
            }
        }
    } else {
        proof {
            assert(joined(chunks_of(&out)) + Seq::<usize>::empty() =~= joined(chunks_of(&out)));
        }
    }
    out
}

/// Draws the order in which the musicians join, every musician once, and
/// cuts it into the chunks between which the search runs. The order is
/// drawn as a sample of all slots; beyond 32 bits of slots, where the sampler
/// does not take all of them, the slots are shuffled instead.
pub fn construction_plan(musicians: usize, rng: &mut Xoshiro256PlusPlus) -> (plan: Vec<
    Vec<usize>,
>)
    ensures
        joined(chunks_of(&plan)).len() == musicians,
        is_permutation(joined(chunks_of(&plan))),
        evenly_cut(chunks_of(&plan), (if musicians > 50 { musicians / 20 } else { 1 }) as nat),
{
    let order = if musicians > 0xffff_ffff {
        shuffled_order(musicians, rng)
    } else {
        sample(rng, musicians, musicians)
    };
    chunks(&order, chunk_size(musicians))
}

/// Puts the items back into slot order: the `i`-th item belongs to slot
/// `fixup[i]`.
pub fn restore_order<T: Copy>(items: &Vec<T>, fixup: &Vec<usize>, filler: T) -> (out: Vec<T>)
    requires
        fixup.len() == items.len(),
        is_permutation(fixup@),
    ensures
        out.len() == items.len(),
        forall|i: int| 0 <= i < items.len() ==> out[fixup[i] as int] == items[i],
{
    let mut out: Vec<T> = Vec::new();
    let mut k: usize = 0;
    while k < items.len()
        invariant
            k <= items.len(),
            out.len() == k,
        decreases items.len() - k,
    {
        out.push(filler);
        k += 1;
    }
    let mut i: usize = 0;
    while i < items.len()
        invariant
            i <= items.len(),
            out.len() == items.len(),
            fixup.len() == items.len(),
            is_permutation(fixup@),
            forall|j: int| 0 <= j < i ==> out[fixup[j] as int] == items[j],
        decreases items.len() - i,
    {
        let slot = fixup[i];
        let ghost before = out@;
        out[slot] = items[i];
        proof {
            assert forall|j: int| 0 <= j < i + 1 implies out[fixup[j] as int] == items[j] by {
                if j < i {
                    assert(fixup@[j] != fixup@[i as int]);
                    assert(before[fixup[j] as int] == items[j]);
                }
            }
        }
        i += 1;
    }
    out
}

} // verus!
