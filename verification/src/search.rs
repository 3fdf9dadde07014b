//! The improve-or-discard search loop as a state machine.
//!
//! The caller owns the best solution found so far. It asks the machine for
//! the next chain of moves, applies the chain to a copy of the best solution,
//! scores the result and reports the score back; the machine says whether the
//! result replaces the best solution. The search is over when a whole round
//! of chains has brought no improvement.

use crate::model::UNSCORABLE;
use crate::moves::identity;
use crate::rng::{gen_range, pick_one};
use crate::score::ConstraintViolation;
use rand_xoshiro::Xoshiro256PlusPlus;
use vstd::prelude::*;

verus! {

/// Number of chains that are tried in one round.
pub const TRIES: usize = 5;

/// Whether the search goes on.
#[derive(Clone, Copy, Debug, PartialEq, Eq, Structural)]
pub enum Phase {
    /// The best solution may still improve.
    Improving,
    /// A whole round brought no gain, or there was nothing to start from.
    Converged,
}

/// The bookkeeping of one search.
#[derive(Clone, Copy, Debug)]
pub struct Search {
    /// Score of the best solution so far.
    pub best: i64,
    pub phase: Phase,
    /// Chains that remain in the current round.
    pub tries_left: usize,
    /// Length of the chains of the current round.
    pub chain_len: usize,
    /// Whether the current round has improved the best score.
    pub improved: bool,
    /// Number of candidate moves that chains are drawn from.
    pub moves: usize,
}

/// The bookkeeping at the start of a search over `moves` candidate moves. A
/// solution that cannot be scored leaves nothing to improve on.
pub open spec fn started(initial: Result<i64, ConstraintViolation>, moves: usize) -> Search {
    match initial {
        Ok(points) => Search {
            best: points,
            phase: Phase::Improving,
            tries_left: 0,
            chain_len: 0,
            improved: true,
            moves,
        },
        Err(_) => Search {
            best: UNSCORABLE,
            phase: Phase::Converged,
            tries_left: 0,
            chain_len: 0,
            improved: false,
            moves,
        },
    }
}

/// What reporting `outcome` does to the bookkeeping: a score above the best
/// becomes the best and marks the round as improved, anything else changes
/// nothing.
pub open spec fn observed(s: Search, outcome: Result<i64, ConstraintViolation>) -> Search {
    match outcome {
        Ok(points) => if points > s.best {
            Search { best: points, improved: true, ..s }
        } else {
            s
        },
        Err(_) => s,
    }
}

/// Whether reporting `outcome` replaces the best solution.
pub open spec fn adopts(s: Search, outcome: Result<i64, ConstraintViolation>) -> bool {
    outcome matches Ok(points) && points > s.best
}

/// The bookkeeping after a sequence of reports.
pub open spec fn observed_all(s: Search, outcomes: Seq<Result<i64, ConstraintViolation>>) -> Search
    decreases outcomes.len(),
{
    if outcomes.len() == 0 {
        s
    } else {
        observed(observed_all(s, outcomes.drop_last()), outcomes.last())
    }
}

/// The best score never drops, whatever is reported and however often.
pub proof fn lemma_best_never_drops(s: Search, outcomes: Seq<Result<i64, ConstraintViolation>>)
    ensures
        observed_all(s, outcomes).best >= s.best,
        observed_all(s, outcomes).phase == s.phase,
    decreases outcomes.len(),
{
    if outcomes.len() > 0 {
        lemma_best_never_drops(s, outcomes.drop_last());
    }
}

/// After a sequence of reports the best score is the initial one or one of
/// the reported scores, and no reported score exceeds it.
pub proof fn lemma_best_is_maximum(s: Search, outcomes: Seq<Result<i64, ConstraintViolation>>)
    ensures
        forall|i: int|
            0 <= i < outcomes.len() ==> (#[trigger] outcomes[i] matches Ok(points) ==> points
                <= observed_all(s, outcomes).best),
        observed_all(s, outcomes).best == s.best || exists|i: int|
            0 <= i < outcomes.len() && #[trigger] outcomes[i] == Ok::<i64, ConstraintViolation>(
                observed_all(s, outcomes).best,
            ),
    decreases outcomes.len(),
{
    if outcomes.len() > 0 {
        let rest = outcomes.drop_last();
        lemma_best_is_maximum(s, rest);
        let mid = observed_all(s, rest);
        let end = observed_all(s, outcomes);
        assert forall|i: int| 0 <= i < outcomes.len() implies (#[trigger] outcomes[i] matches Ok(
            points,
        ) ==> points <= end.best) by {
            if i < rest.len() {
                assert(outcomes[i] == rest[i]);
            }
        }
        if end.best != s.best {
            if end.best == mid.best {
                let i = choose|i: int|
                    0 <= i < rest.len() && #[trigger] rest[i] == Ok::<i64, ConstraintViolation>(
                        mid.best,
                    );
                assert(outcomes[i] == rest[i]);
            } else {
                assert(outcomes[outcomes.len() - 1] == Ok::<i64, ConstraintViolation>(end.best));
            }
        }
    }
}

/// A chain over `moves` candidate moves: at least one entry, every entry
/// names a candidate, and no entry repeats its predecessor.
pub open spec fn is_chain(chain: Seq<usize>, moves: nat) -> bool {
    &&& chain.len() >= 1
    &&& forall|i: int| 0 <= i < chain.len() ==> (#[trigger] chain[i]) < moves
    &&& forall|i: int| 0 <= i < chain.len() - 1 ==> (#[trigger] chain[i]) != chain[i + 1]
}

/// The candidates other than `prev`, in ascending order.
fn others_than(moves: usize, prev: usize) -> (others: Vec<usize>)
    requires
        prev < moves,
    ensures
        others.len() == moves - 1,
        forall|x: usize| others@.contains(x) <==> (x < moves && x != prev),
{
    let mut others: Vec<usize> = Vec::new();
    let mut k: usize = 0;
    while k < moves
        invariant
            k <= moves,
            prev < moves,
            others.len() == (if k <= prev { k as int } else { k - 1 }),
            forall|x: usize| others@.contains(x) <==> (x < k && x != prev),
        decreases moves - k,
    {
        if k != prev {
            let ghost before = others@;
            others.push(k);
            proof {
                assert forall|x: usize| others@.contains(x) <==> (x < k + 1 && x != prev) by {
                    if others@.contains(x) {
                        let i = choose|i: int| 0 <= i < others@.len() && others@[i] == x;
                        if i < before.len() {
                            assert(before[i] == x);
                            assert(before.contains(x));
                        }
                    }
                    if x < k && x != prev {
                        assert(before.contains(x));
                        let i = choose|i: int| 0 <= i < before.len() && before[i] == x;
                        assert(others@[i] == x);
                    }
                    if x == k {
                        assert(others@[before.len() as int] == x);
                    }
                }
            }
        }
        k += 1;
    }
    others
}

/// Draws a chain of `len` moves. The first move is chosen among all
/// candidates; every further move is chosen among the candidates other
/// than its predecessor.
pub fn sample_chain(moves: usize, len: usize, rng: &mut Xoshiro256PlusPlus) -> (chain: Vec<usize>)
    requires
        1 <= len,
        moves >= 2 || (moves == 1 && len == 1),
    ensures
        chain.len() == len,
        is_chain(chain@, moves as nat),
{
    let mut chain: Vec<usize> = Vec::new();
    let candidates = identity(moves);
    let first = match pick_one(rng, &candidates) {
        Some(x) => x,
        None => 0,
    };
    proof {
        assert(candidates@.contains(first));
        let i = choose|i: int| 0 <= i < candidates@.len() && candidates@[i] == first;
        assert(first < moves);
    }
    chain.push(first);
    let mut prev = first;
    while chain.len() < len
        invariant
            1 <= chain.len() <= len,
            moves >= 2 || (moves == 1 && len == 1),
            prev == chain[chain.len() - 1],
            forall|i: int| 0 <= i < chain.len() ==> (#[trigger] chain[i]) < moves,
            forall|i: int| 0 <= i < chain.len() - 1 ==> (#[trigger] chain[i]) != chain[i + 1],
        decreases len - chain.len(),
    {
        let others = others_than(moves, prev);
        let next = match pick_one(rng, &others) {
            Some(x) => x,
            None => prev,
        };
        assert(others@.contains(next));
        chain.push(next);
        prev = next;
    }
    chain
}

impl Search {
    /// The counters are within their ranges: there is a move to draw, a
    /// round has at most `TRIES` chains, and a running round has a chain
    /// length that the candidates allow.
    pub open spec fn wf(&self) -> bool {
        &&& 1 <= self.moves < usize::MAX
        &&& self.tries_left <= TRIES
        &&& self.tries_left > 0 ==> 1 <= self.chain_len <= self.moves
    }

    /// Starts a search over `moves` candidate moves from the score of the
    /// initial solution.
    pub fn start(initial: Result<i64, ConstraintViolation>, moves: usize) -> (s: Search)
        ensures
            s == started(initial, moves),
            1 <= moves < usize::MAX ==> s.wf(),
    {
        match initial {
            Ok(points) => Search {
                best: points,
                phase: Phase::Improving,
                tries_left: 0,
                chain_len: 0,
                improved: true,
                moves,
            },
            Err(_) => Search {
                best: UNSCORABLE,
                phase: Phase::Converged,
                tries_left: 0,
                chain_len: 0,
                improved: false,
                moves,
            },
        }
    }

    /// Score of the best solution so far.
    pub fn best_score(&self) -> (b: i64)
        ensures
            b == self.best,
    {
        self.best
    }

    /// Whether the search is over.
    pub fn is_converged(&self) -> (c: bool)
        ensures
            c == (self.phase == Phase::Converged),
    {
        match self.phase {
            Phase::Converged => true,
            Phase::Improving => false,
        }
    }

    /// Whether the next request for a chain ends the search: the round is
    /// used up and has brought no gain, or the search is over already.
    pub open spec fn exhausted(&self) -> bool {
        self.phase == Phase::Converged || (self.tries_left == 0 && !self.improved)
    }

    /// Hands out the next chain to try, as indices into the candidate
    /// moves, or `None` when the search is over.
    ///
    /// A new round starts when the previous one is used up and has improved
    /// the best score; it draws one chain length between one and the number
    /// of candidates for all of its `TRIES` chains.
    pub fn next_chain(&mut self, rng: &mut Xoshiro256PlusPlus) -> (chain: Option<Vec<usize>>)
        requires
            old(self).wf(),
        ensures
            final(self).wf(),
            final(self).best == old(self).best,
            final(self).moves == old(self).moves,
            chain is None <==> old(self).exhausted(),
            chain is None ==> final(self).phase == Phase::Converged && final(self).tries_left
                == old(self).tries_left && final(self).improved == old(self).improved
                && final(self).chain_len == old(self).chain_len,
            chain matches Some(c) ==> {
                &&& final(self).phase == Phase::Improving
                &&& is_chain(c@, old(self).moves as nat)
                &&& c.len() == final(self).chain_len
                &&& if old(self).tries_left == 0 {
                    final(self).tries_left == TRIES - 1 && !final(self).improved
                } else {
                    final(self).tries_left == old(self).tries_left - 1 && final(self).improved
                        == old(self).improved && final(self).chain_len == old(self).chain_len
                }
            },
    {
        if self.is_converged() {
            return None;
        }
        if self.tries_left == 0 {
            if !self.improved {
                self.phase = Phase::Converged;
                return None;
            }
            self.improved = false;
            self.tries_left = TRIES;
            self.chain_len = gen_range(rng, 1, self.moves + 1);
        }
        self.tries_left = self.tries_left - 1;
        let chain = sample_chain(self.moves, self.chain_len, rng);
        Some(chain)
    }

    /// Reports the score of the solution that the last chain led to, or the
    /// violation that made it unscorable. Returns whether that solution
    /// replaces the best one: only a score strictly above the best does.
    pub fn observe(&mut self, outcome: Result<i64, ConstraintViolation>) -> (adopt: bool)
        ensures
            *final(self) == observed(*old(self), outcome),
            adopt == adopts(*old(self), outcome),
            final(self).best >= old(self).best,
            final(self).wf() == old(self).wf(),
    {
        match outcome {
            Ok(points) => {
                if points > self.best {
                    self.best = points;
                    self.improved = true;
                    true
                } else {
                    false
                }
            },
            Err(_) => false,
        }
    }
}

/// What happens to a stored solution when a candidate with `candidate`
/// points arrives.
#[derive(Clone, Copy, Debug, PartialEq, Eq, Structural)]
pub enum Verdict {
    /// The stored solution scores higher; it stays.
    NotImproved,
    /// Both score the same; the stored solution stays.
    Unchanged,
    /// The candidate scores higher and replaces the stored solution.
    Improved,
    /// The stored solution cannot be scored; the candidate replaces it.
    ReplacesInvalid,
}

/// The verdict for a stored solution with the outcome `current`.
pub open spec fn verdict_of(current: Result<i64, ConstraintViolation>, candidate: i64) -> Verdict {
    match current {
        Ok(points) => if points > candidate {
            Verdict::NotImproved
        } else if points == candidate {
            Verdict::Unchanged
        } else {
            Verdict::Improved
        },
        Err(_) => Verdict::ReplacesInvalid,
    }
}

/// Whether the verdict has the candidate written over the stored solution.
pub open spec fn overwrites(v: Verdict) -> bool {
    v == Verdict::Improved || v == Verdict::ReplacesInvalid
}

/// Decides whether a candidate replaces the stored solution: only a
/// strictly higher score, or a stored solution that cannot be scored, lets
/// it.
pub fn persist_verdict(current: Result<i64, ConstraintViolation>, candidate: i64) -> (v:
    Verdict)
    ensures
        v == verdict_of(current, candidate),
{
    match current {
        Ok(points) => {
            if points > candidate {
                Verdict::NotImproved
            } else if points == candidate {
                Verdict::Unchanged
            } else {
                Verdict::Improved
            }
        },
        Err(_) => Verdict::ReplacesInvalid,
    }
}

impl Verdict {
    /// Whether the candidate is written.
    pub fn overwrite(&self) -> (b: bool)
        ensures
            b == overwrites(*self),
    {
        match self {
            Verdict::Improved => true,
            Verdict::ReplacesInvalid => true,
            Verdict::NotImproved => false,
            Verdict::Unchanged => false,
        }
    }
}

/// A stored score is never replaced by a lower or equal one.
pub proof fn lemma_persistence_is_monotonic(stored: i64, candidate: i64)
    ensures
        overwrites(verdict_of(Ok(stored), candidate)) <==> candidate > stored,
{
}

} // verus!
