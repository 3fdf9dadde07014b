//! The catalogue of local-search moves, their tunable parameters, and the
//! index-level part of the random perturbation moves.

use crate::greedy::rearrange;
use crate::model::{Solution, Task};
use crate::rng::{gen_range, sample, shuffle};
use rand_xoshiro::Xoshiro256PlusPlus;
use vstd::prelude::*;

verus! {

/// The moves that a search chain can be built from.
#[derive(Clone, Copy, Debug, PartialEq, Eq, Structural)]
pub enum Move {
    RigidBody,
    Force,
    ForceBigStep,
    ForceBigGap,
    ForceBigGapBigStep,
    ForceRandomWalk,
    SilentTogether,
    AllTogether,
    OutOfTheWay,
    ZerosAway,
    Greedy,
    RandomSwap,
    RandomChange,
    Border,
}

/// The text that names a move in a report.
pub open spec fn move_name(m: Move) -> Seq<char> {
    match m {
        Move::RigidBody => "Rigid body based"@,
        Move::Force => "Force based"@,
        Move::ForceBigStep => "Force based with big steps"@,
        Move::ForceBigGap => "Force based with big gaps"@,
        Move::ForceBigGapBigStep => "Force based with big gaps and big steps"@,
        Move::ForceRandomWalk => "Force based random walk"@,
        Move::SilentTogether => "Force based silent musicians together"@,
        Move::AllTogether => "Force based musicians together"@,
        Move::OutOfTheWay => "Force based out of the way"@,
        Move::ZerosAway => "Wrong taste away from audience"@,
        Move::Greedy => "Greedy placement"@,
        Move::RandomSwap => "Random swap positions"@,
        Move::RandomChange => "Random change positions"@,
        Move::Border => "Optimize border"@,
    }
}

impl Move {
    /// The name of the move.
    pub fn name(&self) -> (s: &'static str)
        ensures
            s@ == move_name(*self),
    {
        match self {
            Move::RigidBody => "Rigid body based",
            Move::Force => "Force based",
            Move::ForceBigStep => "Force based with big steps",
            Move::ForceBigGap => "Force based with big gaps",
            Move::ForceBigGapBigStep => "Force based with big gaps and big steps",
            Move::ForceRandomWalk => "Force based random walk",
            Move::SilentTogether => "Force based silent musicians together",
            Move::AllTogether => "Force based musicians together",
            Move::OutOfTheWay => "Force based out of the way",
            Move::ZerosAway => "Wrong taste away from audience",
            Move::Greedy => "Greedy placement",
            Move::RandomSwap => "Random swap positions",
            Move::RandomChange => "Random change positions",
            Move::Border => "Optimize border",
        }
    }
}

/// The moves that never leave a valid solution invalid.
pub open spec fn safe_move_list() -> Seq<Move> {
    seq![
        Move::RigidBody,
        Move::Force,
        Move::ForceBigStep,
        Move::ForceBigGap,
        Move::ForceBigGapBigStep,
        Move::ForceRandomWalk,
        Move::SilentTogether,
        Move::AllTogether,
        Move::OutOfTheWay,
        Move::ZerosAway,
        Move::Greedy,
    ]
}

/// The safe moves followed by the two random perturbations.
pub open spec fn all_move_list() -> Seq<Move> {
    safe_move_list().push(Move::RandomSwap).push(Move::RandomChange)
}

/// The moves of the closing phase of a search.
pub open spec fn final_move_list() -> Seq<Move> {
    seq![Move::RigidBody, Move::SilentTogether, Move::Greedy]
}

/// The safe moves, in their fixed order.
pub fn safe_optimizers() -> (v: Vec<Move>)
    ensures
        v@ == safe_move_list(),
{
    let mut v: Vec<Move> = Vec::new();
    v.push(Move::RigidBody);
    v.push(Move::Force);
    v.push(Move::ForceBigStep);
    v.push(Move::ForceBigGap);
    v.push(Move::ForceBigGapBigStep);
    v.push(Move::ForceRandomWalk);
    v.push(Move::SilentTogether);
    v.push(Move::AllTogether);
    v.push(Move::OutOfTheWay);
    v.push(Move::ZerosAway);
    v.push(Move::Greedy);
    assert(v@ =~= safe_move_list());
    v
}

/// Every move that a general search draws from.
pub fn all_optimizers() -> (v: Vec<Move>)
    ensures
        v@ == all_move_list(),
{
    let mut v = safe_optimizers();
    v.push(Move::RandomSwap);
    v.push(Move::RandomChange);
    v
}

/// The moves of the closing phase.
pub fn final_optimizers() -> (v: Vec<Move>)
    ensures
        v@ == final_move_list(),
{
    let mut v: Vec<Move> = Vec::new();
    v.push(Move::RigidBody);
    v.push(Move::SilentTogether);
    v.push(Move::Greedy);
    assert(v@ =~= final_move_list());
    v
}

/// Parameters of a force-directed move. Multipliers, decays and the gap are
/// given in thousandths.
#[derive(Clone, Copy, Debug, PartialEq, Eq, Structural)]
pub struct ForceParams {
    pub steps: usize,
    pub refresh_visibility_rate: usize,
    pub random_walk_multiplier: u32,
    pub random_walk_decay: u32,
    pub optimizing_force_multiplier: u32,
    pub optimizing_force_decay: u32,
    pub relaxing_force_multiplier: u32,
    pub relaxing_force_decay: u32,
    pub force_gap_size: u32,
}

/// The standard parameters: a hundred steps, visibility refreshed every
/// tenth, no extra gap.
pub open spec fn standard_params() -> ForceParams {
    ForceParams {
        steps: 100,
        refresh_visibility_rate: 10,
        random_walk_multiplier: 500,
        random_walk_decay: 900,
        optimizing_force_multiplier: 1000,
        optimizing_force_decay: 999,
        relaxing_force_multiplier: 500,
        relaxing_force_decay: 999,
        force_gap_size: 0,
    }
}

impl Default for ForceParams {
    fn default() -> (p: ForceParams)
        ensures
            p == standard_params(),
    {
        ForceParams {
            steps: 100,
            refresh_visibility_rate: 10,
            random_walk_multiplier: 500,
            random_walk_decay: 900,
            optimizing_force_multiplier: 1000,
            optimizing_force_decay: 999,
            relaxing_force_multiplier: 500,
            relaxing_force_decay: 999,
            force_gap_size: 0,
        }
    }
}

/// Number of steps of the rigid-body simulation.
pub const RIGID_BODY_STEPS: usize = 200;

/// The rigid-body simulation recomputes visibility after every this many
/// steps.
pub const RIGID_BODY_REFRESH_RATE: usize = 10;

/// Whether visibility is recomputed after step `step`, counted from zero:
/// after every `rate`-th step.
pub fn refresh_due(step: usize, rate: usize) -> (due: bool)
    requires
        rate > 0,
        step < usize::MAX,
    ensures
        due == ((step + 1) % (rate as int) == 0),
{
    (step + 1) % rate == 0
}

impl ForceParams {
    /// A strong, quickly fading pull and push.
    pub fn big_step() -> (p: ForceParams)
        ensures
            p == (ForceParams {
                optimizing_force_multiplier: 100_000,
                optimizing_force_decay: 990,
                relaxing_force_multiplier: 2000,
                relaxing_force_decay: 950,
                ..standard_params()
            }),
    {
        ForceParams {
            steps: 100,
            refresh_visibility_rate: 10,
            random_walk_multiplier: 500,
            random_walk_decay: 900,
            optimizing_force_multiplier: 100_000,
            optimizing_force_decay: 990,
            relaxing_force_multiplier: 2000,
            relaxing_force_decay: 950,
            force_gap_size: 0,
        }
    }

    /// One more musician radius between musicians.
    pub fn big_gap() -> (p: ForceParams)
        ensures
            p == (ForceParams { force_gap_size: 10_000, ..standard_params() }),
    {
        ForceParams {
            steps: 100,
            refresh_visibility_rate: 10,
            random_walk_multiplier: 500,
            random_walk_decay: 900,
            optimizing_force_multiplier: 1000,
            optimizing_force_decay: 999,
            relaxing_force_multiplier: 500,
            relaxing_force_decay: 999,
            force_gap_size: 10_000,
        }
    }

    /// Both the wide gap and the strong pull.
    pub fn big_gap_big_step() -> (p: ForceParams)
        ensures
            p == (ForceParams {
                optimizing_force_multiplier: 100_000,
                optimizing_force_decay: 990,
                force_gap_size: 10_000,
                ..standard_params()
            }),
    {
        ForceParams {
            steps: 100,
            refresh_visibility_rate: 10,
            random_walk_multiplier: 500,
            random_walk_decay: 900,
            optimizing_force_multiplier: 100_000,
            optimizing_force_decay: 990,
            relaxing_force_multiplier: 500,
            relaxing_force_decay: 999,
            force_gap_size: 10_000,
        }
    }
}

/// The parameters that a move of the force-directed family runs with, and
/// `None` for the other moves.
pub open spec fn params_of(m: Move) -> Option<ForceParams> {
    match m {
        Move::Force => Some(standard_params()),
        Move::ForceBigStep => Some(
            ForceParams {
                optimizing_force_multiplier: 100_000,
                optimizing_force_decay: 990,
                relaxing_force_multiplier: 2000,
                relaxing_force_decay: 950,
                ..standard_params()
            },
        ),
        Move::ForceBigGap => Some(ForceParams { force_gap_size: 10_000, ..standard_params() }),
        Move::ForceBigGapBigStep => Some(
            ForceParams {
                optimizing_force_multiplier: 100_000,
                optimizing_force_decay: 990,
                force_gap_size: 10_000,
                ..standard_params()
            },
        ),
        Move::ForceRandomWalk => Some(standard_params()),
        Move::SilentTogether => Some(standard_params()),
        Move::AllTogether => Some(standard_params()),
        Move::OutOfTheWay => Some(standard_params()),
        Move::ZerosAway => Some(standard_params()),
        Move::RigidBody => None,
        Move::Greedy => None,
        Move::RandomSwap => None,
        Move::RandomChange => None,
        Move::Border => None,
    }
}

/// Whether the move has anything to do on a task: the moves that pull
/// musicians of one instrument together only matter where pillars make
/// closeness count.
pub open spec fn applies_to(m: Move, has_pillars: bool) -> bool {
    match m {
        Move::SilentTogether => has_pillars,
        Move::AllTogether => has_pillars,
        _ => true,
    }
}

impl Move {
    /// The parameters of a force-directed move.
    pub fn force_params(&self) -> (p: Option<ForceParams>)
        ensures
            p == params_of(*self),
    {
        match self {
            Move::Force => Some(ForceParams::default()),
            Move::ForceBigStep => Some(ForceParams::big_step()),
            Move::ForceBigGap => Some(ForceParams::big_gap()),
            Move::ForceBigGapBigStep => Some(ForceParams::big_gap_big_step()),
            Move::ForceRandomWalk => Some(ForceParams::default()),
            Move::SilentTogether => Some(ForceParams::default()),
            Move::AllTogether => Some(ForceParams::default()),
            Move::OutOfTheWay => Some(ForceParams::default()),
            Move::ZerosAway => Some(ForceParams::default()),
            Move::RigidBody => None,
            Move::Greedy => None,
            Move::RandomSwap => None,
            Move::RandomChange => None,
            Move::Border => None,
        }
    }

    /// Whether the move is carried out on a task with or without pillars.
    /// A move that does not apply hands its input back unchanged.
    pub fn applies(&self, has_pillars: bool) -> (b: bool)
        ensures
            b == applies_to(*self, has_pillars),
    {
        match self {
            Move::SilentTogether => has_pillars,
            Move::AllTogether => has_pillars,
            _ => true,
        }
    }
}

/// The vector `0, 1, .., n - 1`.
pub fn identity(n: usize) -> (v: Vec<usize>)
    ensures
        v.len() == n,
        forall|i: int| 0 <= i < n ==> v[i] == i,
{
    let mut v: Vec<usize> = Vec::new();
    let mut i: usize = 0;
    while i < n
        invariant
            i <= n,
            v.len() == i,
            forall|j: int| 0 <= j < i ==> v[j] == j,
        decreases n - i,
    {
        v.push(i);
        i += 1;
    }
    v
}

/// `s` lists every index below its length exactly once.
pub open spec fn is_permutation(s: Seq<usize>) -> bool {
    &&& s.no_duplicates()
    &&& forall|i: int| 0 <= i < s.len() ==> (#[trigger] s[i]) < s.len()
}

/// How many swaps a random-swap move attempts: a twentieth of the
/// musicians, but at least two and at most five.
pub open spec fn swap_count_spec(musicians: nat) -> nat {
    let twentieth = musicians / 20;
    if twentieth < 2 {
        2
    } else if twentieth > 5 {
        5
    } else {
        twentieth
    }
}

/// Executable form of [`swap_count_spec`].
pub fn swap_count(musicians: usize) -> (n: usize)
    ensures
        n == swap_count_spec(musicians as nat),
{
    let twentieth = musicians / 20;
    if twentieth < 2 {
        2
    } else if twentieth > 5 {
        5
    } else {
        twentieth
    }
}

/// The result of exchanging the entries at the drawn pairs, one pair after
/// the other.
pub open spec fn swapped(s: Seq<usize>, draws: Seq<(usize, usize)>) -> Seq<usize>
    decreases draws.len(),
{
    if draws.len() == 0 {
        s
    } else {
        let before = swapped(s, draws.drop_last());
        let (from, to) = draws.last();
        before.update(from as int, before[to as int]).update(to as int, before[from as int])
    }
}

/// Exchanging two entries of a permutation gives a permutation.
proof fn lemma_swap_keeps_permutation(s: Seq<usize>, from: int, to: int)
    requires
        is_permutation(s),
        0 <= from < s.len(),
        0 <= to < s.len(),
    ensures
        is_permutation(s.update(from, s[to]).update(to, s[from])),
{
    let t = s.update(from, s[to]).update(to, s[from]);
    assert forall|i: int, j: int| 0 <= i < t.len() && 0 <= j < t.len() && i != j implies t[i]
        != t[j] by {
        let pi = if i == from { to } else if i == to { from } else { i };
        let pj = if j == from { to } else if j == to { from } else { j };
        assert(t[i] == s[pi]);
        assert(t[j] == s[pj]);
        assert(pi != pj);
    }
    assert forall|i: int| 0 <= i < t.len() implies (#[trigger] t[i]) < t.len() by {
        let pi = if i == from { to } else if i == to { from } else { i };
        assert(t[i] == s[pi]);
    }
}

/// Applies the drawn exchanges to the identity arrangement. Entry `m` of the
/// result is the slot whose occupant ends up on slot `m`.
pub fn apply_swaps(musicians: usize, draws: &Vec<(usize, usize)>) -> (source: Vec<usize>)
    requires
        forall|d: int|
            0 <= d < draws.len() ==> (#[trigger] draws[d]).0 < musicians && draws[d].1 < musicians,
    ensures
        source.len() == musicians,
        source@ == swapped(identity_of(musicians as nat), draws@),
        is_permutation(source@),
{
    let mut source = identity(musicians);
    let ghost start = Seq::new(musicians as nat, |i: int| i as usize);
    let mut d: usize = 0;
    proof {
        assert(source@ =~= start);
        assert(draws@.take(0) =~= Seq::<(usize, usize)>::empty());
    }
    while d < draws.len()
        invariant
            d <= draws.len(),
            source.len() == musicians,
            forall|e: int|
                0 <= e < draws.len() ==> (#[trigger] draws[e]).0 < musicians && draws[e].1
                    < musicians,
            source@ == swapped(start, draws@.take(d as int)),
            is_permutation(source@),
        decreases draws.len() - d,
    {
        let (from, to) = draws[d];
        let ghost before = source@;
        let a = source[from];
        let b = source[to];
        source[from] = b;
        source[to] = a;
        proof {
            assert(draws@.take(d + 1).drop_last() =~= draws@.take(d as int));
            assert(draws@.take(d + 1).last() == draws@[d as int]);
            lemma_swap_keeps_permutation(before, from as int, to as int);
            assert(source@ =~= before.update(from as int, before[to as int]).update(
                to as int,
                before[from as int],
            ));
        }
        d += 1;
    }
    proof {
        assert(draws@.take(d as int) =~= draws@);
    }
    source
}

/// How many pairs a random-swap move draws: none where there is no
/// musician, else `swap_count_spec` many.
pub open spec fn swaps_drawn(musicians: nat) -> nat {
    if musicians == 0 {
        0
    } else {
        swap_count_spec(musicians)
    }
}

/// `draws` is what a random-swap move can draw for `musicians` slots: the
/// right number of pairs, every slot below `musicians`.
pub open spec fn possible_draws(draws: Seq<(usize, usize)>, musicians: nat) -> bool {
    &&& draws.len() == swaps_drawn(musicians)
    &&& forall|d: int|
        0 <= d < draws.len() ==> (#[trigger] draws[d]).0 < musicians && draws[d].1 < musicians
}

/// The arrangement in which every slot keeps its occupant.
pub open spec fn identity_of(musicians: nat) -> Seq<usize> {
    Seq::new(musicians, |i: int| i as usize)
}

/// Draws the pairs of a random-swap move and applies them to the identity
/// arrangement: `swap_count` pairs of slots, each slot drawn uniformly, and
/// nothing where there is no musician. Whatever is drawn, the result is
/// the permutation of the slots that comes from that many exchanges.
pub fn draw_swaps(musicians: usize, rng: &mut Xoshiro256PlusPlus) -> (source: Vec<usize>)
    ensures
        source.len() == musicians,
        is_permutation(source@),
        exists|draws: Seq<(usize, usize)>|
            #![trigger possible_draws(draws, musicians as nat)]
            possible_draws(draws, musicians as nat) && source@ == swapped(
                identity_of(musicians as nat),
                draws,
            ),
{
    let mut draws: Vec<(usize, usize)> = Vec::new();
    if musicians > 0 {
        let count = swap_count(musicians);
        let mut i: usize = 0;
        while i < count
            invariant
                i <= count,
                musicians > 0,
                draws.len() == i,
                forall|d: int|
                    0 <= d < draws.len() ==> (#[trigger] draws[d]).0 < musicians && draws[d].1
                        < musicians,
            decreases count - i,
        {
            let from = gen_range(rng, 0, musicians);
            let to = gen_range(rng, 0, musicians);
            draws.push((from, to));
            i += 1;
        }
    }
    let source = apply_swaps(musicians, &draws);
    proof {
        assert(possible_draws(draws@, musicians as nat));
    }
    source
}

/// The solution and the task have one position and one volume per
/// musician.
pub open spec fn one_per_musician<T>(task: &Task<T>, solution: &Solution<T>) -> bool {
    solution.placements.len() == task.musicians.len() && solution.volumes.len()
        == task.musicians.len()
}

/// The random-swap move: exchanges the musicians of a few randomly drawn
/// pairs of slots, positions and volumes together. The result is the input
/// rearranged by the exchanges of some possible draw. A solution that does
/// not have one position and one volume per musician is handed back as it
/// is, and so is an empty one.
pub fn random_swap_positions<T: Copy>(
    task: &Task<T>,
    solution: &Solution<T>,
    rng: &mut Xoshiro256PlusPlus,
) -> (res: Solution<T>)
    ensures
        res.placements.len() == solution.placements.len(),
        res.volumes.len() == solution.volumes.len(),
        !one_per_musician(task, solution) ==> res@ == solution@,
        one_per_musician(task, solution) ==> exists|draws: Seq<(usize, usize)>|
            #![trigger possible_draws(draws, task.musicians.len() as nat)]
            {
                &&& possible_draws(draws, task.musicians.len() as nat)
                &&& forall|m: int|
                    0 <= m < task.musicians.len() ==> res.placements[m]
                        == solution.placements[swapped(
                        identity_of(task.musicians.len() as nat),
                        draws,
                    )[m] as int] && res.volumes[m] == solution.volumes[swapped(
                        identity_of(task.musicians.len() as nat),
                        draws,
                    )[m] as int]
            },
{
    let musicians = task.musicians.len();
    if solution.placements.len() != musicians || solution.volumes.len() != musicians {
        let keep_placements = identity(solution.placements.len());
        let keep_volumes = identity(solution.volumes.len());
        let placements = rearrange(&solution.placements, &keep_placements);
        let volumes = rearrange(&solution.volumes, &keep_volumes);
        proof {
            assert(placements@ =~= solution.placements@);
            assert(volumes@ =~= solution.volumes@);
        }
        return Solution { placements, volumes };
    }
    let source = draw_swaps(musicians, rng);
    let placements = rearrange(&solution.placements, &source);
    let volumes = rearrange(&solution.volumes, &source);
    let res = Solution { placements, volumes };
    proof {
        let draws = choose|draws: Seq<(usize, usize)>|
            #![trigger possible_draws(draws, musicians as nat)]
            possible_draws(draws, musicians as nat) && source@ == swapped(
                identity_of(musicians as nat),
                draws,
            );
        assert(possible_draws(draws, task.musicians.len() as nat));
        assert forall|m: int| 0 <= m < task.musicians.len() implies res.placements[m]
            == solution.placements[swapped(identity_of(task.musicians.len() as nat), draws)[m] as int]
            && res.volumes[m] == solution.volumes[swapped(
            identity_of(task.musicians.len() as nat),
            draws,
        )[m] as int] by {
            assert(source@[m] == swapped(identity_of(musicians as nat), draws)[m]);
        }
    }
    res
}

/// How many relocations a random-change move attempts: a tenth of the
/// musicians, but at least one.
pub fn change_count(musicians: usize) -> (n: usize)
    ensures
        n == (if musicians / 10 >= 1 { musicians / 10 } else { 1 }),
{
    let tenth = musicians / 10;
    if tenth >= 1 {
        tenth
    } else {
        1
    }
}

/// Draws the musicians that a random-change move tries to relocate, one
/// uniform draw per attempt. Where there is no musician there is nothing
/// to relocate.
pub fn relocation_targets(musicians: usize, rng: &mut Xoshiro256PlusPlus) -> (targets: Vec<
    usize,
>)
    ensures
        targets.len() == (if musicians == 0 {
            0
        } else if musicians / 10 >= 1 {
            musicians / 10
        } else {
            1
        }),
        forall|i: int| 0 <= i < targets.len() ==> targets[i] < musicians,
{
    let mut targets: Vec<usize> = Vec::new();
    if musicians == 0 {
        return targets;
    }
    let count = change_count(musicians);
    let mut i: usize = 0;
    while i < count
        invariant
            i <= count,
            musicians > 0,
            targets.len() == i,
            forall|j: int| 0 <= j < targets.len() ==> targets[j] < musicians,
        decreases count - i,
    {
        let target = gen_range(rng, 0, musicians);
        targets.push(target);
        i += 1;
    }
    targets
}

/// A random order in which one force step moves the musicians: every slot
/// once.
pub fn shuffled_order(musicians: usize, rng: &mut Xoshiro256PlusPlus) -> (order: Vec<usize>)
    ensures
        order.len() == musicians,
        is_permutation(order@),
{
    let mut order = identity(musicians);
    let ghost before = order@;
    shuffle(rng, &mut order);
    proof {
        lemma_rearranged_permutation(before, order@);
    }
    order
}

/// A rearrangement of a permutation is a permutation.
pub proof fn lemma_rearranged_permutation(a: Seq<usize>, b: Seq<usize>)
    requires
        is_permutation(a),
        a.to_multiset() == b.to_multiset(),
    ensures
        b.len() == a.len(),
        is_permutation(b),
{
    broadcast use vstd::seq_lib::group_to_multiset_ensures;

    vstd::seq_lib::to_multiset_len(a);
    vstd::seq_lib::to_multiset_len(b);
    a.lemma_multiset_has_no_duplicates();
    b.lemma_multiset_has_no_duplicates_conv();
    assert forall|i: int| 0 <= i < b.len() implies (#[trigger] b[i]) < b.len() by {
        let x = b[i];
        assert(b.contains(x));
        vstd::seq_lib::to_multiset_contains(b, x);
        vstd::seq_lib::to_multiset_contains(a, x);
        let q = choose|q: int| 0 <= q < a.len() && a[q] == x;
        assert(a[q] < a.len());
    }
}

/// How many attendees or musicians the out-of-the-way force looks at.
pub const SAMPLE_LIMIT: usize = 20;

/// Draws the distinct indices that the out-of-the-way force looks at: all
/// of them if there are at most `SAMPLE_LIMIT`, else `SAMPLE_LIMIT` of them.
pub fn sample_some(length: usize, rng: &mut Xoshiro256PlusPlus) -> (picked: Vec<usize>)
    ensures
        picked.len() == (if length <= SAMPLE_LIMIT { length } else { SAMPLE_LIMIT }),
        picked@.no_duplicates(),
        forall|i: int| 0 <= i < picked.len() ==> picked[i] < length,
{
    let amount = if length <= SAMPLE_LIMIT { length } else { SAMPLE_LIMIT };
    sample(rng, length, amount)
}

} // verus!
