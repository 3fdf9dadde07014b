//! The integer rules around the delegated genetic search.

use crate::model::Point;
use vstd::prelude::*;

verus! {

/// The genetic search is only run while musicians times attendees stays at
/// or below this.
pub const GENETIC_LIMIT: u128 = 10_000;

/// Number of generations that the genetic search runs for.
pub const GENERATION_LIMIT: u64 = 20;

/// Whether the instance is small enough for the genetic search. A larger
/// instance is handed back unchanged.
pub fn genetic_search_applies(musicians: usize, attendees: usize) -> (applies: bool)
    ensures
        applies == (musicians * attendees <= GENETIC_LIMIT),
{
    assert(musicians * attendees <= 0xffff_ffff_ffff_ffff * 0xffff_ffff_ffff_ffff)
        by (nonlinear_arith)
        requires
            0 <= musicians <= 0xffff_ffff_ffff_ffff,
            0 <= attendees <= 0xffff_ffff_ffff_ffff,
    ;
    (musicians as u128) * (attendees as u128) <= GENETIC_LIMIT
}

/// Size of the initial population for a genome of `genome_len` numbers:
/// twice the genome length, but at least fifty.
pub fn population_size(genome_len: usize) -> (size: usize)
    requires
        2 * genome_len <= usize::MAX,
    ensures
        size == (if 2 * genome_len >= 50 { 2 * genome_len } else { 50 }),
{
    let doubled = 2 * genome_len;
    if doubled >= 50 {
        doubled
    } else {
        50
    }
}

/// The coordinates of the points in one row: `x` and `y` of the first point,
/// then of the second, and so on.
pub open spec fn genome_of<T>(points: Seq<Point<T>>) -> Seq<T> {
    Seq::new(2 * points.len(), |i: int| if i % 2 == 0 { points[i / 2].x } else { points[i / 2].y })
}

/// Encodes placements as a genome: a flat row of coordinates, two per
/// musician.
pub fn genome_from_solution<T: Copy>(points: &Vec<Point<T>>) -> (genome: Vec<T>)
    ensures
        genome@ == genome_of(points@),
{
    let mut genome: Vec<T> = Vec::new();
    let mut i: usize = 0;
    while i < points.len()
        invariant
            i <= points.len(),
            genome.len() == 2 * i,
            forall|j: int| 0 <= j < i ==> genome[2 * j] == points[j].x && genome[2 * j + 1]
                == points[j].y,
        decreases points.len() - i,
    {
        let p = points[i];
        genome.push(p.x);
        genome.push(p.y);
        i += 1;
    }
    proof {
        let expected = genome_of(points@);
        assert forall|k: int| 0 <= k < genome.len() implies genome[k] == expected[k] by {
            let j = k / 2;
            assert(genome[2 * j] == points[j].x && genome[2 * j + 1] == points[j].y);
        }
        assert(genome@ =~= expected);
    }
    genome
}

/// Decodes a genome of even length into placements.
pub fn genome_to_solution<T: Copy>(genome: &Vec<T>) -> (points: Vec<Point<T>>)
    requires
        genome.len() % 2 == 0,
    ensures
        2 * points.len() == genome.len(),
        forall|j: int|
            0 <= j < points.len() ==> points[j] == (Point {
                x: genome[2 * j],
                y: genome[2 * j + 1],
            }),
        genome_of(points@) == genome@,
{
    let mut points: Vec<Point<T>> = Vec::new();
    let mut i: usize = 0;
    while i < genome.len()
        invariant
            i <= genome.len(),
            i % 2 == 0,
            genome.len() % 2 == 0,
            2 * points.len() == i,
            forall|j: int|
                0 <= j < points.len() ==> points[j] == (Point {
                    x: genome[2 * j],
                    y: genome[2 * j + 1],
                }),
        decreases genome.len() - i,
    {
        points.push(Point { x: genome[i], y: genome[i + 1] });
        i += 2;
    }
    proof {
        let back = genome_of(points@);
        assert forall|k: int| 0 <= k < genome.len() implies back[k] == genome[k] by {
            let j = k / 2;
            assert(points[j] == (Point { x: genome[2 * j], y: genome[2 * j + 1] }));
        }
        assert(back =~= genome@);
    }
    points
}

/// Decoding an encoded row of placements gives the placements back.
pub proof fn lemma_genome_round_trip<T>(points: Seq<Point<T>>, decoded: Seq<Point<T>>)
    requires
        genome_of(decoded) == genome_of(points),
    ensures
        decoded == points,
{
    let g = genome_of(points);
    let h = genome_of(decoded);
    assert(h.len() == g.len());
    assert forall|j: int| 0 <= j < points.len() implies decoded[j] == points[j] by {
        assert(g[2 * j] == points[j].x);
        assert(g[2 * j + 1] == points[j].y);
        assert(h[2 * j] == decoded[j].x);
        assert(h[2 * j + 1] == decoded[j].y);
    }
    assert(decoded =~= points);
}

} // verus!
