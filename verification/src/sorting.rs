//! Merge sort on lexicographically ordered integer triples.

use vstd::prelude::*;
use vstd::relations::{sorted_by, total_ordering};
use vstd::seq_lib::{lemma_multiset_commutative, lemma_sorted_unique};

verus! {

/// A sortable record: a signed primary key followed by two tie-breakers.
pub type Triple = (i64, usize, usize);

/// Lexicographic "less than or equal" on triples.
pub open spec fn triple_le(a: Triple, b: Triple) -> bool {
    a.0 < b.0 || (a.0 == b.0 && (a.1 < b.1 || (a.1 == b.1 && a.2 <= b.2)))
}

/// Lexicographic strict "less than" on triples.
pub open spec fn triple_lt(a: Triple, b: Triple) -> bool {
    triple_le(a, b) && a != b
}

/// The ordering relation as a first-class spec function.
pub open spec fn triple_order() -> spec_fn(Triple, Triple) -> bool {
    |a: Triple, b: Triple| triple_le(a, b)
}

/// `s` is in ascending lexicographic order.
pub open spec fn ascending(s: Seq<Triple>) -> bool {
    forall|i: int, j: int| 0 <= i < j < s.len() ==> triple_le(#[trigger] s[i], #[trigger] s[j])
}

/// The lexicographic order is a total order.
pub proof fn lemma_triple_order_total()
    ensures
        total_ordering(triple_order()),
{
    let r = triple_order();
    assert forall|x: Triple| #[trigger] r(x, x) by {}
    assert forall|x: Triple, y: Triple| #[trigger] r(x, y) && #[trigger] r(y, x) implies x == y by {}
    assert forall|x: Triple, y: Triple, z: Triple| #[trigger] r(x, y) && #[trigger] r(y, z) implies r(x, z) by {}
    assert forall|x: Triple, y: Triple| #[trigger] r(x, y) || #[trigger] r(y, x) by {}
}

/// An ascending sequence is sorted in the sense of `vstd`.
pub proof fn lemma_ascending_is_sorted(s: Seq<Triple>)
    requires
        ascending(s),
    ensures
        sorted_by(s, triple_order()),
{
    let r = triple_order();
    assert forall|i: int, j: int| 0 <= i < j < s.len() implies #[trigger] r(s[i], s[j]) by {
        assert(triple_le(s[i], s[j]));
    }
}

/// Executable lexicographic comparison.
pub fn precedes(a: Triple, b: Triple) -> (r: bool)
    ensures
        r == triple_le(a, b),
{
    a.0 < b.0 || (a.0 == b.0 && (a.1 < b.1 || (a.1 == b.1 && a.2 <= b.2)))
}

/// Merges two ascending vectors into one ascending vector.
fn merge(a: &Vec<Triple>, b: &Vec<Triple>) -> (out: Vec<Triple>)
    requires
        ascending(a@),
        ascending(b@),
        a.len() + b.len() <= usize::MAX,
    ensures
        ascending(out@),
        out@.to_multiset() == a@.to_multiset().add(b@.to_multiset()),
        out.len() == a.len() + b.len(),
{
    let mut out: Vec<Triple> = Vec::new();
    let mut i: usize = 0;
    let mut j: usize = 0;
    proof {
        assert(a@.take(0) =~= Seq::<Triple>::empty());
        assert(b@.take(0) =~= Seq::<Triple>::empty());
        broadcast use vstd::seq_lib::group_to_multiset_ensures;
        assert(out@.to_multiset() =~= a@.take(0).to_multiset().add(b@.take(0).to_multiset()));
    }
    while i < a.len() || j < b.len()
        invariant
            i <= a.len(),
            j <= b.len(),
            out.len() == i + j,
            a.len() + b.len() <= usize::MAX,
            ascending(a@),
            ascending(b@),
            ascending(out@),
            out@.to_multiset() == a@.take(i as int).to_multiset().add(
                b@.take(j as int).to_multiset(),
            ),
            forall|k: int| 0 <= k < out.len() && i < a.len() ==> triple_le(#[trigger] out@[k], a@[i as int]),
            forall|k: int| 0 <= k < out.len() && j < b.len() ==> triple_le(#[trigger] out@[k], b@[j as int]),
        decreases a.len() - i + (b.len() - j),
    {
        let take_left = if i >= a.len() {
            false
        } else if j >= b.len() {
            true
        } else {
            precedes(a[i], b[j])
        };
        let ghost before = out@;
        if take_left {
            let x = a[i];
            out.push(x);
            proof {
                broadcast use vstd::seq_lib::group_to_multiset_ensures;
                assert(a@.take(i + 1) =~= a@.take(i as int).push(x));
                assert(out@ == before.push(x));
                assert(out@.to_multiset() =~= a@.take(i + 1).to_multiset().add(
                    b@.take(j as int).to_multiset(),
                ));
            }
            i += 1;
        } else {
            let x = b[j];
            out.push(x);
            proof {
                broadcast use vstd::seq_lib::group_to_multiset_ensures;
                assert(b@.take(j + 1) =~= b@.take(j as int).push(x));
                assert(out@ == before.push(x));
                assert(out@.to_multiset() =~= a@.take(i as int).to_multiset().add(
                    b@.take(j + 1).to_multiset(),
                ));
            }
            j += 1;
        }
    }
    proof {
        assert(a@.take(i as int) =~= a@);
        assert(b@.take(j as int) =~= b@);
    }
    out
}

/// Sorts `v[lo..hi]` into a fresh vector.
fn sort_range(v: &Vec<Triple>, lo: usize, hi: usize) -> (out: Vec<Triple>)
    requires
        lo <= hi <= v.len(),
    ensures
        ascending(out@),
        out@.to_multiset() == v@.subrange(lo as int, hi as int).to_multiset(),
        out.len() == hi - lo,
    decreases hi - lo,
{
    if hi - lo <= 1 {
        let mut out: Vec<Triple> = Vec::new();
        if hi - lo == 1 {
            out.push(v[lo]);
        }
        proof {
            assert(out@ =~= v@.subrange(lo as int, hi as int));
        }
        out
    } else {
        let mid = lo + (hi - lo) / 2;
        let left = sort_range(v, lo, mid);
        let right = sort_range(v, mid, hi);
        let out = merge(&left, &right);
        proof {
            let l = v@.subrange(lo as int, mid as int);
            let r = v@.subrange(mid as int, hi as int);
            assert(v@.subrange(lo as int, hi as int) =~= l + r);
            lemma_multiset_commutative(l, r);
        }
        out
    }
}

/// Sorts triples into ascending lexicographic order.
///
/// The result is the one ascending arrangement of the input's elements.
pub fn sort_triples(v: &Vec<Triple>) -> (out: Vec<Triple>)
    ensures
        ascending(out@),
        out@.to_multiset() == v@.to_multiset(),
        out.len() == v.len(),
        out@ == v@.sort_by(triple_order()),
{
    let out = sort_range(v, 0, v.len());
    proof {
        assert(v@.subrange(0, v.len() as int) =~= v@);
        lemma_triple_order_total();
        v@.lemma_sort_by_ensures(triple_order());
        lemma_ascending_is_sorted(out@);
        lemma_sorted_unique(out@, v@.sort_by(triple_order()), triple_order());
    }
    out
}

} // verus!
