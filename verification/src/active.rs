//! The set of obstacles that the sweep line currently crosses, kept in an
//! ordered set so that "is anything at most this far away?" is answered by
//! its first element.

use std::collections::BTreeSet;
use vstd::prelude::*;

verus! {

/// One active obstacle: its distance key and its index.
pub type Entry = (i64, usize);

/// The number under which an entry is stored: the distance in the upper
/// half, the index in the lower, so that numbers are ordered as entries
/// are by distance first.
pub open spec fn code(e: Entry) -> int {
    e.0 * 0x1_0000_0000_0000_0000 + e.1
}

/// Executable form of [`code`].
fn encode(e: Entry) -> (k: i128)
    ensures
        k == code(e),
{
    (e.0 as i128) * 0x1_0000_0000_0000_0000 + (e.1 as i128)
}

/// The smallest element of the set, read with
/// `std::collections::BTreeSet::first`: none exactly if the set is empty,
/// else an element that no element is smaller than.
#[verifier::external_body]
fn first(set: &BTreeSet<i128>) -> (k: Option<i128>)
    ensures
        k is None ==> forall|x: i128| !set@.contains(x),
        k matches Some(least) ==> set@.contains(least) && forall|x: i128|
            set@.contains(x) ==> least <= x,
{
    set.first().copied()
}

/// The obstacles that the sweep line currently crosses.
pub struct ActiveSet {
    entries: BTreeSet<i128>,
}

impl ActiveSet {
    /// Whether `e` is in the set.
    pub closed spec fn has(&self, e: Entry) -> bool {
        self.entries@.contains(code(e) as i128)
    }

    /// Every stored number stands for an entry.
    pub closed spec fn wf(&self) -> bool {
        forall|k: i128| #[trigger]
            self.entries@.contains(k) ==> exists|e: Entry| #[trigger] code(e) == k
    }

    /// The empty set.
    pub fn new() -> (s: ActiveSet)
        ensures
            s.wf(),
            forall|e: Entry| !s.has(e),
    {
        ActiveSet { entries: BTreeSet::new() }
    }

    /// Adds an entry.
    pub fn insert(&mut self, e: Entry)
        requires
            old(self).wf(),
        ensures
            final(self).wf(),
            forall|x: Entry| final(self).has(x) <==> (old(self).has(x) || x == e),
    {
        broadcast use vstd::std_specs::btree::group_btree_axioms;

        let k = encode(e);
        self.entries.insert(k);
        proof {
            assert forall|x: Entry| self.has(x) <==> (old(self).has(x) || x == e) by {
                if code(x) == code(e) {
                    assert(x.1 == e.1 && x.0 == e.0);
                }
            }
            assert forall|j: i128| #[trigger] self.entries@.contains(j) implies exists|x: Entry|
                #[trigger] code(x) == j by {
                if j == k {
                    assert(code(e) == j);
                }
            }
        }
    }

    /// Removes an entry.
    pub fn remove(&mut self, e: Entry)
        requires
            old(self).wf(),
        ensures
            final(self).wf(),
            forall|x: Entry| final(self).has(x) <==> (old(self).has(x) && x != e),
    {
        broadcast use vstd::std_specs::btree::group_btree_axioms;

        let k = encode(e);
        self.entries.remove(&k);
        proof {
            assert forall|x: Entry| self.has(x) <==> (old(self).has(x) && x != e) by {
                if code(x) == code(e) {
                    assert(x.1 == e.1 && x.0 == e.0);
                }
            }
        }
    }

    /// Whether some entry has a distance of at most `limit`.
    pub fn reaches(&self, limit: i64) -> (r: bool)
        requires
            self.wf(),
        ensures
            r <==> exists|e: Entry| self.has(e) && e.0 <= limit,
    {
        let bound = (limit as i128) * 0x1_0000_0000_0000_0000 + 0xffff_ffff_ffff_ffff;
        match first(&self.entries) {
            None => {
                proof {
                    assert forall|e: Entry| !self.has(e) by {}
                }
                false
            },
            Some(least) => {
                proof {
                    let e = choose|e: Entry| #[trigger] code(e) == least;
                    assert(self.has(e));
                    if least <= bound {
                        assert(e.0 <= limit);
                    } else {
                        assert forall|x: Entry| self.has(x) implies x.0 > limit by {
                            assert(least <= code(x));
                        }
                    }
                }
                least <= bound
            },
        }
    }
}

} // verus!
