//! Choosing among the regular start arrangements.

use vstd::prelude::*;

verus! {

/// Above this many attendee-musician-musician triples only the densest
/// arrangements are tried.
pub const LARGE_INSTANCE: u128 = 1_863_225_000;

/// Whether the instance is so large that only the short list of spreads is
/// tried.
pub fn use_short_spread_list(attendees: usize, musicians: usize) -> (short: bool)
    ensures
        short == (attendees * musicians * musicians > LARGE_INSTANCE),
{
    assert(musicians * musicians <= 0xffff_ffff_ffff_ffff * 0xffff_ffff_ffff_ffff)
        by (nonlinear_arith)
        requires
            0 <= musicians <= 0xffff_ffff_ffff_ffff,
    ;
    let squared: u128 = (musicians as u128) * (musicians as u128);
    if attendees == 0 {
        assert(attendees * musicians * musicians == 0) by (nonlinear_arith)
            requires
                attendees == 0,
        ;
        false
    } else if squared > LARGE_INSTANCE {
        assert(attendees * musicians * musicians > LARGE_INSTANCE) by (nonlinear_arith)
            requires
                attendees >= 1,
                musicians * musicians > LARGE_INSTANCE,
        ;
        true
    } else {
        assert(attendees * musicians * musicians == attendees * (musicians * musicians))
            by (nonlinear_arith);
        assert(attendees * (musicians * musicians) <= 0x1_0000_0000_0000_0000 * 1_863_225_000)
            by (nonlinear_arith)
            requires
                attendees <= 0xffff_ffff_ffff_ffff,
                0 <= musicians * musicians <= 1_863_225_000,
        ;
        (attendees as u128) * squared > LARGE_INSTANCE
    }
}

/// The spreads that are always tried, in thousandths of the musician radius.
pub open spec fn spread_list(short: bool) -> Seq<u32> {
    if short {
        seq![1100u32, 1010, 1000]
    } else {
        seq![5000u32, 3000, 2000, 1500, 1100, 1050, 1010, 1005, 1001, 1000]
    }
}

/// The spreads that are always tried, widest first.
pub fn fixed_spreads(short: bool) -> (spreads: Vec<u32>)
    ensures
        spreads@ == spread_list(short),
{
    let mut spreads: Vec<u32> = Vec::new();
    if short {
        spreads.push(1100);
        spreads.push(1010);
        spreads.push(1000);
    } else {
        spreads.push(5000);
        spreads.push(3000);
        spreads.push(2000);
        spreads.push(1500);
        spreads.push(1100);
        spreads.push(1050);
        spreads.push(1010);
        spreads.push(1005);
        spreads.push(1001);
        spreads.push(1000);
    }
    assert(spreads@ =~= spread_list(short));
    spreads
}

/// Picks the start arrangement with the highest key; among equals the last
/// one wins.
pub fn best_start(keys: &Vec<i64>) -> (best: usize)
    requires
        keys.len() > 0,
    ensures
        best < keys.len(),
        forall|i: int| 0 <= i < keys.len() ==> keys[i] <= keys[best as int],
        forall|i: int| best < i < keys.len() ==> keys[i] < keys[best as int],
{
    let mut best: usize = 0;
    let mut i: usize = 1;
    while i < keys.len()
        invariant
            1 <= i <= keys.len(),
            best < i,
            forall|j: int| 0 <= j < i ==> keys[j] <= keys[best as int],
            forall|j: int| best < j < i ==> keys[j] < keys[best as int],
        decreases keys.len() - i,
    {
        if keys[i] >= keys[best] {
            best = i;
        }
        i += 1;
    }
    best
}

} // verus!
