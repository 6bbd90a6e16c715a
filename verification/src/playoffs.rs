//! Where a final place leads: the pairings of the play-in and of the
//! quarter-finals, and the name of the round a place enters.

use vstd::prelude::*;

verus! {

/// The place that a place is paired with: 3 with 6 and 4 with 5 in the
/// quarter-finals, 7 with 8 and 9 with 10 in the play-in. Places 1 and 2
/// meet play-in winners, and places below 10 are out; neither has a fixed
/// opponent.
pub open spec fn opponent_of(pos: u32) -> Option<u32> {
    if pos == 3 { Some(6u32) } else if pos == 4 { Some(5u32) } else if pos == 5 { Some(4u32) }
    else if pos == 6 { Some(3u32) } else if pos == 7 { Some(8u32) } else if pos == 8 { Some(7u32) }
    else if pos == 9 { Some(10u32) } else if pos == 10 { Some(9u32) } else { None }
}

/// The name of the round that a place enters.
pub open spec fn round_name_text(pos: u32) -> Seq<char> {
    if pos == 1 || pos == 2 {
        "Cetvrtfinale (ceka PI pobednika)"@
    } else if 3 <= pos <= 6 {
        "Cetvrtfinale"@
    } else if 7 <= pos <= 10 {
        "Plej-in"@
    } else {
        "ELIMINISAN"@
    }
}

/// The place paired with `pos`, if it is fixed.
pub fn opponent_position(pos: u32) -> (r: Option<u32>)
    ensures
        r == opponent_of(pos),
{
    match pos {
        3 => Some(6),
        4 => Some(5),
        5 => Some(4),
        6 => Some(3),
        7 => Some(8),
        8 => Some(7),
        9 => Some(10),
        10 => Some(9),
        _ => None,
    }
}

/// The name of the round that the place enters.
pub fn playoff_round_name(pos: u32) -> (s: &'static str)
    ensures
        s@ == round_name_text(pos),
{
    match pos {
        1 | 2 => "Cetvrtfinale (ceka PI pobednika)",
        3..=6 => "Cetvrtfinale",
        7..=10 => "Plej-in",
        _ => "ELIMINISAN",
    }
}

/// The pairing is mutual: a place from 3 to 10 is paired with another place
/// from 3 to 10 that is paired back with it, in the same round; no other
/// place has a fixed opponent.
pub proof fn law_pairing_mutual(pos: u32)
    ensures
        3 <= pos <= 10 <==> opponent_of(pos) is Some,
        opponent_of(pos) matches Some(q) ==> (3 <= q <= 10 && q != pos && opponent_of(q) == Some(pos)
            && round_name_text(q) == round_name_text(pos)),
{
}

} // verus!
