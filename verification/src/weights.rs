//! How likely each outcome of a remaining game is taken to be, as exact
//! fractions. A game is a coin toss between its two clubs; when the loser of
//! a series' first game wins the return game, the margins of the season's
//! games decide how often it wins by less than the first margin (and the
//! series stays with the first winner) and how often by more (and the series
//! turns). A tie on the margin counts half each way.

use vstd::prelude::*;
use crate::types::RemainingGame;

verus! {

/// Number of games whose margins were counted.
pub const MARGIN_GAMES: u32 = 342;

/// `CUM[m]`: how many of the counted games were won by at most `m` points.
pub const CUM: [u32; 42] = [
    0, 22, 39, 55, 75, 97, 125, 150, 164, 181, 205, 221, 236, 251, 263, 274, 282, 292, 302, 307,
    309, 314, 319, 322, 324, 328, 331, 331, 332, 334, 334, 335, 338, 338, 338, 338, 339, 340, 341,
    341, 341, 342,
];

/// Games won by fewer than `m` points (all of them beyond the table).
pub open spec fn won_below(m: int) -> int {
    if m <= 41 { CUM@[m - 1] as int } else { MARGIN_GAMES as int }
}

/// Games won by at most `m` points.
pub open spec fn won_upto(m: int) -> int {
    if m <= 41 { CUM@[m] as int } else { MARGIN_GAMES as int }
}

/// The first margin as the counts read it: at least 1.
pub open spec fn counted_margin(margin: i32) -> int {
    if margin < 1 { 1 } else { margin as int }
}

/// Twice the games won by less than the margin, plus those won by exactly
/// the margin: the chance of a smaller win, in units of 1/684.
pub open spec fn small_parts(margin: i32) -> int {
    let m = counted_margin(margin);
    2 * won_below(m) + (won_upto(m) - won_below(m))
}

proof fn lemma_cum_rises()
    ensures
        forall|i: int| 1 <= i <= 41 ==> #[trigger] CUM@[i] >= CUM@[i - 1],
        forall|i: int| 0 <= i <= 41 ==> #[trigger] CUM@[i] <= MARGIN_GAMES,
        CUM@[41] == MARGIN_GAMES,
{
    assert(CUM@.len() == 42);
}

/// The chances that the first game's loser wins the return game by less
/// than the first margin, and by more, in units of 1/684: twice the games
/// won by fewer points, plus those won by exactly as many, and the rest.
pub fn margin_split_parts(margin: i32) -> (r: (u32, u32))
    ensures
        r.0 == small_parts(margin),
        r.0 + r.1 == 2 * MARGIN_GAMES,
{
    proof {
        lemma_cum_rises();
    }
    let m: usize = if margin < 1 { 1 } else { margin as usize };
    let lt: u32 = if m <= 41 { CUM[m - 1] } else { 342 };
    let cum_m: u32 = if m <= 41 { CUM[m] } else { 342 };
    let eq = cum_m - lt;
    let small = 2 * lt + eq;
    (small, 684 - small)
}

/// The weights of the options of a game (in the order of the options), in
/// units of 1/1368: a plain game or a series whose first margin was 1 is
/// [684, 684]; any other series is [684, small, big] with the small and big
/// parts of the first margin.
pub open spec fn weight_parts(game: RemainingGame) -> Seq<u32> {
    match game.h2h_info {
        Some(info) => if info.margin == 1 {
            seq![684u32, 684u32]
        } else {
            seq![684u32, small_parts(info.margin) as u32, (684 - small_parts(info.margin)) as u32]
        },
        None => seq![684u32, 684u32],
    }
}

/// The weights of the options of a game, in units of 1/1368.
pub fn outcome_weight_parts(game: &RemainingGame) -> (w: Vec<u32>)
    ensures
        w@ == weight_parts(*game),
{
    match game.h2h_info {
        Some(info) => {
            if info.margin == 1 {
                vec![684, 684]
            } else {
                let (small, big) = margin_split_parts(info.margin);
                vec![684, small, big]
            }
        },
        None => vec![684, 684],
    }
}

/// The sum of the parts.
pub open spec fn sum_parts(w: Seq<u32>) -> int
    decreases w.len(),
{
    if w.len() == 0 { 0 } else { sum_parts(w.drop_last()) + w.last() }
}

/// The weights of a game's options always add up to the whole, and each
/// option has a weight.
pub proof fn law_weights_sum_to_one(game: RemainingGame)
    ensures
        weight_parts(game).len() >= 2,
        sum_parts(weight_parts(game)) == 1368,
{
    lemma_cum_rises();
    let w = weight_parts(game);
    let m = match game.h2h_info { Some(info) => info.margin, None => 1i32 };
    let cm = counted_margin(m);
    if cm <= 41 {
        assert(CUM@[cm - 1] <= CUM@[cm]);
        assert(CUM@[cm] <= MARGIN_GAMES);
    }
    assert(0 <= small_parts(m) <= 684);
    if w.len() == 2 {
        assert(w.drop_last().drop_last() == Seq::<u32>::empty());
        assert(sum_parts(w.drop_last()) == sum_parts(w.drop_last().drop_last()) + w[0]);
    } else {
        assert(w.drop_last().drop_last().drop_last() == Seq::<u32>::empty());
        assert(sum_parts(w.drop_last().drop_last()) == sum_parts(w.drop_last().drop_last().drop_last()) + w[0]);
        assert(sum_parts(w.drop_last()) == sum_parts(w.drop_last().drop_last()) + w[1]);
    }
}

proof fn lemma_cum_monotone(i: int, j: int)
    requires
        0 <= i <= j <= 41,
    ensures
        CUM@[i] <= CUM@[j],
    decreases j - i,
{
    lemma_cum_rises();
    if i < j {
        lemma_cum_monotone(i, j - 1);
        assert(CUM@[j] >= CUM@[j - 1]);
    }
}

/// A larger first margin never makes a smaller win of the return game less
/// likely: the small part grows with the margin and stays within the whole
/// half (684).
pub proof fn law_small_part_grows_with_margin(m1: i32, m2: i32)
    requires
        m1 <= m2,
    ensures
        0 <= small_parts(m1) <= small_parts(m2) <= 684,
{
    lemma_cum_rises();
    let c1 = counted_margin(m1);
    let c2 = counted_margin(m2);
    assert(1 <= c1 <= c2);
    if c2 <= 41 {
        lemma_cum_monotone(c1 - 1, c2 - 1);
        lemma_cum_monotone(c1, c2);
        lemma_cum_monotone(c2 - 1, c2);
        lemma_cum_monotone(c2, 41);
        lemma_cum_monotone(c1 - 1, c1);
    } else if c1 <= 41 {
        lemma_cum_monotone(c1 - 1, c1);
        lemma_cum_monotone(c1, 41);
    }
}

} // verus!
