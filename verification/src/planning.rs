//! Planning the enumeration of scenarios: the options of each remaining
//! game and their labels, which clubs can still end level with the followed
//! club, which games matter for it, and how a scenario number picks one
//! option per game.

use vstd::prelude::*;
use std::collections::HashMap;
use crate::team::{Team, RELEVANT_TEAMS, TEAM_COUNT, lemma_ord_index, team_at};
use crate::weights::{weight_parts, outcome_weight_parts};
use crate::types::{TeamStats, RemainingGame, GameOutcome};
use crate::text::{int_text, push_int, join_text, lemma_join_push};
use crate::playoffs::{opponent_of, opponent_position};
use crate::scenario::{winner_loser, ScenarioResult};

verus! {

/// The options of a game, in the order that the enumeration numbers them:
/// home and away win for a plain game; for a game that completes a series,
/// the first winner winning again, then (unless the first margin was 1) the
/// first loser winning by less, then the first loser winning by more.
pub open spec fn game_options(game: RemainingGame) -> Seq<GameOutcome> {
    match game.h2h_info {
        Some(info) => {
            let first = if info.first_winner == game.home { GameOutcome::HomeWin } else { GameOutcome::AwayWin };
            if info.margin == 1 {
                seq![first, GameOutcome::H2HLoserWinsBig]
            } else {
                seq![first, GameOutcome::H2HLoserWinsSmall, GameOutcome::H2HLoserWinsBig]
            }
        },
        None => seq![GameOutcome::HomeWin, GameOutcome::AwayWin],
    }
}

/// The options of a game.
pub fn build_game_options(game: &RemainingGame) -> (v: Vec<GameOutcome>)
    ensures
        v@ == game_options(*game),
{
    match game.h2h_info {
        Some(info) => {
            let first = if info.first_winner == game.home { GameOutcome::HomeWin } else { GameOutcome::AwayWin };
            if info.margin == 1 {
                vec![first, GameOutcome::H2HLoserWinsBig]
            } else {
                vec![first, GameOutcome::H2HLoserWinsSmall, GameOutcome::H2HLoserWinsBig]
            }
        },
        None => vec![GameOutcome::HomeWin, GameOutcome::AwayWin],
    }
}

/// The label of an option of a game.
pub open spec fn option_label(game: RemainingGame, idx: usize) -> Seq<char> {
    match game.h2h_info {
        Some(info) => {
            let opts: int = if info.margin == 1 { 2 } else { 3 };
            if idx == 0 {
                info.first_winner.name_text() + " W (H2H 2-0)"@
            } else if idx == 1 && opts == 2 {
                info.first_loser.name_text() + " W (H2H preokret)"@
            } else if idx == 1 {
                info.first_loser.name_text() + " W ("@ + info.first_winner.name_text() + " vodi H2H diff)"@
            } else if idx == 2 {
                info.first_loser.name_text() + " W ("@ + info.first_loser.name_text() + " vodi H2H diff)"@
            } else {
                "?"@
            }
        },
        None => if idx == 0 {
            game.home.name_text() + " W"@
        } else if idx == 1 {
            game.away.name_text() + " W"@
        } else {
            "?"@
        },
    }
}

/// The label of an option of a game.
pub fn describe_option(game: &RemainingGame, opt_idx: usize) -> (s: String)
    ensures
        s@ == option_label(*game, opt_idx),
{
    match game.h2h_info {
        Some(info) => {
            let opts: u32 = if info.margin == 1 { 2 } else { 3 };
            if opt_idx == 0 {
                let mut s = String::from_str(info.first_winner.name());
                s.append(" W (H2H 2-0)");
                s
            } else if opt_idx == 1 && opts == 2 {
                let mut s = String::from_str(info.first_loser.name());
                s.append(" W (H2H preokret)");
                s
            } else if opt_idx == 1 {
                let mut s = String::from_str(info.first_loser.name());
                s.append(" W (");
                s.append(info.first_winner.name());
                s.append(" vodi H2H diff)");
                s
            } else if opt_idx == 2 {
                let mut s = String::from_str(info.first_loser.name());
                s.append(" W (");
                s.append(info.first_loser.name());
                s.append(" vodi H2H diff)");
                s
            } else {
                String::from_str("?")
            }
        },
        None => {
            if opt_idx == 0 {
                let mut s = String::from_str(game.home.name());
                s.append(" W");
                s
            } else if opt_idx == 1 {
                let mut s = String::from_str(game.away.name());
                s.append(" W");
                s
            } else {
                String::from_str("?")
            }
        },
    }
}

/// Whether the outcome can be played in the game: an outcome in which the
/// first game's loser wins needs a game that completes a series.
pub open spec fn outcome_fits_game(game: RemainingGame, outcome: GameOutcome) -> bool {
    (outcome == GameOutcome::H2HLoserWinsSmall || outcome == GameOutcome::H2HLoserWinsBig) ==> game.h2h_info is Some
}

/// The winner of the game under the outcome.
pub fn outcome_winner(game: &RemainingGame, outcome: GameOutcome) -> (w: Team)
    requires
        outcome_fits_game(*game, outcome),
    ensures
        w == winner_loser(*game, outcome).0,
{
    match outcome {
        GameOutcome::HomeWin => game.home,
        GameOutcome::AwayWin => game.away,
        _ => game.h2h_info.unwrap().first_loser,
    }
}

/// Whether the home club wins under the outcome: a home win does, an away
/// win does not, and a first loser's win does when the first loser plays at
/// home.
pub open spec fn home_wins(game: RemainingGame, outcome: GameOutcome) -> bool {
    match outcome {
        GameOutcome::HomeWin => true,
        GameOutcome::AwayWin => false,
        _ => game.h2h_info->Some_0.first_loser == game.home,
    }
}

/// Whether the home club wins under the outcome.
pub fn home_won(game: &RemainingGame, outcome: GameOutcome) -> (r: bool)
    requires
        outcome_fits_game(*game, outcome),
    ensures
        r == home_wins(*game, outcome),
{
    match outcome {
        GameOutcome::HomeWin => true,
        GameOutcome::AwayWin => false,
        _ => game.h2h_info.unwrap().first_loser == game.home,
    }
}

/// Whether the club plays in the game.
pub open spec fn plays_in(game: RemainingGame, t: Team) -> bool {
    game.home == t || game.away == t
}

/// The indices of the first `n` games in which the club plays (`wanted`) or
/// does not play (`!wanted`), in order.
pub open spec fn indices_where(games: Seq<RemainingGame>, t: Team, wanted: bool, n: int) -> Seq<usize>
    decreases n,
{
    if n <= 0 {
        seq![]
    } else if plays_in(games[n - 1], t) == wanted {
        indices_where(games, t, wanted, n - 1).push((n - 1) as usize)
    } else {
        indices_where(games, t, wanted, n - 1)
    }
}

/// The indices of the games in which the club plays (or does not), in order.
pub fn games_involving(games: &[RemainingGame], t: Team, wanted: bool) -> (v: Vec<usize>)
    ensures
        v@ == indices_where(games@, t, wanted, games@.len() as int),
{
    let mut v: Vec<usize> = Vec::new();
    for i in 0..games.len()
        invariant
            v@ == indices_where(games@, t, wanted, i as int),
    {
        let g = games[i];
        if (g.home == t || g.away == t) == wanted {
            v.push(i);
        }
    }
    v
}

/// How many of the listed games each club plays (a club playing itself
/// counts twice), by the club's position.
pub open spec fn games_left(games: Seq<RemainingGame>, idx: Seq<usize>, t: Team) -> int
    decreases idx.len(),
{
    if idx.len() == 0 {
        0
    } else {
        let g = games[idx.last() as int];
        games_left(games, idx.drop_last(), t) + (if g.home == t { 1int } else { 0 }) + (if g.away == t { 1int } else { 0 })
    }
}

/// Whether every listed index names a game.
pub open spec fn indices_valid(games: Seq<RemainingGame>, idx: Seq<usize>) -> bool {
    forall|i: int| 0 <= i < idx.len() ==> #[trigger] idx[i] < games.len()
}

proof fn lemma_games_left_bound(games: Seq<RemainingGame>, idx: Seq<usize>, t: Team)
    ensures
        0 <= games_left(games, idx, t) <= 2 * idx.len(),
    decreases idx.len(),
{
    if idx.len() > 0 {
        lemma_games_left_bound(games, idx.drop_last(), t);
    }
}

/// How many of the listed games each club plays, by `Team::index`.
pub fn remaining_counts(games: &[RemainingGame], idx: &Vec<usize>) -> (counts: Vec<u32>)
    requires
        indices_valid(games@, idx@),
        idx@.len() < 0x7fff_ffff,
    ensures
        counts@.len() == TEAM_COUNT,
        forall|t: Team| #[trigger] counts@[t.ord_index() as int] == games_left(games@, idx@, t),
{
    let mut counts: Vec<u32> = Vec::new();
    for i in 0..20usize
        invariant
            counts@.len() == i,
            forall|j: int| 0 <= j < i ==> #[trigger] counts@[j] == 0,
    {
        counts.push(0);
    }
    for k in 0..idx.len()
        invariant
            indices_valid(games@, idx@),
            idx@.len() < 0x7fff_ffff,
            counts@.len() == 20,
            forall|t: Team| #[trigger] counts@[t.ord_index() as int] == games_left(games@, idx@.take(k as int), t),
    {
        assert(idx@.take(k + 1).drop_last() == idx@.take(k as int));
        assert(idx@[k as int] < games@.len());
        let g = games[idx[k]];
        proof {
            lemma_games_left_bound(games@, idx@.take(k as int), g.home);
            lemma_games_left_bound(games@, idx@.take(k as int), g.away);
            lemma_ord_index(g.home, g.away);
        }
        let h = g.home.index() as usize;
        let a = g.away.index() as usize;
        let ch = counts[h];
        counts.set(h, ch + 1);
        let ca = counts[a];
        counts.set(a, ca + 1);
        proof {
            assert forall|t: Team| #[trigger] counts@[t.ord_index() as int] == games_left(games@, idx@.take(k + 1), t) by {
                lemma_ord_index(t, g.home);
                lemma_ord_index(t, g.away);
            }
        }
    }
    assert(idx@.take(idx@.len() as int) == idx@);
    counts
}

/// The first line of the club in the table, if any.
pub open spec fn first_line(base: Seq<TeamStats>, t: Team) -> Option<TeamStats>
    decreases base.len(),
{
    if base.len() == 0 {
        None
    } else if base[0].team == t {
        Some(base[0])
    } else {
        first_line(base.drop_first(), t)
    }
}

/// The first line of the club in the table, if any.
pub fn find_line(base: &[TeamStats], t: Team) -> (r: Option<TeamStats>)
    ensures
        r == first_line(base@, t),
{
    let mut i: usize = 0;
    assert(base@.skip(0) == base@);
    while i < base.len()
        invariant
            i <= base.len(),
            first_line(base@, t) == first_line(base@.skip(i as int), t),
        decreases base.len() - i,
    {
        assert(base@.skip(i as int).drop_first() == base@.skip(i + 1));
        assert(base@.skip(i as int)[0] == base@[i as int]);
        if base[i].team == t {
            return Some(base[i]);
        }
        i = i + 1;
    }
    assert(base@.skip(i as int).len() == 0);
    None
}

/// Whether a club can end level with the followed club: it is followed
/// (one of the thirteen), is not the followed club itself, and its wins
/// (from its first line, plus `extra`) can reach `lo` with the games it has
/// left without exceeding `hi` already.
pub open spec fn can_tie(base: Seq<TeamStats>, extra: Seq<u32>, left: Seq<u32>, lo: u32, hi: u32, t: Team) -> bool {
    let w = first_line(base, t)->Some_0.wins + extra[t.ord_index() as int];
    &&& t != Team::RED
    &&& w + left[t.ord_index() as int] >= lo
    &&& w <= hi
}

/// Whether every club of the group the followed club is compared with has a
/// line in the table.
pub open spec fn rivals_listed(base: Seq<TeamStats>) -> bool {
    forall|i: int| 0 <= i < 13 && RELEVANT_TEAMS@[i] != Team::RED ==> #[trigger] first_line(base, RELEVANT_TEAMS@[i]) is Some
}

/// Whether every club of that group that plays a remaining game has a line
/// in the table.
pub open spec fn players_listed(games: Seq<RemainingGame>, base: Seq<TeamStats>) -> bool {
    forall|i: int| 0 <= i < games.len() ==> {
        &&& (#[trigger] games[i]).home.is_relevant() ==> first_line(base, games[i].home) is Some
        &&& games[i].away.is_relevant() ==> first_line(base, games[i].away) is Some
    }
}

/// The followed clubs that can end level with the followed club, in order.
pub open spec fn tie_candidates(base: Seq<TeamStats>, extra: Seq<u32>, left: Seq<u32>, lo: u32, hi: u32, n: int) -> Seq<Team>
    decreases n,
{
    if n <= 0 {
        seq![]
    } else {
        let t = RELEVANT_TEAMS@[n - 1];
        let prev = tie_candidates(base, extra, left, lo, hi, n - 1);
        if t != Team::RED && can_tie(base, extra, left, lo, hi, t) { prev.push(t) } else { prev }
    }
}

/// The followed clubs that can end level with the followed club, in order.
pub fn can_tie_teams(base: &[TeamStats], extra: &Vec<u32>, left: &Vec<u32>, lo: u32, hi: u32) -> (v: Vec<Team>)
    requires
        rivals_listed(base@),
        extra@.len() == TEAM_COUNT,
        left@.len() == TEAM_COUNT,
    ensures
        v@ == tie_candidates(base@, extra@, left@, lo, hi, 13),
{
    let mut v: Vec<Team> = Vec::new();
    for i in 0..13usize
        invariant
            rivals_listed(base@),
            extra@.len() == TEAM_COUNT,
            left@.len() == TEAM_COUNT,
            v@ == tie_candidates(base@, extra@, left@, lo, hi, i as int),
    {
        let t = RELEVANT_TEAMS[i];
        proof {
            lemma_ord_index(t, t);
        }
        if t != Team::RED {
            assert(first_line(base@, RELEVANT_TEAMS@[i as int]) is Some);
            let s = find_line(base, t).unwrap();
            let w: u64 = s.wins as u64 + extra[t.index() as usize] as u64;
            let rem: u64 = left[t.index() as usize] as u64;
            if w + rem >= lo as u64 && w <= hi as u64 {
                v.push(t);
            }
        }
    }
    v
}


/// Whether the game is one that must be enumerated: a game of the followed
/// club when those are kept, or a game of a club that can end level with it.
pub open spec fn is_critical(game: RemainingGame, cands: Seq<Team>, keep_followed: bool) -> bool {
    (keep_followed && plays_in(game, Team::RED)) || cands.contains(game.home) || cands.contains(game.away)
}

/// The listed games that are (or are not) critical, in order.
pub open spec fn split_where(games: Seq<RemainingGame>, idx: Seq<usize>, cands: Seq<Team>, keep_followed: bool, wanted: bool) -> Seq<usize>
    decreases idx.len(),
{
    if idx.len() == 0 {
        seq![]
    } else {
        let prev = split_where(games, idx.drop_last(), cands, keep_followed, wanted);
        if is_critical(games[idx.last() as int], cands, keep_followed) == wanted { prev.push(idx.last()) } else { prev }
    }
}

fn contains_team(ts: &Vec<Team>, x: Team) -> (r: bool)
    ensures
        r == ts@.contains(x),
{
    for i in 0..ts.len()
        invariant
            forall|j: int| 0 <= j < i ==> ts@[j] != x,
    {
        if ts[i] == x {
            assert(ts@[i as int] == x);
            return true;
        }
    }
    false
}

/// The listed games that must be enumerated, and the others, each in order.
pub fn split_critical(games: &[RemainingGame], idx: &Vec<usize>, cands: &Vec<Team>, keep_followed: bool) -> (r: (Vec<usize>, Vec<usize>))
    requires
        indices_valid(games@, idx@),
    ensures
        r.0@ == split_where(games@, idx@, cands@, keep_followed, true),
        r.1@ == split_where(games@, idx@, cands@, keep_followed, false),
{
    let mut crit: Vec<usize> = Vec::new();
    let mut rest: Vec<usize> = Vec::new();
    for k in 0..idx.len()
        invariant
            indices_valid(games@, idx@),
            crit@ == split_where(games@, idx@.take(k as int), cands@, keep_followed, true),
            rest@ == split_where(games@, idx@.take(k as int), cands@, keep_followed, false),
    {
        assert(idx@.take(k + 1).drop_last() == idx@.take(k as int));
        assert(idx@[k as int] < games@.len());
        let g = games[idx[k]];
        let critical = (keep_followed && (g.home == Team::RED || g.away == Team::RED))
            || contains_team(cands, g.home) || contains_team(cands, g.away);
        if critical {
            crit.push(idx[k]);
        } else {
            rest.push(idx[k]);
        }
    }
    assert(idx@.take(idx@.len() as int) == idx@);
    (crit, rest)
}

/// The digits of a scenario number in the mixed radix of the options, the
/// first game's option being the least significant digit.
pub open spec fn mixed_digits(radixes: Seq<usize>, combo: nat) -> Seq<usize>
    decreases radixes.len(),
{
    if radixes.len() == 0 {
        seq![]
    } else {
        seq![(combo % (radixes[0] as nat)) as usize] + mixed_digits(radixes.drop_first(), combo / (radixes[0] as nat))
    }
}

/// The number of scenarios: the product of the numbers of options.
pub open spec fn radix_product(radixes: Seq<usize>) -> int
    decreases radixes.len(),
{
    if radixes.len() == 0 { 1 } else { radix_product(radixes.drop_last()) * radixes.last() }
}

/// The option of each game in a numbered scenario.
pub fn decode_choices(radixes: &Vec<usize>, combo_num: u64) -> (choices: Vec<usize>)
    requires
        forall|i: int| 0 <= i < radixes@.len() ==> #[trigger] radixes@[i] > 0,
    ensures
        choices@ == mixed_digits(radixes@, combo_num as nat),
        forall|i: int| 0 <= i < choices@.len() ==> #[trigger] choices@[i] < radixes@[i],
{
    let mut choices: Vec<usize> = Vec::new();
    let mut remaining: u64 = combo_num;
    assert(radixes@.skip(0) == radixes@);
    for i in 0..radixes.len()
        invariant
            forall|j: int| 0 <= j < radixes@.len() ==> #[trigger] radixes@[j] > 0,
            choices@.len() == i,
            choices@ + mixed_digits(radixes@.skip(i as int), remaining as nat) == mixed_digits(radixes@, combo_num as nat),
            forall|j: int| 0 <= j < i ==> #[trigger] choices@[j] < radixes@[j],
    {
        let radix = radixes[i] as u64;
        let ghost rest = radixes@.skip(i as int);
        let ghost r0 = remaining;
        assert(rest[0] == radixes@[i as int]);
        assert(rest.drop_first() == radixes@.skip(i + 1));
        let c = (remaining % radix) as usize;
        let ghost before = choices@;
        choices.push(c);
        remaining = remaining / radix;
        assert(mixed_digits(rest, r0 as nat) == seq![c] + mixed_digits(rest.drop_first(), remaining as nat));
        assert(choices@ + mixed_digits(radixes@.skip(i + 1), remaining as nat) =~= before + mixed_digits(rest, r0 as nat));
    }
    assert(radixes@.skip(radixes@.len() as int) == Seq::<usize>::empty());
    assert(choices@ + Seq::<usize>::empty() == choices@);
    choices
}


/// The number of scenarios: the product of the numbers of options. Every
/// partial product must fit in 64 bits.
pub fn combo_count(radixes: &Vec<usize>) -> (n: u64)
    requires
        forall|i: int| 0 <= i <= radixes@.len() ==> #[trigger] radix_product(radixes@.take(i)) <= u64::MAX,
    ensures
        n == radix_product(radixes@),
{
    let mut p: u64 = 1;
    assert(radixes@.take(0) == Seq::<usize>::empty());
    for i in 0..radixes.len()
        invariant
            forall|j: int| 0 <= j <= radixes@.len() ==> #[trigger] radix_product(radixes@.take(j)) <= u64::MAX,
            p == radix_product(radixes@.take(i as int)),
    {
        assert(radixes@.take(i + 1).drop_last() == radixes@.take(i as int));
        assert(radix_product(radixes@.take(i + 1)) <= u64::MAX);
        p = p * radixes[i] as u64;
    }
    assert(radixes@.take(radixes@.len() as int) == radixes@);
    p
}

/// The results of a numbered scenario: the fixed ones, then the chosen
/// option of each enumerated game.
pub fn scenario_outcomes(
    fixed: &Vec<(usize, GameOutcome)>,
    crit_games: &Vec<usize>,
    crit_options: &Vec<Vec<GameOutcome>>,
    choices: &Vec<usize>,
) -> (v: Vec<(usize, GameOutcome)>)
    requires
        crit_games@.len() == crit_options@.len(),
        choices@.len() == crit_games@.len(),
        forall|i: int| 0 <= i < choices@.len() ==> #[trigger] choices@[i] < crit_options@[i]@.len(),
    ensures
        v@ == fixed@ + Seq::new(choices@.len(), |i: int| (crit_games@[i], crit_options@[i]@[choices@[i] as int])),
{
    let mut v: Vec<(usize, GameOutcome)> = Vec::new();
    for i in 0..fixed.len()
        invariant
            v@ == fixed@.take(i as int),
    {
        v.push(fixed[i]);
        assert(fixed@.take(i + 1) == fixed@.take(i as int).push(fixed@[i as int]));
    }
    assert(fixed@.take(fixed@.len() as int) == fixed@);
    let ghost chosen = Seq::new(choices@.len(), |i: int| (crit_games@[i], crit_options@[i]@[choices@[i] as int]));
    for i in 0..choices.len()
        invariant
            crit_games@.len() == crit_options@.len(),
            choices@.len() == crit_games@.len(),
            forall|j: int| 0 <= j < choices@.len() ==> #[trigger] choices@[j] < crit_options@[j]@.len(),
            chosen == Seq::new(choices@.len(), |j: int| (crit_games@[j], crit_options@[j]@[choices@[j] as int])),
            v@ == fixed@ + chosen.take(i as int),
    {
        let o = crit_options[i][choices[i]];
        v.push((crit_games[i], o));
        assert(chosen.take(i + 1) == chosen.take(i as int).push(chosen[i as int]));
    }
    assert(chosen.take(choices@.len() as int) == chosen);
    v
}

/// The followed club's place when it is decided and within the first ten;
/// otherwise nothing.
pub open spec fn settled_place(r: ScenarioResult) -> Option<u32> {
    if r.has_unresolved_red || r.red_min != r.red_max || r.red_min > 10 { None } else { Some(r.red_min) }
}

/// The followed club's place when it is decided and within the first ten.
pub fn settled_position(r: &ScenarioResult) -> (p: Option<u32>)
    ensures
        p == settled_place(*r),
{
    if r.has_unresolved_red || r.red_min != r.red_max {
        return None;
    }
    if r.red_min > 10 {
        return None;
    }
    Some(r.red_min)
}

/// The club in the place paired with `pos`, if the pairing is fixed.
pub fn opponent_team(r: &ScenarioResult, pos: u32) -> (t: Option<Team>)
    requires
        opponent_of(pos) matches Some(q) ==> q <= r.standings@.len(),
    ensures
        t == match opponent_of(pos) {
            Some(q) => Some(r.standings@[q - 1]),
            None => None::<Team>,
        },
{
    match opponent_position(pos) {
        Some(q) => Some(r.standings[(q - 1) as usize]),
        None => None,
    }
}

/// The outcome of a game of the followed club that it wins or loses.
pub open spec fn followed_outcome(game: RemainingGame, wins: bool) -> GameOutcome {
    if game.home == Team::RED {
        if wins { GameOutcome::HomeWin } else { GameOutcome::AwayWin }
    } else {
        if wins { GameOutcome::AwayWin } else { GameOutcome::HomeWin }
    }
}

/// The outcome of a game of the followed club that it wins or loses.
pub fn red_fixed_outcome(game: &RemainingGame, wins: bool) -> (o: GameOutcome)
    ensures
        o == followed_outcome(*game, wins),
{
    if game.home == Team::RED {
        if wins { GameOutcome::HomeWin } else { GameOutcome::AwayWin }
    } else {
        if wins { GameOutcome::AwayWin } else { GameOutcome::HomeWin }
    }
}

/// The wins and losses of the followed club that a combination number picks,
/// its i-th game being won when bit i is set.
pub fn red_bits(red_combo: u32, n: usize) -> (bits: Vec<bool>)
    requires
        n <= 32,
    ensures
        bits@.len() == n,
        forall|i: int| 0 <= i < n ==> #[trigger] bits@[i] == (((red_combo >> (i as u32)) & 1u32) == 1u32),
{
    let mut bits: Vec<bool> = Vec::new();
    for i in 0..n
        invariant
            n <= 32,
            bits@.len() == i,
            forall|j: int| 0 <= j < i ==> #[trigger] bits@[j] == (((red_combo >> (j as u32)) & 1u32) == 1u32),
    {
        bits.push((red_combo >> (i as u32)) & 1 == 1);
    }
    bits
}

/// The number of wins picked.
pub open spec fn count_true(bits: Seq<bool>) -> int
    decreases bits.len(),
{
    if bits.len() == 0 { 0 } else { count_true(bits.drop_last()) + if bits.last() { 1int } else { 0 } }
}

/// The number of wins picked.
pub fn count_wins(bits: &Vec<bool>) -> (n: u32)
    requires
        bits@.len() <= 32,
    ensures
        n == count_true(bits@),
        n <= bits@.len(),
{
    let mut n: u32 = 0;
    for i in 0..bits.len()
        invariant
            bits@.len() <= 32,
            n == count_true(bits@.take(i as int)),
            n <= i,
    {
        assert(bits@.take(i + 1).drop_last() == bits@.take(i as int));
        if bits[i] {
            n = n + 1;
        }
    }
    assert(bits@.take(bits@.len() as int) == bits@);
    n
}

/// A game of the followed club as the combination names it: W or L, then
/// the opponent's code.
pub open spec fn combo_part(game: RemainingGame, wins: bool) -> Seq<char> {
    let opp = if game.home == Team::RED { game.away } else { game.home };
    (if wins { "W"@ } else { "L"@ }) + opp.code_text()
}

/// The name of a combination of results of the followed club's games.
pub open spec fn combo_text(games: Seq<RemainingGame>, red_idx: Seq<usize>, bits: Seq<bool>) -> Seq<char> {
    join_text(Seq::new(red_idx.len(), |i: int| combo_part(games[red_idx[i] as int], bits[i])), "/"@)
}

/// The name of a combination of results of the followed club's games, such
/// as `WMAD/LTEL`.
pub fn combo_description(games: &[RemainingGame], red_idx: &Vec<usize>, bits: &Vec<bool>) -> (s: String)
    requires
        indices_valid(games@, red_idx@),
        bits@.len() == red_idx@.len(),
    ensures
        s@ == combo_text(games@, red_idx@, bits@),
{
    let ghost sep = "/"@;
    let ghost parts = Seq::new(red_idx@.len(), |i: int| combo_part(games@[red_idx@[i] as int], bits@[i]));
    let mut s = String::new();
    for i in 0..red_idx.len()
        invariant
            indices_valid(games@, red_idx@),
            bits@.len() == red_idx@.len(),
            sep == "/"@,
            parts == Seq::new(red_idx@.len(), |i: int| combo_part(games@[red_idx@[i] as int], bits@[i])),
            s@ == join_text(parts.take(i as int), sep),
    {
        assert(red_idx@[i as int] < games@.len());
        let g = games[red_idx[i]];
        let opp = if g.home == Team::RED { g.away } else { g.home };
        let ghost p = parts[i as int];
        proof {
            lemma_join_push(parts.take(i as int), p, sep);
            assert(parts.take(i + 1) == parts.take(i as int).push(p));
        }
        let ghost before = s@;
        if i > 0 {
            s.append("/");
        }
        if bits[i] {
            s.append("W");
        } else {
            s.append("L");
        }
        s.append(opp.code());
        proof {
            if i > 0 {
                assert(s@ =~= before + sep + p);
            } else {
                assert(s@ =~= p);
                assert(parts.take(0) == Seq::<Seq<char>>::empty());
            }
        }
    }
    assert(parts.take(red_idx@.len() as int) == parts);
    s
}


// ---------------------------------------------------------------------------
// Plans of an enumeration
// ---------------------------------------------------------------------------

/// The games left to each club, by position in the order of clubs.
pub open spec fn left_by_club(games: Seq<RemainingGame>, idx: Seq<usize>) -> Seq<u32> {
    Seq::new(20, |i: int| games_left(games, idx, team_at(i)) as u32)
}

proof fn lemma_counts_by_club(games: Seq<RemainingGame>, idx: Seq<usize>, counts: Seq<u32>)
    requires
        counts.len() == TEAM_COUNT,
        forall|t: Team| #[trigger] counts[t.ord_index() as int] == games_left(games, idx, t),
    ensures
        counts == left_by_club(games, idx),
{
    assert forall|i: int| 0 <= i < 20 implies #[trigger] counts[i] == left_by_club(games, idx)[i] by {
        let t = team_at(i);
        assert(t.ord_index() == i);
        assert(counts[t.ord_index() as int] == games_left(games, idx, t));
        lemma_games_left_bound(games, idx, t);
    }
    assert(counts =~= left_by_club(games, idx));
}

/// The indices of all the games.
pub open spec fn all_indices(n: int) -> Seq<usize> {
    Seq::new(n as nat, |i: int| i as usize)
}

/// Whether the two clubs of a series game cannot end level on wins, so that
/// which of its series outcomes happens cannot matter: one club's wins plus
/// its games left stay below the other's wins.
pub open spec fn dominated(games: Seq<RemainingGame>, base: Seq<TeamStats>, g: RemainingGame) -> bool {
    let left = left_by_club(games, all_indices(games.len() as int));
    let wh = first_line(base, g.home)->Some_0.wins as int;
    let wa = first_line(base, g.away)->Some_0.wins as int;
    &&& g.h2h_info is Some
    &&& (wh + left[g.home.ord_index() as int] < wa || wa + left[g.away.ord_index() as int] < wh)
}

/// Whether every club of a series game has a line in the table.
pub open spec fn series_clubs_listed(games: Seq<RemainingGame>, base: Seq<TeamStats>) -> bool {
    forall|i: int| 0 <= i < games.len() && (#[trigger] games[i]).h2h_info is Some
        ==> first_line(base, games[i].home) is Some && first_line(base, games[i].away) is Some
}

/// Which games are reduced to a plain home or away win because their series
/// cannot matter (only when `simplify`).
pub fn dominated_flags(games: &[RemainingGame], base: &[TeamStats], simplify: bool) -> (v: Vec<bool>)
    requires
        simplify ==> series_clubs_listed(games@, base@),
        games@.len() < 0x7fff_ffff,
    ensures
        v@ == Seq::new(games@.len(), |i: int| simplify && dominated(games@, base@, games@[i])),
{
    let n = games.len();
    let mut all: Vec<usize> = Vec::new();
    for i in 0..n
        invariant
            n == games@.len(),
            all@ == all_indices(i as int),
    {
        all.push(i);
        assert(all_indices(i + 1) =~= all_indices(i as int).push(i));
    }
    let left = remaining_counts(games, &all);
    proof {
        lemma_counts_by_club(games@, all@, left@);
    }
    let ghost spec_v = Seq::new(games@.len(), |i: int| simplify && dominated(games@, base@, games@[i]));
    let mut v: Vec<bool> = Vec::new();
    for i in 0..n
        invariant
            n == games@.len(),
            simplify ==> series_clubs_listed(games@, base@),
            all@ == all_indices(n as int),
            left@ == left_by_club(games@, all@),
            spec_v == Seq::new(games@.len(), |i: int| simplify && dominated(games@, base@, games@[i])),
            v@ == spec_v.take(i as int),
    {
        let g = games[i];
        let mut d = false;
        if simplify && g.h2h_info.is_some() {
            assert(games@[i as int].h2h_info is Some);
            let sh = find_line(base, g.home).unwrap();
            let sa = find_line(base, g.away).unwrap();
            let rh = left[g.home.index() as usize] as u64;
            let ra = left[g.away.index() as usize] as u64;
            d = (sh.wins as u64) + rh < (sa.wins as u64) || (sa.wins as u64) + ra < (sh.wins as u64);
        }
        v.push(d);
        assert(spec_v.take(i + 1) == spec_v.take(i as int).push(spec_v[i as int]));
    }
    assert(spec_v.take(n as int) == spec_v);
    v
}

/// The options of a game, plain when its series cannot matter.
pub open spec fn options_of(g: RemainingGame, simplified: bool) -> Seq<GameOutcome> {
    if simplified { seq![GameOutcome::HomeWin, GameOutcome::AwayWin] } else { game_options(g) }
}

/// The options of every game.
pub fn options_for(games: &[RemainingGame], simplified: &Vec<bool>) -> (v: Vec<Vec<GameOutcome>>)
    requires
        simplified@.len() == games@.len(),
    ensures
        v@.len() == games@.len(),
        forall|i: int| 0 <= i < games@.len() ==> #[trigger] v@[i]@ == options_of(games@[i], simplified@[i]),
{
    let mut v: Vec<Vec<GameOutcome>> = Vec::new();
    for i in 0..games.len()
        invariant
            simplified@.len() == games@.len(),
            v@.len() == i,
            forall|j: int| 0 <= j < i ==> #[trigger] v@[j]@ == options_of(games@[j], simplified@[j]),
    {
        if simplified[i] {
            v.push(vec![GameOutcome::HomeWin, GameOutcome::AwayWin]);
        } else {
            v.push(build_game_options(&games[i]));
        }
    }
    v
}

/// The option that a locked choice picks: the chosen one, or the first when
/// the choice is out of range.
pub open spec fn locked_pick(opts: Seq<GameOutcome>, choice: usize) -> GameOutcome {
    if choice < opts.len() { opts[choice as int] } else { opts[0] }
}

/// The locked games with their picked options, in order of the games.
pub open spec fn locked_results(opts: Seq<Seq<GameOutcome>>, locked: Map<usize, usize>, n: int) -> Seq<(usize, GameOutcome)>
    decreases n,
{
    if n <= 0 {
        seq![]
    } else {
        let prev = locked_results(opts, locked, n - 1);
        let i = (n - 1) as usize;
        if locked.contains_key(i) { prev.push((i, locked_pick(opts[n - 1], locked[i]))) } else { prev }
    }
}

/// The games that are not locked, in order.
pub open spec fn free_games(locked: Map<usize, usize>, n: int) -> Seq<usize>
    decreases n,
{
    if n <= 0 {
        seq![]
    } else {
        let prev = free_games(locked, n - 1);
        let i = (n - 1) as usize;
        if locked.contains_key(i) { prev } else { prev.push(i) }
    }
}

/// The views of the options.
pub open spec fn option_views(v: Seq<Vec<GameOutcome>>) -> Seq<Seq<GameOutcome>> {
    v.map_values(|o: Vec<GameOutcome>| o@)
}

/// The locked games with their picked options, and the free games.
pub fn split_locked(all_options: &Vec<Vec<GameOutcome>>, locked: &HashMap<usize, usize>) -> (r: (Vec<(usize, GameOutcome)>, Vec<usize>))
    requires
        forall|i: int| 0 <= i < all_options@.len() ==> #[trigger] all_options@[i]@.len() > 0,
    ensures
        r.0@ == locked_results(option_views(all_options@), locked@, all_options@.len() as int),
        r.1@ == free_games(locked@, all_options@.len() as int),
{
    let ghost ov = option_views(all_options@);
    let mut fixed: Vec<(usize, GameOutcome)> = Vec::new();
    let mut free: Vec<usize> = Vec::new();
    for i in 0..all_options.len()
        invariant
            ov == option_views(all_options@),
            forall|j: int| 0 <= j < all_options@.len() ==> #[trigger] all_options@[j]@.len() > 0,
            fixed@ == locked_results(ov, locked@, i as int),
            free@ == free_games(locked@, i as int),
    {
        let opts = &all_options[i];
        assert(ov[i as int] == opts@);
        assert(opts@.len() > 0);
        match locked.get(&i) {
            Some(choice) => {
                let c = *choice;
                if c < opts.len() {
                    fixed.push((i, opts[c]));
                } else {
                    fixed.push((i, opts[0]));
                }
            },
            None => {
                free.push(i);
            },
        }
    }
    (fixed, free)
}

/// Whether the followed club wins the game under the outcome.
pub open spec fn followed_wins(g: RemainingGame, o: GameOutcome) -> bool {
    match o {
        GameOutcome::HomeWin => g.home == Team::RED,
        GameOutcome::AwayWin => g.away == Team::RED,
        _ => g.h2h_info->Some_0.first_loser == Team::RED,
    }
}

/// The option that a locked choice of the followed club's game is read as:
/// the chosen one, or the last when the choice is out of range.
pub open spec fn clamped_pick(opts: Seq<GameOutcome>, choice: usize) -> GameOutcome {
    if choice < opts.len() { opts[choice as int] } else { opts[opts.len() - 1] }
}

/// The range of wins the followed club can end with, from the first `k` of
/// its games: a locked win counts in both bounds, a free game only in the
/// upper one.
pub open spec fn followed_range(
    games: Seq<RemainingGame>,
    red_idx: Seq<usize>,
    opts: Seq<Seq<GameOutcome>>,
    locked: Map<usize, usize>,
    base_wins: int,
    k: int,
) -> (int, int)
    decreases k,
{
    if k <= 0 {
        (base_wins, base_wins)
    } else {
        let prev = followed_range(games, red_idx, opts, locked, base_wins, k - 1);
        let gi = red_idx[k - 1];
        if locked.contains_key(gi) {
            if followed_wins(games[gi as int], clamped_pick(opts[gi as int], locked[gi])) {
                (prev.0 + 1, prev.1 + 1)
            } else {
                prev
            }
        } else {
            (prev.0, prev.1 + 1)
        }
    }
}

/// Whether every option of every game can be played in it.
pub open spec fn options_fit(games: Seq<RemainingGame>, opts: Seq<Seq<GameOutcome>>) -> bool {
    &&& opts.len() == games.len()
    &&& forall|i: int, j: int| 0 <= i < games.len() && 0 <= j < opts[i].len()
        ==> outcome_fits_game(games[i], #[trigger] opts[i][j])
    &&& forall|i: int| 0 <= i < games.len() ==> #[trigger] opts[i].len() > 0
}

/// The range of wins the followed club can end with.
pub fn followed_win_range(
    games: &[RemainingGame],
    red_idx: &Vec<usize>,
    all_options: &Vec<Vec<GameOutcome>>,
    locked: &HashMap<usize, usize>,
    base_wins: u32,
) -> (r: (u32, u32))
    requires
        indices_valid(games@, red_idx@),
        options_fit(games@, option_views(all_options@)),
        base_wins as int + red_idx@.len() <= u32::MAX,
    ensures
        r.0 as int == followed_range(games@, red_idx@, option_views(all_options@), locked@, base_wins as int, red_idx@.len() as int).0,
        r.1 as int == followed_range(games@, red_idx@, option_views(all_options@), locked@, base_wins as int, red_idx@.len() as int).1,
{
    let ghost ov = option_views(all_options@);
    let mut lo = base_wins;
    let mut hi = base_wins;
    for k in 0..red_idx.len()
        invariant
            indices_valid(games@, red_idx@),
            ov == option_views(all_options@),
            options_fit(games@, ov),
            base_wins as int + red_idx@.len() <= u32::MAX,
            base_wins <= lo <= hi <= base_wins + k,
            lo as int == followed_range(games@, red_idx@, ov, locked@, base_wins as int, k as int).0,
            hi as int == followed_range(games@, red_idx@, ov, locked@, base_wins as int, k as int).1,
    {
        let gi = red_idx[k];
        assert(red_idx@[k as int] < games@.len());
        let g = games[gi];
        match locked.get(&gi) {
            Some(choice) => {
                let opts = &all_options[gi];
                assert(ov[gi as int] == opts@);
                let c = if *choice < opts.len() { *choice } else { opts.len() - 1 };
                let outcome = opts[c];
                assert(outcome_fits_game(games@[gi as int], ov[gi as int][c as int]));
                let wins = match outcome {
                    GameOutcome::HomeWin => g.home == Team::RED,
                    GameOutcome::AwayWin => g.away == Team::RED,
                    _ => g.h2h_info.unwrap().first_loser == Team::RED,
                };
                if wins {
                    lo = lo + 1;
                    hi = hi + 1;
                }
            },
            None => {
                hi = hi + 1;
            },
        }
    }
    (lo, hi)
}


/// The results among `results` that the club wins.
pub open spec fn wins_from(games: Seq<RemainingGame>, results: Seq<(usize, GameOutcome)>, t: Team) -> int
    decreases results.len(),
{
    if results.len() == 0 {
        0
    } else {
        let r = results.last();
        let g = games[r.0 as int];
        wins_from(games, results.drop_last(), t) + if plays_in(g, t) && winner_loser(g, r.1).0 == t { 1int } else { 0 }
    }
}

/// Whether every result names a game and fits it.
pub open spec fn results_valid(games: Seq<RemainingGame>, results: Seq<(usize, GameOutcome)>) -> bool {
    forall|i: int| 0 <= i < results.len() ==> (#[trigger] results[i]).0 < games.len()
        && outcome_fits_game(games[results[i].0 as int], results[i].1)
}

proof fn lemma_wins_from_bound(games: Seq<RemainingGame>, results: Seq<(usize, GameOutcome)>, t: Team)
    ensures
        0 <= wins_from(games, results, t) <= results.len(),
    decreases results.len(),
{
    if results.len() > 0 {
        lemma_wins_from_bound(games, results.drop_last(), t);
    }
}

/// The wins each club takes from the results, by position in the order of
/// clubs.
pub open spec fn wins_by_club(games: Seq<RemainingGame>, results: Seq<(usize, GameOutcome)>) -> Seq<u32> {
    Seq::new(20, |i: int| wins_from(games, results, team_at(i)) as u32)
}

/// The wins each club takes from the results, by position in the order of
/// clubs.
pub fn locked_wins(games: &[RemainingGame], results: &Vec<(usize, GameOutcome)>) -> (v: Vec<u32>)
    requires
        results_valid(games@, results@),
        results@.len() < 0x7fff_ffff,
    ensures
        v@ == wins_by_club(games@, results@),
{
    let mut v: Vec<u32> = Vec::new();
    for ti in 0..20usize
        invariant
            results_valid(games@, results@),
            results@.len() < 0x7fff_ffff,
            v@ == wins_by_club(games@, results@).take(ti as int),
    {
        let t = team_from_index(ti);
        let mut c: u32 = 0;
        for k in 0..results.len()
            invariant
                results_valid(games@, results@),
                results@.len() < 0x7fff_ffff,
                t == team_at(ti as int),
                c as int == wins_from(games@, results@.take(k as int), t),
                c <= k,
        {
            assert(results@.take(k + 1).drop_last() == results@.take(k as int));
            let (gi, o) = results[k];
            assert(results@[k as int].0 < games@.len());
            let g = games[gi];
            if (g.home == t || g.away == t) && outcome_winner(&g, o) == t {
                c = c + 1;
            }
        }
        assert(results@.take(results@.len() as int) == results@);
        proof {
            lemma_wins_from_bound(games@, results@, t);
        }
        v.push(c);
        assert(wins_by_club(games@, results@).take(ti + 1) == wins_by_club(games@, results@).take(ti as int).push(c));
    }
    assert(wins_by_club(games@, results@).take(20) == wins_by_club(games@, results@));
    v
}

/// The club at a position of the order of clubs.
pub fn team_from_index(i: usize) -> (t: Team)
    requires
        i < 20,
    ensures
        t == team_at(i as int),
{
    crate::team::ALL_TEAMS[i]
}


proof fn lemma_indices_where_valid(games: Seq<RemainingGame>, t: Team, wanted: bool, n: int)
    requires
        n <= games.len(),
        n < usize::MAX,
    ensures
        indices_where(games, t, wanted, n).len() <= if n < 0 { 0 } else { n },
        indices_valid(games, indices_where(games, t, wanted, n)),
        forall|i: int| 0 <= i < indices_where(games, t, wanted, n).len()
            ==> plays_in(games[#[trigger] indices_where(games, t, wanted, n)[i] as int], t) == wanted,
    decreases n,
{
    if n > 0 {
        lemma_indices_where_valid(games, t, wanted, n - 1);
        let prev = indices_where(games, t, wanted, n - 1);
        let cur = indices_where(games, t, wanted, n);
        assert(((n - 1) as usize) as int == n - 1);
        assert forall|i: int| 0 <= i < cur.len()
            implies plays_in(games[#[trigger] cur[i] as int], t) == wanted by {
            if i < prev.len() {
                assert(cur[i] == prev[i]);
            }
        }
    }
}

proof fn lemma_free_valid(locked: Map<usize, usize>, n: int)
    requires
        n < usize::MAX,
    ensures
        free_games(locked, n).len() <= if n < 0 { 0 } else { n },
        forall|i: int| 0 <= i < free_games(locked, n).len() ==> #[trigger] free_games(locked, n)[i] < n,
    decreases n,
{
    if n > 0 {
        lemma_free_valid(locked, n - 1);
    }
}

proof fn lemma_locked_valid(games: Seq<RemainingGame>, ov: Seq<Seq<GameOutcome>>, locked: Map<usize, usize>, n: int)
    requires
        options_fit(games, ov),
        n <= games.len(),
        n < usize::MAX,
    ensures
        locked_results(ov, locked, n).len() <= if n < 0 { 0 } else { n },
        results_valid(games, locked_results(ov, locked, n)),
    decreases n,
{
    if n > 0 {
        lemma_locked_valid(games, ov, locked, n - 1);
        let i = (n - 1) as usize;
        assert(i as int == n - 1);
        let prev = locked_results(ov, locked, n - 1);
        let cur = locked_results(ov, locked, n);
        if locked.contains_key(i) {
            let o = locked_pick(ov[n - 1], locked[i]);
            if locked[i] < ov[n - 1].len() {
                assert(outcome_fits_game(games[n - 1], ov[n - 1][locked[i] as int]));
            } else {
                assert(outcome_fits_game(games[n - 1], ov[n - 1][0]));
            }
            assert forall|k: int| 0 <= k < cur.len() implies (#[trigger] cur[k]).0 < games.len()
                && outcome_fits_game(games[cur[k].0 as int], cur[k].1) by {
                if k < prev.len() {
                    assert(cur[k] == prev[k]);
                }
            }
        }
    }
}

proof fn lemma_split_valid(games: Seq<RemainingGame>, idx: Seq<usize>, cands: Seq<Team>, keep: bool, wanted: bool)
    requires
        indices_valid(games, idx),
    ensures
        split_where(games, idx, cands, keep, wanted).len() <= idx.len(),
        indices_valid(games, split_where(games, idx, cands, keep, wanted)),
    decreases idx.len(),
{
    if idx.len() > 0 {
        lemma_split_valid(games, idx.drop_last(), cands, keep, wanted);
        assert(idx.drop_last().len() < idx.len());
        assert(idx[idx.len() - 1] < games.len());
    }
}

/// The options of a game fit it.
proof fn lemma_options_fit(games: Seq<RemainingGame>, simplified: Seq<bool>, ov: Seq<Seq<GameOutcome>>)
    requires
        simplified.len() == games.len(),
        ov.len() == games.len(),
        forall|i: int| 0 <= i < games.len() ==> #[trigger] ov[i] == options_of(games[i], simplified[i]),
    ensures
        options_fit(games, ov),
{
    assert forall|i: int, j: int| 0 <= i < games.len() && 0 <= j < ov[i].len()
        implies outcome_fits_game(games[i], #[trigger] ov[i][j]) by {
        assert(ov[i] == options_of(games[i], simplified[i]));
    }
    assert forall|i: int| 0 <= i < games.len() implies #[trigger] ov[i].len() > 0 by {
        assert(ov[i] == options_of(games[i], simplified[i]));
    }
}

/// The games fixed to a home win.
pub open spec fn home_wins_of(idx: Seq<usize>) -> Seq<(usize, GameOutcome)> {
    idx.map_values(|gi: usize| (gi, GameOutcome::HomeWin))
}

fn push_home_wins(fixed: &mut Vec<(usize, GameOutcome)>, idx: &Vec<usize>)
    ensures
        final(fixed)@ == old(fixed)@ + home_wins_of(idx@),
{
    let ghost start = fixed@;
    for k in 0..idx.len()
        invariant
            fixed@ == start + home_wins_of(idx@.take(k as int)),
    {
        fixed.push((idx[k], GameOutcome::HomeWin));
        assert(home_wins_of(idx@.take(k + 1)) =~= home_wins_of(idx@.take(k as int)).push((idx@[k as int], GameOutcome::HomeWin)));
    }
    assert(idx@.take(idx@.len() as int) == idx@);
}

/// The plan of an enumeration with some games locked to an option.
pub struct SimulationPlan {
    /// Which games are reduced to a plain home or away win.
    pub simplified: Vec<bool>,
    /// The options of every game.
    pub all_options: Vec<Vec<GameOutcome>>,
    /// The results fixed in every scenario: the locked games, then the games
    /// that cannot matter, fixed to a home win.
    pub fixed: Vec<(usize, GameOutcome)>,
    /// The wins the followed club can end with, at least and at most.
    pub red_min_wins: u32,
    pub red_max_wins: u32,
    /// The clubs that can end level with the followed club.
    pub can_tie: Vec<Team>,
    /// The games to enumerate, their options and the options' weights (in
    /// units of 1/1368).
    pub critical: Vec<usize>,
    pub critical_options: Vec<Vec<GameOutcome>>,
    pub weights: Vec<Vec<u32>>,
}

/// Whether a plan is the one for the games, the table, the locked choices,
/// the followed club's wins so far, and whether series that cannot matter
/// are simplified.
pub open spec fn simulation_plan_is(
    p: SimulationPlan,
    games: Seq<RemainingGame>,
    base: Seq<TeamStats>,
    locked: Map<usize, usize>,
    base_wins: u32,
    simplify: bool,
) -> bool {
    let n = games.len() as int;
    let ov = option_views(p.all_options@);
    let locked_part = locked_results(ov, locked, n);
    let free = free_games(locked, n);
    let red_idx = indices_where(games, Team::RED, true, n);
    let range = followed_range(games, red_idx, ov, locked, base_wins as int, red_idx.len() as int);
    let cands = tie_candidates(base, wins_by_club(games, locked_part), left_by_club(games, free),
        range.0 as u32, range.1 as u32, 13);
    let irrelevant = split_where(games, free, cands, true, false);
    &&& p.simplified@ == Seq::new(games.len(), |i: int| simplify && dominated(games, base, games[i]))
    &&& ov.len() == games.len()
    &&& forall|i: int| 0 <= i < n ==> #[trigger] ov[i] == options_of(games[i], p.simplified@[i])
    &&& p.red_min_wins == range.0
    &&& p.red_max_wins == range.1
    &&& p.can_tie@ == cands
    &&& p.critical@ == split_where(games, free, cands, true, true)
    &&& p.fixed@ == locked_part + home_wins_of(irrelevant)
    &&& p.critical_options@.len() == p.critical@.len()
    &&& forall|i: int| 0 <= i < p.critical@.len()
        ==> #[trigger] p.critical_options@[i]@ == options_of(games[p.critical@[i] as int], p.simplified@[p.critical@[i] as int])
    &&& p.weights@.len() == p.critical@.len()
    &&& forall|i: int| 0 <= i < p.critical@.len() ==> #[trigger] p.weights@[i]@
        == if p.simplified@[p.critical@[i] as int] { seq![684u32, 684u32] } else { weight_parts(games[p.critical@[i] as int]) }
}

/// Plans an enumeration in which some games are locked to an option
/// (`locked` maps a game's index to the index of its option).
pub fn plan_simulation(
    games: &[RemainingGame],
    base: &[TeamStats],
    locked: &HashMap<usize, usize>,
    base_wins: u32,
    simplify: bool,
) -> (p: SimulationPlan)
    requires
        rivals_listed(base@),
        simplify ==> series_clubs_listed(games@, base@),
        games@.len() < 0x3fff_ffff,
        base_wins as int + games@.len() <= u32::MAX,
    ensures
        simulation_plan_is(p, games@, base@, locked@, base_wins, simplify),
{
    let n = games.len();
    let simplified = dominated_flags(games, base, simplify);
    let all_options = options_for(games, &simplified);
    let ghost ov = option_views(all_options@);
    proof {
        assert forall|i: int| 0 <= i < games@.len() implies #[trigger] ov[i] == options_of(games@[i], simplified@[i]) by {
            assert(ov[i] == all_options@[i]@);
        }
        lemma_options_fit(games@, simplified@, ov);
        lemma_locked_valid(games@, ov, locked@, n as int);
        lemma_free_valid(locked@, n as int);
        lemma_indices_where_valid(games@, Team::RED, true, n as int);
    }
    let (mut fixed, free) = split_locked(&all_options, locked);
    let red_idx = games_involving(games, Team::RED, true);
    let (red_min_wins, red_max_wins) = followed_win_range(games, &red_idx, &all_options, locked, base_wins);
    let extra = locked_wins(games, &fixed);
    proof {
        assert(indices_valid(games@, free@));
    }
    let left = remaining_counts(games, &free);
    proof {
        lemma_counts_by_club(games@, free@, left@);
    }
    let can_tie = can_tie_teams(base, &extra, &left, red_min_wins, red_max_wins);
    let (critical, irrelevant) = split_critical(games, &free, &can_tie, true);
    proof {
        lemma_split_valid(games@, free@, can_tie@, true, true);
    }
    push_home_wins(&mut fixed, &irrelevant);
    let mut critical_options: Vec<Vec<GameOutcome>> = Vec::new();
    let mut weights: Vec<Vec<u32>> = Vec::new();
    for k in 0..critical.len()
        invariant
            indices_valid(games@, critical@),
            simplified@.len() == games@.len(),
            critical_options@.len() == k,
            weights@.len() == k,
            forall|i: int| 0 <= i < k ==> #[trigger] critical_options@[i]@
                == options_of(games@[critical@[i] as int], simplified@[critical@[i] as int]),
            forall|i: int| 0 <= i < k ==> #[trigger] weights@[i]@
                == if simplified@[critical@[i] as int] { seq![684u32, 684u32] } else { weight_parts(games@[critical@[i] as int]) },
    {
        let gi = critical[k];
        assert(critical@[k as int] < games@.len());
        if simplified[gi] {
            critical_options.push(vec![GameOutcome::HomeWin, GameOutcome::AwayWin]);
            weights.push(vec![684, 684]);
        } else {
            critical_options.push(build_game_options(&games[gi]));
            weights.push(outcome_weight_parts(&games[gi]));
        }
    }
    SimulationPlan {
        simplified,
        all_options,
        fixed,
        red_min_wins,
        red_max_wins,
        can_tie,
        critical,
        critical_options,
        weights,
    }
}


/// The results that a combination gives the followed club's games.
pub open spec fn followed_results(games: Seq<RemainingGame>, red_idx: Seq<usize>, bits: Seq<bool>) -> Seq<(usize, GameOutcome)> {
    Seq::new(red_idx.len(), |i: int| (red_idx[i], followed_outcome(games[red_idx[i] as int], bits[i])))
}

/// The plan of the enumeration for one combination of results of the
/// followed club's games.
pub struct ComboPlan {
    /// The followed club's games, and whether it wins each.
    pub red_games: Vec<usize>,
    pub bits: Vec<bool>,
    /// The followed club's wins at the end.
    pub red_total_wins: u32,
    /// The name of the combination.
    pub description: String,
    /// The clubs that can end level with the followed club.
    pub can_tie: Vec<Team>,
    /// The other games to enumerate, and their options.
    pub critical: Vec<usize>,
    pub critical_options: Vec<Vec<GameOutcome>>,
    /// The results fixed in every scenario: the games that cannot matter to
    /// a home win, then the followed club's games as the combination says.
    pub fixed: Vec<(usize, GameOutcome)>,
}

/// Whether a plan is the one for the games, the table, the followed club's
/// wins so far, and the combination number.
pub open spec fn combo_plan_is(p: ComboPlan, games: Seq<RemainingGame>, base: Seq<TeamStats>, base_wins: u32, red_combo: u32) -> bool {
    let n = games.len() as int;
    let red = indices_where(games, Team::RED, true, n);
    let other = indices_where(games, Team::RED, false, n);
    let bits = p.bits@;
    let total = base_wins + count_true(bits);
    let cands = tie_candidates(base, Seq::new(20, |i: int| 0u32), left_by_club(games, other), total as u32, total as u32, 13);
    &&& p.red_games@ == red
    &&& bits.len() == red.len()
    &&& forall|i: int| 0 <= i < red.len() ==> #[trigger] bits[i] == (((red_combo >> (i as u32)) & 1u32) == 1u32)
    &&& p.red_total_wins == total
    &&& p.description@ == combo_text(games, red, bits)
    &&& p.can_tie@ == cands
    &&& p.critical@ == split_where(games, other, cands, false, true)
    &&& p.critical_options@.len() == p.critical@.len()
    &&& forall|i: int| 0 <= i < p.critical@.len() ==> #[trigger] p.critical_options@[i]@ == game_options(games[p.critical@[i] as int])
    &&& p.fixed@ == home_wins_of(split_where(games, other, cands, false, false)) + followed_results(games, red, bits)
}

/// Plans the enumeration for one combination of results of the followed
/// club's games (bit i of `red_combo` set: it wins its i-th game).
pub fn plan_red_combo(games: &[RemainingGame], base: &[TeamStats], base_wins: u32, red_combo: u32) -> (p: ComboPlan)
    requires
        rivals_listed(base@),
        games@.len() < 0x3fff_ffff,
        indices_where(games@, Team::RED, true, games@.len() as int).len() <= 32,
        base_wins as int + 32 <= u32::MAX,
    ensures
        combo_plan_is(p, games@, base@, base_wins, red_combo),
{
    let n = games.len();
    proof {
        lemma_indices_where_valid(games@, Team::RED, true, n as int);
        lemma_indices_where_valid(games@, Team::RED, false, n as int);
    }
    let red_games = games_involving(games, Team::RED, true);
    let other = games_involving(games, Team::RED, false);
    let bits = red_bits(red_combo, red_games.len());
    let red_total_wins = base_wins + count_wins(&bits);
    let description = combo_description(games, &red_games, &bits);
    let left = remaining_counts(games, &other);
    proof {
        lemma_counts_by_club(games@, other@, left@);
    }
    let mut zeros: Vec<u32> = Vec::new();
    for i in 0..20usize
        invariant
            zeros@.len() == i,
            forall|j: int| 0 <= j < i ==> #[trigger] zeros@[j] == 0,
    {
        zeros.push(0);
    }
    assert(zeros@ =~= Seq::new(20, |i: int| 0u32));
    let can_tie = can_tie_teams(base, &zeros, &left, red_total_wins, red_total_wins);
    let (critical, irrelevant) = split_critical(games, &other, &can_tie, false);
    proof {
        lemma_split_valid(games@, other@, can_tie@, false, true);
    }
    let mut critical_options: Vec<Vec<GameOutcome>> = Vec::new();
    for k in 0..critical.len()
        invariant
            indices_valid(games@, critical@),
            critical_options@.len() == k,
            forall|i: int| 0 <= i < k ==> #[trigger] critical_options@[i]@ == game_options(games@[critical@[i] as int]),
    {
        assert(critical@[k as int] < games@.len());
        critical_options.push(build_game_options(&games[critical[k]]));
    }
    let mut fixed: Vec<(usize, GameOutcome)> = Vec::new();
    push_home_wins(&mut fixed, &irrelevant);
    assert(Seq::<(usize, GameOutcome)>::empty() + home_wins_of(irrelevant@) == home_wins_of(irrelevant@));
    let ghost start = fixed@;
    let ghost fr = followed_results(games@, red_games@, bits@);
    for k in 0..red_games.len()
        invariant
            indices_valid(games@, red_games@),
            bits@.len() == red_games@.len(),
            fr == followed_results(games@, red_games@, bits@),
            fixed@ == start + fr.take(k as int),
    {
        assert(red_games@[k as int] < games@.len());
        let gi = red_games[k];
        let o = red_fixed_outcome(&games[gi], bits[k]);
        fixed.push((gi, o));
        assert(fr.take(k + 1) == fr.take(k as int).push(fr[k as int]));
    }
    assert(fr.take(red_games@.len() as int) == fr);
    ComboPlan {
        red_games,
        bits,
        red_total_wins,
        description,
        can_tie,
        critical,
        critical_options,
        fixed,
    }
}


// ---------------------------------------------------------------------------
// The list of games shown to a user
// ---------------------------------------------------------------------------

/// What is shown of a remaining game.
pub struct GameSummary {
    pub index: usize,
    pub home: String,
    pub away: String,
    pub gamecode: u32,
    pub is_red_game: bool,
    /// The labels of the game's options.
    pub options: Vec<String>,
    /// Whether the game can matter to the followed club's place.
    pub relevant: bool,
    /// The first game of the series the game completes, unless the series
    /// cannot matter.
    pub h2h_first_game: Option<String>,
}

/// Whether a club's game can matter to the followed club: the club is
/// followed, and its wins can reach `lo` with its games left without
/// exceeding `hi` already.
pub open spec fn club_relevant(games: Seq<RemainingGame>, base: Seq<TeamStats>, t: Team, lo: u32, hi: u32) -> bool {
    let left = left_by_club(games, all_indices(games.len() as int));
    let w = first_line(base, t)->Some_0.wins as int;
    t.is_relevant() && w + left[t.ord_index() as int] >= lo && w <= hi
}

/// The text of the first game of a series, with the clubs' codes, such as
/// `OLY W +12 vs MAD`.
pub open spec fn first_game_text(g: RemainingGame) -> Seq<char> {
    let info = g.h2h_info->Some_0;
    info.first_winner.code_text() + " W +"@ + int_text(info.margin as int) + " vs "@ + info.first_loser.code_text()
}

/// The labels of a game's options: plain home and away wins when its
/// series cannot matter.
pub open spec fn labels_of(g: RemainingGame, dom: bool) -> Seq<Seq<char>> {
    if dom {
        seq![g.home.name_text() + " W"@, g.away.name_text() + " W"@]
    } else {
        Seq::new(game_options(g).len(), |j: int| option_label(g, j as usize))
    }
}

/// Whether a summary is the one of the `i`-th game.
pub open spec fn summary_is(sm: GameSummary, i: int, games: Seq<RemainingGame>, base: Seq<TeamStats>, lo: u32, hi: u32, simplify: bool) -> bool {
    let g = games[i];
    let dom = simplify && dominated(games, base, g);
    &&& sm.index == i
    &&& sm.home@ == g.home.name_text()
    &&& sm.away@ == g.away.name_text()
    &&& sm.gamecode == g.gamecode
    &&& sm.is_red_game == plays_in(g, Team::RED)
    &&& sm.options@.map_values(|s: String| s@) == labels_of(g, dom)
    &&& sm.relevant == (plays_in(g, Team::RED) || club_relevant(games, base, g.home, lo, hi) || club_relevant(games, base, g.away, lo, hi))
    &&& sm.h2h_first_game matches Some(t) ==> (!dom && g.h2h_info is Some && t@ == first_game_text(g))
    &&& sm.h2h_first_game is None ==> (dom || g.h2h_info is None)
}

fn first_game_string(info: &crate::types::H2HIncompleteInfo) -> (s: String)
    ensures
        s@ == info.first_winner.code_text() + " W +"@ + int_text(info.margin as int) + " vs "@ + info.first_loser.code_text(),
{
    let mut s = String::from_str(info.first_winner.code());
    s.append(" W +");
    push_int(&mut s, info.margin as i128);
    s.append(" vs ");
    s.append(info.first_loser.code());
    s
}

fn option_labels(g: &RemainingGame, dom: bool) -> (v: Vec<String>)
    ensures
        v@.map_values(|s: String| s@) == labels_of(*g, dom),
{
    let mut v: Vec<String> = Vec::new();
    if dom {
        let mut h = String::from_str(g.home.name());
        h.append(" W");
        let mut a = String::from_str(g.away.name());
        a.append(" W");
        v.push(h);
        v.push(a);
        assert(v@.map_values(|s: String| s@) =~= labels_of(*g, dom));
    } else {
        let opts = build_game_options(g);
        let ghost labels = labels_of(*g, dom);
        for j in 0..opts.len()
            invariant
                opts@ == game_options(*g),
                !dom,
                labels == labels_of(*g, dom),
                v@.map_values(|s: String| s@) == labels.take(j as int),
        {
            let l = describe_option(g, j);
            let ghost before = v@;
            v.push(l);
            assert(v@.map_values(|s: String| s@) =~= before.map_values(|s: String| s@).push(l@));
            assert(labels.take(j + 1) =~= labels.take(j as int).push(labels[j as int]));
        }
        assert(labels.take(opts@.len() as int) == labels);
    }
    v
}

/// What is shown of every remaining game. A game can matter when the
/// followed club plays in it or when one of its clubs can end with wins
/// between `lo` and `hi`; with `simplify`, a series that cannot matter is
/// shown as a plain game.
pub fn summarize_games(games: &[RemainingGame], base: &[TeamStats], lo: u32, hi: u32, simplify: bool) -> (v: Vec<GameSummary>)
    requires
        players_listed(games@, base@),
        simplify ==> series_clubs_listed(games@, base@),
        games@.len() < 0x3fff_ffff,
    ensures
        v@.len() == games@.len(),
        forall|i: int| 0 <= i < games@.len() ==> summary_is(#[trigger] v@[i], i, games@, base@, lo, hi, simplify),
{
    let n = games.len();
    let dom = dominated_flags(games, base, simplify);
    let mut all: Vec<usize> = Vec::new();
    for i in 0..n
        invariant
            n == games@.len(),
            all@ == all_indices(i as int),
    {
        all.push(i);
        assert(all_indices(i + 1) =~= all_indices(i as int).push(i));
    }
    let left = remaining_counts(games, &all);
    proof {
        lemma_counts_by_club(games@, all@, left@);
    }
    let mut v: Vec<GameSummary> = Vec::new();
    for i in 0..n
        invariant
            n == games@.len(),
            players_listed(games@, base@),
            all@ == all_indices(n as int),
            left@ == left_by_club(games@, all@),
            dom@ == Seq::new(games@.len(), |i: int| simplify && dominated(games@, base@, games@[i])),
            v@.len() == i,
            forall|k: int| 0 <= k < i ==> summary_is(#[trigger] v@[k], k, games@, base@, lo, hi, simplify),
    {
        let g = games[i];
        assert(games@[i as int] == g);
        let d = dom[i];
        let is_red = g.home == Team::RED || g.away == Team::RED;
        let home_relevant = club_relevant_exec(base, &left, g.home, lo, hi);
        let away_relevant = club_relevant_exec(base, &left, g.away, lo, hi);
        let h2h_first_game = if d {
            None
        } else {
            match &g.h2h_info {
                Some(info) => Some(first_game_string(info)),
                None => None,
            }
        };
        let sm = GameSummary {
            index: i,
            home: String::from_str(g.home.name()),
            away: String::from_str(g.away.name()),
            gamecode: g.gamecode,
            is_red_game: is_red,
            options: option_labels(&g, d),
            relevant: is_red || home_relevant || away_relevant,
            h2h_first_game,
        };
        v.push(sm);
    }
    v
}

fn club_relevant_exec(base: &[TeamStats], left: &Vec<u32>, t: Team, lo: u32, hi: u32) -> (r: bool)
    requires
        t.is_relevant() ==> first_line(base@, t) is Some,
        left@.len() == TEAM_COUNT,
    ensures
        r == (t.is_relevant() && first_line(base@, t)->Some_0.wins as int + left@[t.ord_index() as int] >= lo
            && first_line(base@, t)->Some_0.wins as int <= hi),
{
    proof {
        lemma_ord_index(t, t);
    }
    if t.index() >= 13 {
        return false;
    }
    let s = find_line(base, t).unwrap();
    let rem = left[t.index() as usize] as u64;
    s.wins as u64 + rem >= lo as u64 && s.wins as u64 <= hi as u64
}


// ---------------------------------------------------------------------------
// Tallies of the winners
// ---------------------------------------------------------------------------

/// How many of the results for game `gi` its home club won (`home`), or its
/// away club won (`!home`).
pub open spec fn winner_tally(games: Seq<RemainingGame>, results: Seq<(usize, GameOutcome)>, gi: int, home: bool) -> int
    decreases results.len(),
{
    if results.len() == 0 {
        0
    } else {
        let r = results.last();
        winner_tally(games, results.drop_last(), gi, home)
            + if r.0 == gi && home_wins(games[r.0 as int], r.1) == home { 1int } else { 0 }
    }
}

proof fn lemma_winner_tally_bound(games: Seq<RemainingGame>, results: Seq<(usize, GameOutcome)>, gi: int, home: bool)
    ensures
        0 <= winner_tally(games, results, gi, home) <= results.len(),
    decreases results.len(),
{
    if results.len() > 0 {
        lemma_winner_tally_bound(games, results.drop_last(), gi, home);
    }
}

/// Adds to the tallies of each game how many of the results its home club
/// won, and how many its away club won.
pub fn tally_winners(
    games: &[RemainingGame],
    results: &Vec<(usize, GameOutcome)>,
    home: &mut Vec<u64>,
    away: &mut Vec<u64>,
)
    requires
        results_valid(games@, results@),
        old(home)@.len() == games@.len(),
        old(away)@.len() == games@.len(),
        forall|i: int| 0 <= i < games@.len() ==> #[trigger] old(home)@[i] + results@.len() <= u64::MAX,
        forall|i: int| 0 <= i < games@.len() ==> #[trigger] old(away)@[i] + results@.len() <= u64::MAX,
    ensures
        final(home)@.len() == games@.len(),
        final(away)@.len() == games@.len(),
        forall|i: int| 0 <= i < games@.len()
            ==> #[trigger] final(home)@[i] == old(home)@[i] + winner_tally(games@, results@, i, true),
        forall|i: int| 0 <= i < games@.len()
            ==> #[trigger] final(away)@[i] == old(away)@[i] + winner_tally(games@, results@, i, false),
{
    let ghost h0 = home@;
    let ghost a0 = away@;
    for k in 0..results.len()
        invariant
            results_valid(games@, results@),
            h0.len() == games@.len(),
            a0.len() == games@.len(),
            home@.len() == games@.len(),
            away@.len() == games@.len(),
            forall|i: int| 0 <= i < games@.len() ==> #[trigger] h0[i] + results@.len() <= u64::MAX,
            forall|i: int| 0 <= i < games@.len() ==> #[trigger] a0[i] + results@.len() <= u64::MAX,
            forall|i: int| 0 <= i < games@.len()
                ==> #[trigger] home@[i] == h0[i] + winner_tally(games@, results@.take(k as int), i, true),
            forall|i: int| 0 <= i < games@.len()
                ==> #[trigger] away@[i] == a0[i] + winner_tally(games@, results@.take(k as int), i, false),
    {
        let ghost pre = results@.take(k as int);
        let ghost next = results@.take(k + 1);
        assert(next.drop_last() == pre);
        assert(next.last() == results@[k as int]);
        let (gi, o) = results[k];
        assert(results@[k as int].0 < games@.len());
        proof {
            lemma_winner_tally_bound(games@, pre, gi as int, true);
            lemma_winner_tally_bound(games@, pre, gi as int, false);
        }
        if home_won(&games[gi], o) {
            let v = home[gi];
            home.set(gi, v + 1);
        } else {
            let v = away[gi];
            away.set(gi, v + 1);
        }
        assert forall|i: int| 0 <= i < games@.len()
            implies #[trigger] home@[i] == h0[i] + winner_tally(games@, next, i, true) by {}
        assert forall|i: int| 0 <= i < games@.len()
            implies #[trigger] away@[i] == a0[i] + winner_tally(games@, next, i, false) by {}
    }
    assert(results@.take(results@.len() as int) == results@);
}

} // verus!
