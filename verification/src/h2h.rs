//! Head-to-head series between clubs: how a pair of clubs is keyed, what a
//! series says about each of the two, and how a played game updates it.

use vstd::prelude::*;
use std::collections::HashMap;
use crate::team::{Team, TEAM_COUNT, lemma_ord_index};
use crate::types::{H2HRecord, RemainingGame, GameOutcome};

verus! {

/// The pair of clubs ordered as the order of clubs puts them.
pub open spec fn key_of(a: Team, b: Team) -> (Team, Team) {
    if a.ord_index() <= b.ord_index() { (a, b) } else { (b, a) }
}

/// The integer under which the series of two clubs is stored: the positions
/// of the ordered pair, read as two digits in base `TEAM_COUNT`.
pub open spec fn pair_code(a: Team, b: Team) -> u32 {
    let k = key_of(a, b);
    (k.0.ord_index() * TEAM_COUNT + k.1.ord_index()) as u32
}

/// The pair of clubs ordered as the order of clubs puts them.
pub fn h2h_key(a: Team, b: Team) -> (k: (Team, Team))
    ensures
        k == key_of(a, b),
{
    if a.index() <= b.index() { (a, b) } else { (b, a) }
}

/// The integer under which the series of two clubs is stored.
pub fn h2h_code(a: Team, b: Team) -> (c: u32)
    ensures
        c == pair_code(a, b),
{
    let k = h2h_key(a, b);
    k.0.index() * TEAM_COUNT + k.1.index()
}

/// Two pairs get the same code exactly when they are the same unordered pair.
pub proof fn lemma_pair_code(a: Team, b: Team, c: Team, d: Team)
    ensures
        pair_code(a, b) == pair_code(b, a),
        pair_code(a, b) < TEAM_COUNT * TEAM_COUNT,
        pair_code(a, b) == pair_code(c, d) <==> key_of(a, b) == key_of(c, d),
{
    lemma_ord_index(a, b);
    lemma_ord_index(c, d);
    lemma_ord_index(a, c);
    lemma_ord_index(a, d);
    lemma_ord_index(b, c);
    lemma_ord_index(b, d);
}

/// Head-to-head wins of `team` against `opponent` in the series map.
pub open spec fn wins_of(m: Map<u32, H2HRecord>, team: Team, opponent: Team) -> u32 {
    let c = pair_code(team, opponent);
    if m.contains_key(c) {
        if key_of(team, opponent).0 == team { m[c].wins_a } else { m[c].wins_b }
    } else {
        0
    }
}

/// Head-to-head point difference of `team` against `opponent`.
pub open spec fn diff_of(m: Map<u32, H2HRecord>, team: Team, opponent: Team) -> i32 {
    let c = pair_code(team, opponent);
    if m.contains_key(c) {
        if key_of(team, opponent).0 == team { m[c].diff_a } else { m[c].diff_b }
    } else {
        0
    }
}

/// Whether the two clubs have met twice.
pub open spec fn complete_of(m: Map<u32, H2HRecord>, a: Team, b: Team) -> bool {
    let c = pair_code(a, b);
    m.contains_key(c) && m[c].met_twice
}

/// The series of two clubs, or an empty one if they have not met.
pub open spec fn series_or_new(m: Map<u32, H2HRecord>, a: Team, b: Team) -> H2HRecord {
    let c = pair_code(a, b);
    let k = key_of(a, b);
    if m.contains_key(c) {
        m[c]
    } else {
        H2HRecord {
            team_a: k.0,
            team_b: k.1,
            games_played: 0,
            wins_a: 0,
            wins_b: 0,
            diff_a: 0,
            diff_b: 0,
            met_twice: false,
        }
    }
}

/// The winner of a game as the series counts it, and the margin credited.
/// A game that completes a series is won by the first game's winner by 8
/// when the outcome is a home or away win; by its loser by one point less
/// than the first margin (at least 1) when it wins small, and by one point
/// more when it wins big. Any other game is won by 8 by the home club on a
/// home win and by the away club otherwise.
pub open spec fn game_credit(game: RemainingGame, outcome: GameOutcome) -> (Team, int) {
    match game.h2h_info {
        Some(info) => match outcome {
            GameOutcome::HomeWin | GameOutcome::AwayWin => (info.first_winner, 8),
            GameOutcome::H2HLoserWinsSmall => (
                info.first_loser,
                if info.margin <= 1 { 1 } else { info.margin - 1 },
            ),
            GameOutcome::H2HLoserWinsBig => (info.first_loser, info.margin + 1),
        },
        None => (if outcome == GameOutcome::HomeWin { game.home } else { game.away }, 8),
    }
}

/// The series after one more game: one more game played, met twice once two
/// games are played, and the credited win and margin given to the winner's
/// side (to `team_b` whenever the winner is not `team_a` of the key).
pub open spec fn credited(rec: H2HRecord, first: Team, winner: Team, margin: int) -> H2HRecord {
    let gp = (rec.games_played + 1) as u32;
    let met = rec.met_twice || gp >= 2;
    if first == winner {
        H2HRecord {
            games_played: gp,
            met_twice: met,
            wins_a: (rec.wins_a + 1) as u32,
            diff_a: (rec.diff_a + margin) as i32,
            diff_b: (rec.diff_b - margin) as i32,
            ..rec
        }
    } else {
        H2HRecord {
            games_played: gp,
            met_twice: met,
            wins_b: (rec.wins_b + 1) as u32,
            diff_b: (rec.diff_b + margin) as i32,
            diff_a: (rec.diff_a - margin) as i32,
            ..rec
        }
    }
}

/// Whether crediting the game keeps every count of the series in range.
pub open spec fn game_fits(m: Map<u32, H2HRecord>, game: RemainingGame, outcome: GameOutcome) -> bool {
    let rec = series_or_new(m, game.home, game.away);
    let (winner, margin) = game_credit(game, outcome);
    let first = key_of(game.home, game.away).0;
    &&& margin <= i32::MAX
    &&& rec.games_played + 1 <= u32::MAX
    &&& if first == winner {
        &&& rec.wins_a + 1 <= u32::MAX
        &&& i32::MIN <= rec.diff_a + margin <= i32::MAX
        &&& i32::MIN <= rec.diff_b - margin <= i32::MAX
    } else {
        &&& rec.wins_b + 1 <= u32::MAX
        &&& i32::MIN <= rec.diff_b + margin <= i32::MAX
        &&& i32::MIN <= rec.diff_a - margin <= i32::MAX
    }
}

/// The series map after a game.
pub open spec fn after_game(m: Map<u32, H2HRecord>, game: RemainingGame, outcome: GameOutcome) -> Map<u32, H2HRecord> {
    let (winner, margin) = game_credit(game, outcome);
    m.insert(
        pair_code(game.home, game.away),
        credited(series_or_new(m, game.home, game.away), key_of(game.home, game.away).0, winner, margin),
    )
}

/// The head-to-head series of all pairs of clubs, stored by `pair_code`.
#[derive(Debug, Clone)]
pub struct H2HState {
    pub records: HashMap<u32, H2HRecord>,
}

impl H2HState {
    /// A state holding a copy of the given series.
    pub fn new(base: &HashMap<u32, H2HRecord>) -> (s: Self)
        ensures
            s.records@ == base@,
    {
        H2HState { records: base.clone() }
    }

    /// Head-to-head wins of `team` against `opponent`; 0 if they have not met.
    pub fn get_wins(&self, team: Team, opponent: Team) -> (w: u32)
        ensures
            w == wins_of(self.records@, team, opponent),
    {
        let key = h2h_key(team, opponent);
        let code = h2h_code(team, opponent);
        match self.records.get(&code) {
            Some(rec) => if key.0 == team { rec.wins_a } else { rec.wins_b },
            None => 0,
        }
    }

    /// Head-to-head point difference of `team` against `opponent`; 0 if they
    /// have not met.
    pub fn get_diff(&self, team: Team, opponent: Team) -> (d: i32)
        ensures
            d == diff_of(self.records@, team, opponent),
    {
        let key = h2h_key(team, opponent);
        let code = h2h_code(team, opponent);
        match self.records.get(&code) {
            Some(rec) => if key.0 == team { rec.diff_a } else { rec.diff_b },
            None => 0,
        }
    }

    /// Whether the two clubs have met twice.
    pub fn is_complete(&self, a: Team, b: Team) -> (c: bool)
        ensures
            c == complete_of(self.records@, a, b),
    {
        let code = h2h_code(a, b);
        match self.records.get(&code) {
            Some(rec) => rec.met_twice,
            None => false,
        }
    }

    /// Credits a played game to the series of its two clubs.
    pub fn apply_game(&mut self, game: &RemainingGame, outcome: GameOutcome)
        requires
            game_fits(old(self).records@, *game, outcome),
        ensures
            final(self).records@ == after_game(old(self).records@, *game, outcome),
    {
        let key = h2h_key(game.home, game.away);
        let code = h2h_code(game.home, game.away);
        let mut entry = match self.records.get(&code) {
            Some(rec) => *rec,
            None => H2HRecord {
                team_a: key.0,
                team_b: key.1,
                games_played: 0,
                wins_a: 0,
                wins_b: 0,
                diff_a: 0,
                diff_b: 0,
                met_twice: false,
            },
        };
        entry.games_played = entry.games_played + 1;
        if entry.games_played >= 2 {
            entry.met_twice = true;
        }
        let (winner, margin): (Team, i32) = match game.h2h_info {
            Some(info) => match outcome {
                GameOutcome::HomeWin | GameOutcome::AwayWin => (info.first_winner, 8),
                GameOutcome::H2HLoserWinsSmall => (
                    info.first_loser,
                    if info.margin <= 1 { 1 } else { info.margin - 1 },
                ),
                GameOutcome::H2HLoserWinsBig => (info.first_loser, info.margin + 1),
            },
            None => (
                if matches!(outcome, GameOutcome::HomeWin) { game.home } else { game.away },
                8,
            ),
        };
        if key.0 == winner {
            entry.wins_a = entry.wins_a + 1;
            entry.diff_a = entry.diff_a + margin;
            entry.diff_b = entry.diff_b - margin;
        } else {
            entry.wins_b = entry.wins_b + 1;
            entry.diff_b = entry.diff_b + margin;
            entry.diff_a = entry.diff_a - margin;
        }
        self.records.insert(code, entry);
    }
}


/// The key of a pair does not depend on the order in which the clubs are
/// named, and puts the club that comes first in the order of clubs first.
pub proof fn law_key_symmetric(a: Team, b: Team)
    ensures
        key_of(a, b) == key_of(b, a),
        key_of(a, b).0.ord_index() <= key_of(a, b).1.ord_index(),
        (key_of(a, b).0 == a && key_of(a, b).1 == b) || (key_of(a, b).0 == b && key_of(a, b).1 == a),
        pair_code(a, b) == pair_code(b, a),
{
    lemma_ord_index(a, b);
}

/// The series of the game's pair after the game.
pub open spec fn series_after(m: Map<u32, H2HRecord>, game: RemainingGame, outcome: GameOutcome) -> H2HRecord {
    after_game(m, game, outcome)[pair_code(game.home, game.away)]
}

/// A played game adds one game and one win to its pair's series; the two
/// point differences move by the same margin in opposite directions; a pair
/// that met twice stays so, and one that has now played two games has met
/// twice; every other series is unchanged.
pub proof fn law_game_counts(m: Map<u32, H2HRecord>, game: RemainingGame, outcome: GameOutcome)
    requires
        game_fits(m, game, outcome),
    ensures
        series_after(m, game, outcome).games_played == series_or_new(m, game.home, game.away).games_played + 1,
        series_after(m, game, outcome).wins_a + series_after(m, game, outcome).wins_b
            == series_or_new(m, game.home, game.away).wins_a + series_or_new(m, game.home, game.away).wins_b + 1,
        series_after(m, game, outcome).diff_a + series_after(m, game, outcome).diff_b
            == series_or_new(m, game.home, game.away).diff_a + series_or_new(m, game.home, game.away).diff_b,
        series_or_new(m, game.home, game.away).met_twice ==> series_after(m, game, outcome).met_twice,
        series_after(m, game, outcome).games_played >= 2 ==> series_after(m, game, outcome).met_twice,
        forall|c: u32| c != pair_code(game.home, game.away)
            ==> (#[trigger] after_game(m, game, outcome).contains_key(c) == m.contains_key(c))
                && (m.contains_key(c) ==> after_game(m, game, outcome)[c] == m[c]),
{
}

/// The winner of a game between two different clubs gains one head-to-head
/// win against the other club, and the other club's wins against it stay.
pub proof fn law_game_winner(m: Map<u32, H2HRecord>, game: RemainingGame, outcome: GameOutcome)
    requires
        game_fits(m, game, outcome),
        game.home != game.away,
        game_credit(game, outcome).0 == game.home || game_credit(game, outcome).0 == game.away,
    ensures
        ({
            let w = game_credit(game, outcome).0;
            let l = if w == game.home { game.away } else { game.home };
            &&& wins_of(after_game(m, game, outcome), w, l) == wins_of(m, w, l) + 1
            &&& wins_of(after_game(m, game, outcome), l, w) == wins_of(m, l, w)
            &&& diff_of(after_game(m, game, outcome), w, l) == diff_of(m, w, l) + game_credit(game, outcome).1
            &&& diff_of(after_game(m, game, outcome), l, w) == diff_of(m, l, w) - game_credit(game, outcome).1
            &&& complete_of(after_game(m, game, outcome), w, l) == (series_or_new(m, w, l).met_twice
                || series_or_new(m, w, l).games_played + 1 >= 2)
        }),
{
    lemma_ord_index(game.home, game.away);
    law_key_symmetric(game.home, game.away);
}


/// Whether every stored series is consistent: its two win counts add up to
/// the games played, its two point differences cancel, and the pair has met
/// twice exactly when two or more games were played.
pub open spec fn series_balanced(m: Map<u32, H2HRecord>) -> bool {
    forall|c: u32| #[trigger] m.contains_key(c) ==> {
        &&& m[c].wins_a + m[c].wins_b == m[c].games_played
        &&& m[c].diff_a + m[c].diff_b == 0
        &&& m[c].met_twice == (m[c].games_played >= 2)
    }
}

/// A played game keeps every series consistent.
pub proof fn law_game_keeps_balance(m: Map<u32, H2HRecord>, game: RemainingGame, outcome: GameOutcome)
    requires
        series_balanced(m),
        game_fits(m, game, outcome),
    ensures
        series_balanced(after_game(m, game, outcome)),
{
    law_game_counts(m, game, outcome);
    let c0 = pair_code(game.home, game.away);
    let m2 = after_game(m, game, outcome);
    assert forall|c: u32| #[trigger] m2.contains_key(c) implies {
        &&& m2[c].wins_a + m2[c].wins_b == m2[c].games_played
        &&& m2[c].diff_a + m2[c].diff_b == 0
        &&& m2[c].met_twice == (m2[c].games_played >= 2)
    } by {
        if c != c0 {
            assert(m.contains_key(c));
        } else if m.contains_key(c0) {
            assert(series_or_new(m, game.home, game.away) == m[c0]);
        }
    }
}

/// In consistent series, what two different clubs read of their series
/// agrees: their wins add up to the games they played against each other
/// (0 if they have not met), their point differences cancel, and both see
/// the same answer to whether they met twice.
pub proof fn law_series_reads_agree(m: Map<u32, H2HRecord>, a: Team, b: Team)
    requires
        series_balanced(m),
        a != b,
    ensures
        wins_of(m, a, b) + wins_of(m, b, a)
            == if m.contains_key(pair_code(a, b)) { m[pair_code(a, b)].games_played as int } else { 0 },
        diff_of(m, a, b) == -diff_of(m, b, a),
        complete_of(m, a, b) == complete_of(m, b, a),
        complete_of(m, a, b) == (m.contains_key(pair_code(a, b)) && m[pair_code(a, b)].games_played >= 2),
{
    lemma_pair_code(a, b, b, a);
    lemma_ord_index(a, b);
    law_key_symmetric(a, b);
}


/// The series after the games are played one after the other.
pub open spec fn after_games(m: Map<u32, H2HRecord>, played: Seq<(RemainingGame, GameOutcome)>) -> Map<u32, H2HRecord>
    decreases played.len(),
{
    if played.len() == 0 {
        m
    } else {
        after_game(after_games(m, played.drop_last()), played.last().0, played.last().1)
    }
}

/// Whether every game, played in turn, keeps the counts of its series in
/// range, and is a game between two different clubs.
pub open spec fn games_fit(m: Map<u32, H2HRecord>, played: Seq<(RemainingGame, GameOutcome)>) -> bool
    decreases played.len(),
{
    if played.len() == 0 {
        true
    } else {
        &&& games_fit(m, played.drop_last())
        &&& game_fits(after_games(m, played.drop_last()), played.last().0, played.last().1)
        &&& played.last().0.home != played.last().0.away
    }
}

/// Whether no series of a club with itself is stored.
pub open spec fn no_self_series(m: Map<u32, H2HRecord>) -> bool {
    forall|t: Team| !(#[trigger] m.contains_key(pair_code(t, t)))
}

/// Consistent series without a club paired with itself stay so however many
/// games between two different clubs are played.
pub proof fn law_played_series_consistent(m: Map<u32, H2HRecord>, played: Seq<(RemainingGame, GameOutcome)>)
    requires
        series_balanced(m),
        no_self_series(m),
        games_fit(m, played),
    ensures
        series_balanced(after_games(m, played)),
        no_self_series(after_games(m, played)),
    decreases played.len(),
{
    if played.len() > 0 {
        let init = played.drop_last();
        let (g, o) = played.last();
        law_played_series_consistent(m, init);
        let m1 = after_games(m, init);
        law_game_keeps_balance(m1, g, o);
        law_game_counts(m1, g, o);
        assert forall|t: Team| !(#[trigger] after_games(m, played).contains_key(pair_code(t, t))) by {
            lemma_pair_code(g.home, g.away, t, t);
            lemma_ord_index(g.home, g.away);
            assert(!m1.contains_key(pair_code(t, t)));
        }
    }
}

/// In consistent series without a club paired with itself, what any two
/// clubs read of their series agrees: their wins add up to the games they
/// played against each other (0 if none), their point differences cancel,
/// both see the same answer to whether they met twice, and they met twice
/// exactly when their wins add up to two or more.
pub proof fn law_reads_agree(m: Map<u32, H2HRecord>, a: Team, b: Team)
    requires
        series_balanced(m),
        no_self_series(m),
    ensures
        wins_of(m, a, b) + wins_of(m, b, a)
            == if m.contains_key(pair_code(a, b)) { m[pair_code(a, b)].games_played as int } else { 0 },
        diff_of(m, a, b) == -diff_of(m, b, a),
        complete_of(m, a, b) == complete_of(m, b, a),
        complete_of(m, a, b) == (wins_of(m, a, b) + wins_of(m, b, a) >= 2),
{
    if a == b {
        assert(!m.contains_key(pair_code(a, a)));
    } else {
        law_series_reads_agree(m, a, b);
    }
}

} // verus!
