//! The table, the head-to-head series and the games still to be played,
//! as they stand after the completed rounds.

use vstd::prelude::*;
use std::collections::HashMap;
use crate::team::Team;
use crate::types::{TeamStats, H2HRecord, H2HIncompleteInfo, RemainingGame, GameOutcome};
use crate::h2h::{
    key_of, pair_code, h2h_key, h2h_code, series_balanced, no_self_series, after_games, games_fit,
    wins_of, diff_of, complete_of, law_played_series_consistent, law_reads_agree, lemma_pair_code,
};

verus! {

/// The table: club, games played, wins, losses, points for, points against,
/// point difference.
pub const STANDINGS_ROWS: [(Team, u32, u32, u32, i32, i32, i32); 20] = [
    (Team::OLY, 37, 25, 12, 3321, 3068, 253),
    (Team::ULK, 37, 23, 14, 3033, 2985, 48),
    (Team::MAD, 37, 23, 14, 3239, 3074, 165),
    (Team::PAM, 37, 24, 13, 3323, 3158, 165),
    (Team::ZAL, 37, 22, 15, 3219, 3046, 173),
    (Team::HTA, 36, 22, 14, 3145, 3018, 127),
    (Team::PAN, 37, 21, 16, 3217, 3166, 51),
    (Team::BAR, 37, 20, 17, 3072, 3078, -6),
    (Team::MCO, 37, 21, 16, 3312, 3197, 115),
    (Team::RED, 37, 21, 16, 3205, 3142, 63),
    (Team::DUB, 37, 19, 18, 3239, 3230, 9),
    (Team::TEL, 36, 18, 18, 3213, 3298, -85),
    (Team::MIL, 37, 17, 20, 3170, 3209, -39),
    (Team::MUN, 37, 17, 20, 2994, 3073, -79),
    (Team::PAR, 37, 15, 22, 2961, 3163, -202),
    (Team::PRS, 37, 15, 22, 3343, 3371, -28),
    (Team::VIR, 37, 13, 24, 3021, 3200, -179),
    (Team::BAS, 37, 13, 24, 3242, 3392, -150),
    (Team::IST, 37, 12, 25, 2929, 3054, -125),
    (Team::ASV, 37, 8, 29, 2913, 3189, -276),
];

/// The head-to-head series: the two clubs, games played, wins of each, point
/// difference of each, and whether they have met twice.
pub const H2H_ROWS: [(Team, Team, u32, u32, u32, i32, i32, bool); 78] = [
    (Team::BAR, Team::DUB, 2, 1, 1, -3, 3, true),
    (Team::BAR, Team::HTA, 2, 0, 2, -21, 21, true),
    (Team::BAR, Team::MAD, 2, 0, 2, -28, 28, true),
    (Team::BAR, Team::MCO, 2, 0, 2, -23, 23, true),
    (Team::BAR, Team::MIL, 2, 1, 1, -1, 1, true),
    (Team::BAR, Team::OLY, 2, 1, 1, 1, -1, true),
    (Team::BAR, Team::PAM, 2, 2, 0, 10, -10, true),
    (Team::BAR, Team::PAN, 2, 1, 1, -7, 7, true),
    (Team::BAR, Team::RED, 2, 2, 0, 10, -10, true),
    (Team::BAR, Team::TEL, 2, 2, 0, 31, -31, true),
    (Team::BAR, Team::ULK, 2, 0, 2, -5, 5, true),
    (Team::BAR, Team::ZAL, 2, 0, 2, -27, 27, true),
    (Team::DUB, Team::HTA, 2, 0, 2, -37, 37, true),
    (Team::DUB, Team::MAD, 2, 1, 1, -6, 6, true),
    (Team::DUB, Team::MCO, 2, 1, 1, -12, 12, true),
    (Team::DUB, Team::MIL, 2, 2, 0, 25, -25, true),
    (Team::DUB, Team::OLY, 2, 1, 1, -19, 19, true),
    (Team::DUB, Team::PAM, 1, 0, 1, -2, 2, false),
    (Team::DUB, Team::PAN, 2, 0, 2, -24, 24, true),
    (Team::DUB, Team::RED, 2, 1, 1, 13, -13, true),
    (Team::DUB, Team::TEL, 2, 0, 2, -2, 2, true),
    (Team::DUB, Team::ULK, 2, 2, 0, 35, -35, true),
    (Team::DUB, Team::ZAL, 2, 2, 0, 18, -18, true),
    (Team::HTA, Team::MAD, 2, 0, 2, -10, 10, true),
    (Team::HTA, Team::MCO, 1, 1, 0, 8, -8, false),
    (Team::HTA, Team::MIL, 2, 2, 0, 28, -28, true),
    (Team::HTA, Team::OLY, 2, 0, 2, -8, 8, true),
    (Team::HTA, Team::PAM, 2, 1, 1, 7, -7, true),
    (Team::HTA, Team::PAN, 2, 1, 1, -7, 7, true),
    (Team::HTA, Team::RED, 2, 1, 1, -6, 6, true),
    (Team::HTA, Team::TEL, 1, 0, 1, -13, 13, false),
    (Team::HTA, Team::ULK, 2, 1, 1, 9, -9, true),
    (Team::HTA, Team::ZAL, 2, 0, 2, -24, 24, true),
    (Team::MAD, Team::MCO, 2, 1, 1, 7, -7, true),
    (Team::MAD, Team::MIL, 2, 1, 1, 22, -22, true),
    (Team::MAD, Team::OLY, 2, 1, 1, -2, 2, true),
    (Team::MAD, Team::PAM, 2, 1, 1, 4, -4, true),
    (Team::MAD, Team::PAN, 2, 0, 2, -11, 11, true),
    (Team::MAD, Team::RED, 1, 0, 1, -15, 15, false),
    (Team::MAD, Team::TEL, 2, 1, 1, 11, -11, true),
    (Team::MAD, Team::ULK, 2, 2, 0, 31, -31, true),
    (Team::MAD, Team::ZAL, 2, 1, 1, -1, 1, true),
    (Team::MCO, Team::MIL, 2, 2, 0, 8, -8, true),
    (Team::MCO, Team::OLY, 2, 2, 0, 6, -6, true),
    (Team::MCO, Team::PAM, 2, 2, 0, 15, -15, true),
    (Team::MCO, Team::PAN, 2, 1, 1, -2, 2, true),
    (Team::MCO, Team::RED, 2, 0, 2, -12, 12, true),
    (Team::MCO, Team::TEL, 2, 1, 1, -5, 5, true),
    (Team::MCO, Team::ULK, 2, 0, 2, -24, 24, true),
    (Team::MCO, Team::ZAL, 2, 0, 2, -22, 22, true),
    (Team::MIL, Team::OLY, 1, 1, 0, 1, -1, false),
    (Team::MIL, Team::PAM, 2, 0, 2, -9, 9, true),
    (Team::MIL, Team::PAN, 2, 2, 0, 20, -20, true),
    (Team::MIL, Team::RED, 2, 1, 1, 2, -2, true),
    (Team::MIL, Team::TEL, 2, 2, 0, 23, -23, true),
    (Team::MIL, Team::ULK, 2, 0, 2, -19, 19, true),
    (Team::MIL, Team::ZAL, 2, 1, 1, 7, -7, true),
    (Team::OLY, Team::PAM, 2, 0, 2, -8, 8, true),
    (Team::OLY, Team::PAN, 2, 2, 0, 11, -11, true),
    (Team::OLY, Team::RED, 2, 1, 1, -5, 5, true),
    (Team::OLY, Team::TEL, 2, 2, 0, 8, -8, true),
    (Team::OLY, Team::ULK, 2, 1, 1, 9, -9, true),
    (Team::OLY, Team::ZAL, 2, 1, 1, 17, -17, true),
    (Team::PAM, Team::PAN, 2, 2, 0, 28, -28, true),
    (Team::PAM, Team::RED, 2, 2, 0, 20, -20, true),
    (Team::PAM, Team::TEL, 2, 1, 1, 8, -8, true),
    (Team::PAM, Team::ULK, 2, 1, 1, 12, -12, true),
    (Team::PAM, Team::ZAL, 2, 1, 1, -5, 5, true),
    (Team::PAN, Team::RED, 2, 1, 1, -10, 10, true),
    (Team::PAN, Team::TEL, 2, 1, 1, 10, -10, true),
    (Team::PAN, Team::ULK, 2, 1, 1, 2, -2, true),
    (Team::PAN, Team::ZAL, 2, 2, 0, 11, -11, true),
    (Team::RED, Team::TEL, 2, 1, 1, 6, -6, true),
    (Team::RED, Team::ULK, 2, 2, 0, 11, -11, true),
    (Team::RED, Team::ZAL, 2, 1, 1, -23, 23, true),
    (Team::TEL, Team::ULK, 2, 1, 1, -4, 4, true),
    (Team::TEL, Team::ZAL, 2, 2, 0, 21, -21, true),
    (Team::ULK, Team::ZAL, 2, 0, 2, -13, 13, true),
];

/// The games still to be played: home club, away club, game code, whether the
/// game completes a head-to-head series, and if so the winner and the loser
/// of the first game and its margin (the last three are unused otherwise).
pub const GAME_ROWS: [(Team, Team, u32, bool, Team, Team, i32); 10] = [
    (Team::ASV, Team::ULK, 371, false, Team::ASV, Team::ULK, 0),
    (Team::TEL, Team::VIR, 372, false, Team::TEL, Team::VIR, 0),
    (Team::MAD, Team::RED, 374, true, Team::RED, Team::MAD, 15),
    (Team::OLY, Team::MIL, 375, true, Team::MIL, Team::OLY, 1),
    (Team::PAN, Team::IST, 376, false, Team::PAN, Team::IST, 0),
    (Team::MCO, Team::HTA, 377, true, Team::HTA, Team::MCO, 8),
    (Team::DUB, Team::PAM, 378, true, Team::PAM, Team::DUB, 2),
    (Team::BAR, Team::MUN, 379, false, Team::BAR, Team::MUN, 0),
    (Team::ZAL, Team::PRS, 380, false, Team::ZAL, Team::PRS, 0),
    (Team::TEL, Team::HTA, 293, true, Team::TEL, Team::HTA, 13),
];
/// The table line that a row of `STANDINGS_ROWS` describes.
pub open spec fn stats_row(r: (Team, u32, u32, u32, i32, i32, i32)) -> TeamStats {
    TeamStats { team: r.0, gp: r.1, wins: r.2, losses: r.3, pf_reg: r.4, pa_reg: r.5, diff_reg: r.6 }
}

/// The series that a row of `H2H_ROWS` describes, its two sides put in the
/// order of clubs.
pub open spec fn h2h_row_record(r: (Team, Team, u32, u32, u32, i32, i32, bool)) -> H2HRecord {
    let k = key_of(r.0, r.1);
    if k.0 == r.0 {
        H2HRecord {
            team_a: k.0, team_b: k.1, games_played: r.2,
            wins_a: r.3, wins_b: r.4, diff_a: r.5, diff_b: r.6, met_twice: r.7,
        }
    } else {
        H2HRecord {
            team_a: k.0, team_b: k.1, games_played: r.2,
            wins_a: r.4, wins_b: r.3, diff_a: r.6, diff_b: r.5, met_twice: r.7,
        }
    }
}

/// The series map that the rows give, a later row of the same pair replacing
/// an earlier one.
pub open spec fn h2h_table(rows: Seq<(Team, Team, u32, u32, u32, i32, i32, bool)>) -> Map<u32, H2HRecord>
    decreases rows.len(),
{
    if rows.len() == 0 {
        Map::empty()
    } else {
        let r = rows.last();
        h2h_table(rows.drop_last()).insert(pair_code(r.0, r.1), h2h_row_record(r))
    }
}

/// The game that a row of `GAME_ROWS` describes.
pub open spec fn game_row(r: (Team, Team, u32, bool, Team, Team, i32)) -> RemainingGame {
    RemainingGame {
        home: r.0,
        away: r.1,
        gamecode: r.2,
        h2h_info: if r.3 {
            Some(H2HIncompleteInfo { first_winner: r.4, first_loser: r.5, margin: r.6 })
        } else {
            None
        },
    }
}

/// The current table, one line per club in the order of clubs.
pub fn base_standings() -> (v: Vec<TeamStats>)
    ensures
        v@ == Seq::new(20, |i: int| stats_row(STANDINGS_ROWS@[i])),
{
    let mut v: Vec<TeamStats> = Vec::new();
    for i in 0..20usize
        invariant
            v@ == Seq::new(i as nat, |j: int| stats_row(STANDINGS_ROWS@[j])),
    {
        let r = STANDINGS_ROWS[i];
        v.push(TeamStats {
            team: r.0, gp: r.1, wins: r.2, losses: r.3, pf_reg: r.4, pa_reg: r.5, diff_reg: r.6,
        });
    }
    v
}

/// The current head-to-head series, stored by `pair_code`.
pub fn base_h2h() -> (m: HashMap<u32, H2HRecord>)
    ensures
        m@ == h2h_table(H2H_ROWS@),
        m@.dom().len() == 78,
{
    proof {
        law_current_series_count();
    }
    let mut m: HashMap<u32, H2HRecord> = HashMap::new();
    for i in 0..78usize
        invariant
            m@ == h2h_table(H2H_ROWS@.take(i as int)),
    {
        let r = H2H_ROWS[i];
        let key = h2h_key(r.0, r.1);
        let rec = if key.0 == r.0 {
            H2HRecord {
                team_a: key.0, team_b: key.1, games_played: r.2,
                wins_a: r.3, wins_b: r.4, diff_a: r.5, diff_b: r.6, met_twice: r.7,
            }
        } else {
            H2HRecord {
                team_a: key.0, team_b: key.1, games_played: r.2,
                wins_a: r.4, wins_b: r.3, diff_a: r.6, diff_b: r.5, met_twice: r.7,
            }
        };
        m.insert(h2h_code(r.0, r.1), rec);
        assert(H2H_ROWS@.take(i + 1).drop_last() == H2H_ROWS@.take(i as int));
    }
    assert(H2H_ROWS@.take(78) == H2H_ROWS@);
    m
}

/// The games still to be played.
pub fn remaining_games() -> (v: Vec<RemainingGame>)
    ensures
        v@ == Seq::new(10, |i: int| game_row(GAME_ROWS@[i])),
{
    let mut v: Vec<RemainingGame> = Vec::new();
    for i in 0..10usize
        invariant
            v@ == Seq::new(i as nat, |j: int| game_row(GAME_ROWS@[j])),
    {
        let r = GAME_ROWS[i];
        v.push(RemainingGame {
            home: r.0,
            away: r.1,
            gamecode: r.2,
            h2h_info: if r.3 {
                Some(H2HIncompleteInfo { first_winner: r.4, first_loser: r.5, margin: r.6 })
            } else {
                None
            },
        });
    }
    v
}


/// Whether a row of the series data is consistent: the wins add up to the
/// games played, the differences cancel, and the pair met twice exactly
/// when it played two games or more.
pub open spec fn row_balanced(r: (Team, Team, u32, u32, u32, i32, i32, bool)) -> bool {
    &&& r.3 + r.4 == r.2
    &&& r.5 + r.6 == 0
    &&& r.7 == (r.2 >= 2)
    &&& r.0 != r.1
}

proof fn lemma_rows_balanced()
    ensures
        forall|i: int| 0 <= i < 78 ==> #[trigger] row_balanced(H2H_ROWS@[i]),
{
    assert forall|i: int| 0 <= i < 78 implies #[trigger] row_balanced(H2H_ROWS@[i]) by {
        assert(0 <= i < 78);
    }
}

proof fn lemma_table_balanced(rows: Seq<(Team, Team, u32, u32, u32, i32, i32, bool)>)
    requires
        forall|i: int| 0 <= i < rows.len() ==> #[trigger] row_balanced(rows[i]),
    ensures
        series_balanced(h2h_table(rows)),
        no_self_series(h2h_table(rows)),
    decreases rows.len(),
{
    if rows.len() > 0 {
        let init = rows.drop_last();
        assert forall|i: int| 0 <= i < init.len() implies #[trigger] row_balanced(init[i]) by {
            assert(init[i] == rows[i]);
        }
        lemma_table_balanced(init);
        let r = rows[rows.len() - 1];
        assert(row_balanced(r));
        assert forall|t: Team| !(#[trigger] h2h_table(rows).contains_key(pair_code(t, t))) by {
            lemma_pair_code(r.0, r.1, t, t);
            crate::team::lemma_ord_index(r.0, r.1);
            assert(!h2h_table(init).contains_key(pair_code(t, t)));
        }
    }
}

/// The current series are consistent and pair no club with itself.
pub proof fn law_current_series_balanced()
    ensures
        series_balanced(h2h_table(H2H_ROWS@)),
        no_self_series(h2h_table(H2H_ROWS@)),
{
    lemma_rows_balanced();
    lemma_table_balanced(H2H_ROWS@);
}

/// In every state reached from the current series by playing games between
/// two different clubs, what any two clubs read of their series agrees:
/// their wins add up to the games they played against each other (0 if
/// none), their point differences cancel, both see the same answer to
/// whether they met twice, and they met twice exactly when their wins add
/// up to two or more.
pub proof fn law_reachable_series_agree(played: Seq<(RemainingGame, GameOutcome)>, a: Team, b: Team)
    requires
        games_fit(h2h_table(H2H_ROWS@), played),
    ensures
        ({
            let s = after_games(h2h_table(H2H_ROWS@), played);
            &&& wins_of(s, a, b) + wins_of(s, b, a)
                == if s.contains_key(pair_code(a, b)) { s[pair_code(a, b)].games_played as int } else { 0 }
            &&& diff_of(s, a, b) == -diff_of(s, b, a)
            &&& complete_of(s, a, b) == complete_of(s, b, a)
            &&& complete_of(s, a, b) == (wins_of(s, a, b) + wins_of(s, b, a) >= 2)
        }),
{
    law_current_series_balanced();
    law_played_series_consistent(h2h_table(H2H_ROWS@), played);
    law_reads_agree(after_games(h2h_table(H2H_ROWS@), played), a, b);
}


/// Whether the series of the game's two clubs is stored and not yet
/// complete.
pub open spec fn series_left_open(m: Map<u32, H2HRecord>, g: RemainingGame) -> bool {
    m.contains_key(pair_code(g.home, g.away)) && !m[pair_code(g.home, g.away)].met_twice
}

/// Whether what a remaining game says of its series agrees with the series
/// data: it completes a series exactly when the two clubs' series is open,
/// and then the series holds its first game (one win to none for the first
/// winner, by the first margin).
pub open spec fn game_agrees(m: Map<u32, H2HRecord>, g: RemainingGame) -> bool {
    &&& (g.h2h_info is Some <==> series_left_open(m, g))
    &&& g.h2h_info matches Some(info) ==> {
        &&& wins_of(m, info.first_winner, info.first_loser) == 1
        &&& wins_of(m, info.first_loser, info.first_winner) == 0
        &&& diff_of(m, info.first_winner, info.first_loser) == info.margin
    }
}

proof fn lemma_table_has(rows: Seq<(Team, Team, u32, u32, u32, i32, i32, bool)>, i: int)
    requires
        0 <= i < rows.len(),
        forall|j: int| i < j < rows.len() ==> pair_code((#[trigger] rows[j]).0, rows[j].1) != pair_code(rows[i].0, rows[i].1),
    ensures
        h2h_table(rows).contains_key(pair_code(rows[i].0, rows[i].1)),
        h2h_table(rows)[pair_code(rows[i].0, rows[i].1)] == h2h_row_record(rows[i]),
    decreases rows.len(),
{
    if i < rows.len() - 1 {
        let init = rows.drop_last();
        assert forall|j: int| i < j < init.len() implies pair_code((#[trigger] init[j]).0, init[j].1) != pair_code(init[i].0, init[i].1) by {
            assert(init[j] == rows[j]);
        }
        lemma_table_has(init, i);
        assert(rows[rows.len() - 1] == rows.last());
    }
}

proof fn lemma_table_lacks(rows: Seq<(Team, Team, u32, u32, u32, i32, i32, bool)>, c: u32)
    requires
        forall|j: int| 0 <= j < rows.len() ==> pair_code((#[trigger] rows[j]).0, rows[j].1) != c,
    ensures
        !h2h_table(rows).contains_key(c),
    decreases rows.len(),
{
    if rows.len() > 0 {
        let init = rows.drop_last();
        assert forall|j: int| 0 <= j < init.len() implies pair_code((#[trigger] init[j]).0, init[j].1) != c by {
            assert(init[j] == rows[j]);
        }
        lemma_table_lacks(init, c);
        assert(rows[rows.len() - 1] == rows.last());
    }
}

proof fn lemma_game_agrees(i: int, row: int)
    requires
        0 <= i < 10,
        -1 <= row < 78,
        row >= 0 ==> pair_code(H2H_ROWS@[row].0, H2H_ROWS@[row].1)
            == pair_code(game_row(GAME_ROWS@[i]).home, game_row(GAME_ROWS@[i]).away),
        row >= 0 ==> forall|j: int| row < j < 78 ==> pair_code((#[trigger] H2H_ROWS@[j]).0, H2H_ROWS@[j].1)
            != pair_code(H2H_ROWS@[row].0, H2H_ROWS@[row].1),
        row < 0 ==> forall|j: int| 0 <= j < 78 ==> pair_code((#[trigger] H2H_ROWS@[j]).0, H2H_ROWS@[j].1)
            != pair_code(game_row(GAME_ROWS@[i]).home, game_row(GAME_ROWS@[i]).away),
        row >= 0 ==> game_agrees(map![pair_code(H2H_ROWS@[row].0, H2H_ROWS@[row].1) => h2h_row_record(H2H_ROWS@[row])],
            game_row(GAME_ROWS@[i])),
        row < 0 ==> game_row(GAME_ROWS@[i]).h2h_info is None,
    ensures
        game_agrees(h2h_table(H2H_ROWS@), game_row(GAME_ROWS@[i])),
{
    let g = game_row(GAME_ROWS@[i]);
    let m = h2h_table(H2H_ROWS@);
    let c = pair_code(g.home, g.away);
    if row >= 0 {
        lemma_table_has(H2H_ROWS@, row);
        let single = map![c => h2h_row_record(H2H_ROWS@[row])];
        if let Some(info) = g.h2h_info {
            lemma_pair_code(info.first_winner, info.first_loser, g.home, g.away);
            lemma_pair_code(info.first_loser, info.first_winner, g.home, g.away);
            assert(single.contains_key(c));
        }
    } else {
        lemma_table_lacks(H2H_ROWS@, c);
    }
}

/// Every remaining game agrees with the current series data.
pub proof fn law_games_agree_with_series()
    ensures
        forall|i: int| 0 <= i < 10 ==> #[trigger] game_agrees(h2h_table(H2H_ROWS@), game_row(GAME_ROWS@[i])),
{
    lemma_game_agrees(0, -1);
    lemma_game_agrees(1, -1);
    lemma_game_agrees(2, 38);
    lemma_game_agrees(3, 50);
    lemma_game_agrees(4, -1);
    lemma_game_agrees(5, 24);
    lemma_game_agrees(6, 17);
    lemma_game_agrees(7, -1);
    lemma_game_agrees(8, -1);
    lemma_game_agrees(9, 30);
}


/// The number of the games that the club plays.
pub open spec fn games_of(games: Seq<RemainingGame>, t: Team) -> int
    decreases games.len(),
{
    if games.len() == 0 {
        0
    } else {
        games_of(games.drop_last(), t) + if games.last().home == t || games.last().away == t { 1int } else { 0 }
    }
}

/// Every club of the group the followed club is compared with ends the
/// season on 38 games: the games it has played and those left to it.
pub proof fn law_season_ends_level()
    ensures
        forall|i: int| 0 <= i < 13 ==> {
            &&& (#[trigger] stats_row(STANDINGS_ROWS@[i])).team == crate::team::RELEVANT_TEAMS@[i]
            &&& stats_row(STANDINGS_ROWS@[i]).gp
                + games_of(Seq::new(10, |k: int| game_row(GAME_ROWS@[k])), stats_row(STANDINGS_ROWS@[i]).team) == 38
        },
{
    let games = Seq::new(10, |k: int| game_row(GAME_ROWS@[k]));
    reveal_with_fuel(games_of, 11);
    assert forall|i: int| 0 <= i < 13 implies {
        &&& (#[trigger] stats_row(STANDINGS_ROWS@[i])).team == crate::team::RELEVANT_TEAMS@[i]
        &&& stats_row(STANDINGS_ROWS@[i]).gp + games_of(games, stats_row(STANDINGS_ROWS@[i]).team) == 38
    } by {
        assert(games.drop_last().drop_last().drop_last().drop_last().drop_last().drop_last()
            .drop_last().drop_last().drop_last().drop_last() =~= Seq::<RemainingGame>::empty());
    }
}


proof fn lemma_table_size(rows: Seq<(Team, Team, u32, u32, u32, i32, i32, bool)>)
    requires
        forall|i: int, j: int| 0 <= i < j < rows.len()
            ==> pair_code((#[trigger] rows[i]).0, rows[i].1) != pair_code((#[trigger] rows[j]).0, rows[j].1),
    ensures
        h2h_table(rows).dom().finite(),
        h2h_table(rows).dom().len() == rows.len(),
    decreases rows.len(),
{
    if rows.len() > 0 {
        let init = rows.drop_last();
        assert forall|i: int, j: int| 0 <= i < j < init.len()
            implies pair_code((#[trigger] init[i]).0, init[i].1) != pair_code((#[trigger] init[j]).0, init[j].1) by {
            assert(init[i] == rows[i] && init[j] == rows[j]);
        }
        lemma_table_size(init);
        let r = rows[rows.len() - 1];
        assert forall|j: int| 0 <= j < init.len() implies pair_code((#[trigger] init[j]).0, init[j].1) != pair_code(r.0, r.1) by {
            assert(init[j] == rows[j]);
        }
        lemma_table_lacks(init, pair_code(r.0, r.1));
    }
}

/// The current series data holds 78 different pairs of clubs.
#[verifier::rlimit(100)]
pub proof fn law_current_series_count()
    ensures
        h2h_table(H2H_ROWS@).dom().len() == 78,
{
    lemma_table_size(H2H_ROWS@);
}

} // verus!
