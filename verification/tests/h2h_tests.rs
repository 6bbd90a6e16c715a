use euroleague_scenarios::data::{base_h2h, remaining_games};
use euroleague_scenarios::h2h::{h2h_code, H2HState};
use euroleague_scenarios::team::Team;
use euroleague_scenarios::types::{GameOutcome, H2HIncompleteInfo, RemainingGame};
use std::collections::HashMap;

#[test]
fn reading_a_series_from_both_sides() {
    let s = H2HState::new(&base_h2h());
    assert_eq!(s.get_wins(Team::RED, Team::MAD), 1);
    assert_eq!(s.get_wins(Team::MAD, Team::RED), 0);
    assert_eq!(s.get_diff(Team::RED, Team::MAD), 15);
    assert_eq!(s.get_diff(Team::MAD, Team::RED), -15);
    assert!(!s.is_complete(Team::RED, Team::MAD));
    assert!(s.is_complete(Team::BAR, Team::DUB));
    assert!(s.is_complete(Team::DUB, Team::BAR));
    assert_eq!(s.get_wins(Team::BAR, Team::PAM), 2);
    assert_eq!(s.get_diff(Team::PAM, Team::BAR), -10);
}

#[test]
fn clubs_that_never_met() {
    let s = H2HState::new(&HashMap::new());
    assert_eq!(s.get_wins(Team::OLY, Team::ASV), 0);
    assert_eq!(s.get_diff(Team::OLY, Team::ASV), 0);
    assert!(!s.is_complete(Team::OLY, Team::ASV));
}

#[test]
fn first_winner_wins_again() {
    let games = remaining_games();
    let mut s = H2HState::new(&base_h2h());
    s.apply_game(&games[2], GameOutcome::HomeWin);
    let r = s.records.get(&h2h_code(Team::MAD, Team::RED)).unwrap();
    assert_eq!((r.team_a, r.team_b), (Team::MAD, Team::RED));
    assert_eq!((r.games_played, r.wins_a, r.wins_b, r.diff_a, r.diff_b, r.met_twice), (2, 0, 2, -23, 23, true));
    // An away win of a series game also stands for the first winner.
    let mut s2 = H2HState::new(&base_h2h());
    s2.apply_game(&games[2], GameOutcome::AwayWin);
    assert_eq!(s2.get_wins(Team::RED, Team::MAD), 2);
    assert_eq!(s2.get_diff(Team::RED, Team::MAD), 23);
}

#[test]
fn first_loser_wins_by_less() {
    let games = remaining_games();
    let mut s = H2HState::new(&base_h2h());
    s.apply_game(&games[2], GameOutcome::H2HLoserWinsSmall);
    assert_eq!(s.get_wins(Team::MAD, Team::RED), 1);
    assert_eq!(s.get_wins(Team::RED, Team::MAD), 1);
    assert_eq!(s.get_diff(Team::MAD, Team::RED), -1);
    assert_eq!(s.get_diff(Team::RED, Team::MAD), 1);
    assert!(s.is_complete(Team::MAD, Team::RED));
}

#[test]
fn first_loser_wins_by_more() {
    let games = remaining_games();
    let mut s = H2HState::new(&base_h2h());
    s.apply_game(&games[2], GameOutcome::H2HLoserWinsBig);
    assert_eq!(s.get_diff(Team::MAD, Team::RED), 1);
    assert_eq!(s.get_diff(Team::RED, Team::MAD), -1);
    assert_eq!(s.get_wins(Team::MAD, Team::RED), 1);
}

#[test]
fn margin_of_one_leaves_points_level() {
    let games = remaining_games();
    let mut s = H2HState::new(&base_h2h());
    s.apply_game(&games[3], GameOutcome::H2HLoserWinsSmall);
    assert_eq!(s.get_wins(Team::OLY, Team::MIL), 1);
    assert_eq!(s.get_wins(Team::MIL, Team::OLY), 1);
    assert_eq!(s.get_diff(Team::OLY, Team::MIL), 0);
    assert_eq!(s.get_diff(Team::MIL, Team::OLY), 0);
    let mut s2 = H2HState::new(&base_h2h());
    s2.apply_game(&games[3], GameOutcome::H2HLoserWinsBig);
    assert_eq!(s2.get_diff(Team::OLY, Team::MIL), 1);
}

#[test]
fn plain_game_opens_a_series() {
    let games = remaining_games();
    let mut s = H2HState::new(&base_h2h());
    assert!(s.records.get(&h2h_code(Team::ASV, Team::ULK)).is_none());
    s.apply_game(&games[0], GameOutcome::HomeWin);
    let r = s.records.get(&h2h_code(Team::ASV, Team::ULK)).unwrap();
    assert_eq!((r.team_a, r.team_b), (Team::ULK, Team::ASV));
    assert_eq!((r.games_played, r.wins_a, r.wins_b, r.diff_a, r.diff_b, r.met_twice), (1, 0, 1, -8, 8, false));
    s.apply_game(&games[0], GameOutcome::AwayWin);
    let r = s.records.get(&h2h_code(Team::ASV, Team::ULK)).unwrap();
    assert_eq!((r.games_played, r.wins_a, r.wins_b, r.diff_a, r.diff_b, r.met_twice), (2, 1, 1, 0, 0, true));
    assert_eq!(s.records.len(), 79);
}

#[test]
fn series_game_without_a_record() {
    let game = RemainingGame {
        home: Team::PAN,
        away: Team::OLY,
        gamecode: 1,
        h2h_info: Some(H2HIncompleteInfo { first_winner: Team::PAN, first_loser: Team::OLY, margin: 5 }),
    };
    let mut s = H2HState::new(&HashMap::new());
    s.apply_game(&game, GameOutcome::H2HLoserWinsSmall);
    assert_eq!(s.get_wins(Team::OLY, Team::PAN), 1);
    assert_eq!(s.get_diff(Team::OLY, Team::PAN), 4);
    assert_eq!(s.get_diff(Team::PAN, Team::OLY), -4);
    assert!(!s.is_complete(Team::OLY, Team::PAN));
}

#[test]
fn series_stay_consistent_as_games_are_played() {
    let games = remaining_games();
    let mut s = H2HState::new(&base_h2h());
    let outcomes = [
        GameOutcome::HomeWin, GameOutcome::AwayWin, GameOutcome::H2HLoserWinsSmall, GameOutcome::H2HLoserWinsBig,
        GameOutcome::HomeWin, GameOutcome::H2HLoserWinsSmall, GameOutcome::H2HLoserWinsBig, GameOutcome::AwayWin,
        GameOutcome::HomeWin, GameOutcome::H2HLoserWinsSmall,
    ];
    for (g, o) in games.iter().zip(outcomes.iter()) {
        s.apply_game(g, *o);
        assert_eq!(s.get_diff(g.home, g.away), -s.get_diff(g.away, g.home));
        let rec = s.records.get(&h2h_code(g.home, g.away)).unwrap();
        assert_eq!(s.get_wins(g.home, g.away) + s.get_wins(g.away, g.home), rec.games_played);
        assert_eq!(s.is_complete(g.home, g.away), s.is_complete(g.away, g.home));
        assert_eq!(rec.met_twice, rec.games_played >= 2);
    }
}
