use euroleague_scenarios::data::{base_h2h, base_standings, remaining_games};
use euroleague_scenarios::planning::{
    build_game_options, can_tie_teams, combo_count, combo_description, count_wins, decode_choices,
    describe_option, dominated_flags, find_line, followed_win_range, games_involving, home_won,
    locked_wins, opponent_team, options_for, outcome_winner, plan_red_combo, plan_simulation,
    red_bits, red_fixed_outcome, remaining_counts, scenario_outcomes, settled_position, split_critical,
    split_locked, summarize_games, tally_winners, team_from_index,
};
use euroleague_scenarios::scenario::{run_scenario, ScenarioResult};
use euroleague_scenarios::team::{Team, ALL_TEAMS};
use euroleague_scenarios::types::GameOutcome::{AwayWin, H2HLoserWinsBig, H2HLoserWinsSmall, HomeWin};
use std::collections::HashMap;

#[test]
fn options_of_each_kind_of_game() {
    let g = remaining_games();
    assert_eq!(build_game_options(&g[0]), vec![HomeWin, AwayWin]);
    // MAD-RED: RED (away) won the first game by 15.
    assert_eq!(build_game_options(&g[2]), vec![AwayWin, H2HLoserWinsSmall, H2HLoserWinsBig]);
    // OLY-MIL: first margin 1, so no smaller win exists.
    assert_eq!(build_game_options(&g[3]), vec![AwayWin, H2HLoserWinsBig]);
    // TEL-HTA: TEL (home) won the first game.
    assert_eq!(build_game_options(&g[9]), vec![HomeWin, H2HLoserWinsSmall, H2HLoserWinsBig]);
}

#[test]
fn labels_of_options() {
    let g = remaining_games();
    assert_eq!(describe_option(&g[0], 0), "ASVEL Villeurbanne W");
    assert_eq!(describe_option(&g[0], 1), "Fenerbahče W");
    assert_eq!(describe_option(&g[0], 2), "?");
    assert_eq!(describe_option(&g[2], 0), "Crvena zvezda W (H2H 2-0)");
    assert_eq!(describe_option(&g[2], 1), "Real Madrid W (Crvena zvezda vodi H2H diff)");
    assert_eq!(describe_option(&g[2], 2), "Real Madrid W (Real Madrid vodi H2H diff)");
    assert_eq!(describe_option(&g[2], 3), "?");
    assert_eq!(describe_option(&g[3], 0), "EA7 Milano W (H2H 2-0)");
    assert_eq!(describe_option(&g[3], 1), "Olympiacos W (H2H preokret)");
    assert_eq!(describe_option(&g[3], 2), "Olympiacos W (Olympiacos vodi H2H diff)");
}

#[test]
fn winners_of_outcomes() {
    let g = remaining_games();
    assert_eq!(outcome_winner(&g[2], HomeWin), Team::MAD);
    assert_eq!(outcome_winner(&g[2], AwayWin), Team::RED);
    assert_eq!(outcome_winner(&g[2], H2HLoserWinsSmall), Team::MAD);
    assert_eq!(outcome_winner(&g[2], H2HLoserWinsBig), Team::MAD);
    assert!(home_won(&g[2], H2HLoserWinsBig));
    assert!(!home_won(&g[2], AwayWin));
    assert!(!home_won(&g[9], H2HLoserWinsSmall));
    assert!(home_won(&g[0], HomeWin));
}

#[test]
fn games_of_a_club() {
    let g = remaining_games();
    assert_eq!(games_involving(&g, Team::RED, true), vec![2]);
    assert_eq!(games_involving(&g, Team::RED, false), vec![0, 1, 3, 4, 5, 6, 7, 8, 9]);
    assert_eq!(games_involving(&g, Team::TEL, true), vec![1, 9]);
    assert_eq!(games_involving(&g, Team::PAR, true), Vec::<usize>::new());
}

#[test]
fn games_left_to_each_club() {
    let g = remaining_games();
    let all: Vec<usize> = (0..g.len()).collect();
    let left = remaining_counts(&g, &all);
    assert_eq!(left.len(), 20);
    assert_eq!(left[Team::TEL.index() as usize], 2);
    assert_eq!(left[Team::HTA.index() as usize], 2);
    assert_eq!(left[Team::RED.index() as usize], 1);
    assert_eq!(left[Team::PAR.index() as usize], 0);
    assert_eq!(left.iter().sum::<u32>(), 20);
    let some = remaining_counts(&g, &vec![1, 9, 9]);
    assert_eq!(some[Team::TEL.index() as usize], 3);
    assert_eq!(some[Team::HTA.index() as usize], 2);
    assert_eq!(some[Team::VIR.index() as usize], 1);
}

#[test]
fn lines_of_the_table() {
    let base = base_standings();
    assert_eq!(find_line(&base, Team::RED).unwrap().wins, 21);
    assert!(find_line(&base[..5], Team::RED).is_none());
    assert_eq!(team_from_index(9), Team::RED);
    for (i, t) in ALL_TEAMS.iter().enumerate() {
        assert_eq!(team_from_index(i), *t);
    }
}

#[test]
fn clubs_that_can_end_level() {
    let base = base_standings();
    let g = remaining_games();
    let all: Vec<usize> = (0..g.len()).collect();
    let left = remaining_counts(&g, &all);
    let zeros = vec![0u32; 20];
    assert_eq!(can_tie_teams(&base, &zeros, &left, 20, 21), vec![Team::PAN, Team::BAR, Team::MCO, Team::DUB, Team::TEL]);
    assert_eq!(can_tie_teams(&base, &zeros, &left, 25, 25), vec![Team::OLY, Team::PAM]);
    let mut extra = vec![0u32; 20];
    extra[Team::MIL.index() as usize] = 3;
    assert_eq!(can_tie_teams(&base, &extra, &left, 20, 20), vec![Team::BAR, Team::DUB, Team::TEL, Team::MIL]);
}

#[test]
fn critical_and_other_games() {
    let g = remaining_games();
    let idx = vec![0, 1, 2, 3, 4, 5, 6, 7, 8, 9];
    let (crit, rest) = split_critical(&g, &idx, &vec![Team::DUB, Team::TEL], false);
    assert_eq!(crit, vec![1, 6, 9]);
    assert_eq!(rest, vec![0, 2, 3, 4, 5, 7, 8]);
    let (crit, rest) = split_critical(&g, &idx, &vec![Team::DUB, Team::TEL], true);
    assert_eq!(crit, vec![1, 2, 6, 9]);
    assert_eq!(rest, vec![0, 3, 4, 5, 7, 8]);
}

#[test]
fn numbering_of_combinations() {
    let radixes = vec![2usize, 3, 2];
    assert_eq!(combo_count(&radixes), 12);
    assert_eq!(combo_count(&vec![]), 1);
    assert_eq!(decode_choices(&radixes, 0), vec![0, 0, 0]);
    assert_eq!(decode_choices(&radixes, 9), vec![1, 1, 1]);
    assert_eq!(decode_choices(&radixes, 11), vec![1, 2, 1]);
    assert_eq!(decode_choices(&radixes, 12), vec![0, 0, 0]);
    assert_eq!(decode_choices(&vec![], 5), Vec::<usize>::new());
    let mut seen = std::collections::BTreeSet::new();
    for c in 0..12u64 {
        seen.insert(decode_choices(&radixes, c));
    }
    assert_eq!(seen.len(), 12);
}

#[test]
fn outcomes_of_a_combination() {
    let fixed = vec![(0usize, HomeWin), (3, HomeWin)];
    let crit = vec![2usize, 9];
    let opts = vec![vec![AwayWin, H2HLoserWinsSmall, H2HLoserWinsBig], vec![HomeWin, H2HLoserWinsSmall, H2HLoserWinsBig]];
    let v = scenario_outcomes(&fixed, &crit, &opts, &vec![2, 1]);
    assert_eq!(v, vec![(0, HomeWin), (3, HomeWin), (2, H2HLoserWinsBig), (9, H2HLoserWinsSmall)]);
}

#[test]
fn followed_club_results() {
    let g = remaining_games();
    assert_eq!(red_fixed_outcome(&g[2], true), AwayWin);
    assert_eq!(red_fixed_outcome(&g[2], false), HomeWin);
    assert_eq!(red_bits(5, 3), vec![true, false, true]);
    assert_eq!(red_bits(5, 0), Vec::<bool>::new());
    assert_eq!(count_wins(&vec![true, false, true]), 2);
    assert_eq!(combo_description(&g, &vec![2], &vec![true]), "WMAD");
    assert_eq!(combo_description(&g, &vec![2, 1], &vec![false, true]), "LMAD/WTEL");
    assert_eq!(combo_description(&g, &vec![], &vec![]), "");
}

fn result_with(standings: Vec<Team>, min: u32, max: u32, open: bool) -> ScenarioResult {
    ScenarioResult {
        standings,
        red_position: if min == max { min } else { 0 },
        red_min: min,
        red_max: max,
        has_unresolved_red: open,
        unresolved_info: vec![],
        tied_with: vec![],
    }
}

#[test]
fn settled_places_and_opponents() {
    let r = run_scenario(&[], &remaining_games(), &base_standings(), &base_h2h());
    assert_eq!(settled_position(&r), Some(7));
    assert_eq!(opponent_team(&r, 7), Some(Team::PAN));
    assert_eq!(opponent_team(&r, 3), Some(Team::HTA));
    assert_eq!(opponent_team(&r, 1), None);
    assert_eq!(opponent_team(&r, 11), None);
    let t = ALL_TEAMS.to_vec();
    assert_eq!(settled_position(&result_with(t.clone(), 11, 11, false)), None);
    assert_eq!(settled_position(&result_with(t.clone(), 6, 7, true)), None);
    assert_eq!(settled_position(&result_with(t.clone(), 6, 7, false)), None);
    assert_eq!(settled_position(&result_with(t, 10, 10, false)), Some(10));
}

#[test]
fn plan_for_a_loss_of_the_followed_club() {
    let p = plan_red_combo(&remaining_games(), &base_standings(), 19, 0);
    assert_eq!(p.red_games, vec![2]);
    assert_eq!(p.bits, vec![false]);
    assert_eq!(p.red_total_wins, 19);
    assert_eq!(p.description, "LMAD");
    assert_eq!(p.can_tie, vec![Team::DUB, Team::TEL]);
    assert_eq!(p.critical, vec![1, 6, 9]);
    assert_eq!(
        p.critical_options,
        vec![vec![HomeWin, AwayWin], vec![AwayWin, H2HLoserWinsSmall, H2HLoserWinsBig], vec![HomeWin, H2HLoserWinsSmall, H2HLoserWinsBig]]
    );
    assert_eq!(p.fixed, vec![(0, HomeWin), (3, HomeWin), (4, HomeWin), (5, HomeWin), (7, HomeWin), (8, HomeWin), (2, HomeWin)]);
    // Bits beyond the followed club's games are ignored.
    let q = plan_red_combo(&remaining_games(), &base_standings(), 19, 2);
    assert_eq!(q.bits, vec![false]);
    assert_eq!(q.fixed, p.fixed);
}

#[test]
fn plan_for_a_win_of_the_followed_club() {
    let p = plan_red_combo(&remaining_games(), &base_standings(), 19, 1);
    assert_eq!(p.bits, vec![true]);
    assert_eq!(p.red_total_wins, 20);
    assert_eq!(p.description, "WMAD");
    assert_eq!(p.can_tie, vec![Team::BAR, Team::DUB, Team::TEL]);
    assert_eq!(p.critical, vec![1, 6, 7, 9]);
    assert_eq!(p.fixed, vec![(0, HomeWin), (3, HomeWin), (4, HomeWin), (5, HomeWin), (8, HomeWin), (2, AwayWin)]);
}

#[test]
fn series_that_cannot_matter() {
    let g = remaining_games();
    let base = base_standings();
    assert_eq!(dominated_flags(&g, &base, true), vec![false, false, true, true, false, false, true, false, false, true]);
    assert_eq!(dominated_flags(&g, &base, false), vec![false; 10]);
    let opts = options_for(&g, &dominated_flags(&g, &base, true));
    assert_eq!(opts[2], vec![HomeWin, AwayWin]);
    assert_eq!(opts[5], vec![AwayWin, H2HLoserWinsSmall, H2HLoserWinsBig]);
}

#[test]
fn locked_and_free_games() {
    let g = remaining_games();
    let base = base_standings();
    let opts = options_for(&g, &dominated_flags(&g, &base, false));
    let mut locked = HashMap::new();
    locked.insert(2usize, 2usize);
    locked.insert(9, 7);
    locked.insert(42, 0);
    let (fixed, free) = split_locked(&opts, &locked);
    assert_eq!(fixed, vec![(2, H2HLoserWinsBig), (9, HomeWin)]);
    assert_eq!(free, vec![0, 1, 3, 4, 5, 6, 7, 8]);
    let w = locked_wins(&g, &fixed);
    assert_eq!(w[Team::MAD.index() as usize], 1);
    assert_eq!(w[Team::TEL.index() as usize], 1);
    assert_eq!(w[Team::RED.index() as usize], 0);
    assert_eq!(w.iter().sum::<u32>(), 2);
    let (lo, hi) = followed_win_range(&g, &vec![2], &opts, &locked, 20);
    assert_eq!((lo, hi), (20, 20));
    let (lo, hi) = followed_win_range(&g, &vec![2], &opts, &HashMap::new(), 20);
    assert_eq!((lo, hi), (20, 21));
}

#[test]
fn plan_with_nothing_locked() {
    let p = plan_simulation(&remaining_games(), &base_standings(), &HashMap::new(), 20, true);
    assert_eq!(p.simplified, vec![false, false, true, true, false, false, true, false, false, true]);
    assert_eq!((p.red_min_wins, p.red_max_wins), (20, 21));
    assert_eq!(p.can_tie, vec![Team::PAN, Team::BAR, Team::MCO, Team::DUB, Team::TEL]);
    assert_eq!(p.critical, vec![1, 2, 4, 5, 6, 7, 9]);
    assert_eq!(p.fixed, vec![(0, HomeWin), (3, HomeWin), (8, HomeWin)]);
    assert_eq!(p.critical_options[1], vec![HomeWin, AwayWin]);
    assert_eq!(p.critical_options[3], vec![AwayWin, H2HLoserWinsSmall, H2HLoserWinsBig]);
    assert_eq!(p.weights[3], vec![684, 314, 370]);
    assert_eq!(p.weights[0], vec![684, 684]);
    assert_eq!(p.all_options.len(), 10);
}

#[test]
fn plan_with_the_followed_club_locked() {
    let g = remaining_games();
    let base = base_standings();
    let mut locked = HashMap::new();
    locked.insert(2usize, 0usize);
    let p = plan_simulation(&g, &base, &locked, 20, true);
    assert_eq!((p.red_min_wins, p.red_max_wins), (20, 20));
    assert_eq!(p.can_tie, vec![Team::BAR, Team::DUB, Team::TEL]);
    assert_eq!(p.critical, vec![1, 6, 7, 9]);
    assert_eq!(p.fixed, vec![(2, HomeWin), (0, HomeWin), (3, HomeWin), (4, HomeWin), (5, HomeWin), (8, HomeWin)]);
    locked.insert(2, 1);
    let p = plan_simulation(&g, &base, &locked, 20, true);
    assert_eq!((p.red_min_wins, p.red_max_wins), (21, 21));
    assert_eq!(p.can_tie, vec![Team::PAN, Team::BAR, Team::MCO]);
    assert_eq!(p.critical, vec![4, 5, 7]);
    // A choice beyond the options: the first option is played, while the
    // followed club's range reads the last one.
    locked.insert(2, 7);
    let p = plan_simulation(&g, &base, &locked, 20, true);
    assert_eq!(p.fixed[0], (2, HomeWin));
    assert_eq!((p.red_min_wins, p.red_max_wins), (21, 21));
}

#[test]
fn plan_without_simplification() {
    let p = plan_simulation(&remaining_games(), &base_standings(), &HashMap::new(), 20, false);
    assert_eq!(p.simplified, vec![false; 10]);
    assert_eq!(p.critical, vec![1, 2, 4, 5, 6, 7, 9]);
    assert_eq!(p.critical_options[1], vec![AwayWin, H2HLoserWinsSmall, H2HLoserWinsBig]);
    // MAD-RED: first margin 15.
    assert_eq!(p.weights[1], vec![684, 537, 147]);
    // DUB-PAM: first margin 2.
    assert_eq!(p.weights[4], vec![684, 61, 623]);
}

#[test]
fn summaries_of_games() {
    let v = summarize_games(&remaining_games(), &base_standings(), 20, 22, true);
    assert_eq!(v.len(), 10);
    let rel: Vec<bool> = v.iter().map(|s| s.relevant).collect();
    assert_eq!(rel, vec![false, true, true, false, true, true, true, true, true, true]);
    assert_eq!(v[2].home, "Real Madrid");
    assert_eq!(v[2].away, "Crvena zvezda");
    assert_eq!(v[2].gamecode, 374);
    assert!(v[2].is_red_game);
    assert_eq!(v[2].options, vec!["Real Madrid W".to_string(), "Crvena zvezda W".to_string()]);
    assert_eq!(v[2].h2h_first_game, None);
    assert_eq!(v[5].index, 5);
    assert_eq!(
        v[5].options,
        vec![
            "Hapoel Tel Aviv W (H2H 2-0)".to_string(),
            "Monaco W (Hapoel Tel Aviv vodi H2H diff)".to_string(),
            "Monaco W (Monaco vodi H2H diff)".to_string(),
        ]
    );
    assert_eq!(v[5].h2h_first_game, Some("HTA W +8 vs MCO".to_string()));
    assert_eq!(v[0].options, vec!["ASVEL Villeurbanne W".to_string(), "Fenerbahče W".to_string()]);
    assert_eq!(v[0].h2h_first_game, None);
    let w = summarize_games(&remaining_games(), &base_standings(), 20, 22, false);
    assert_eq!(w[3].options, vec!["EA7 Milano W (H2H 2-0)".to_string(), "Olympiacos W (H2H preokret)".to_string()]);
    assert_eq!(w[3].h2h_first_game, Some("MIL W +1 vs OLY".to_string()));
    assert_eq!(w[9].h2h_first_game, Some("TEL W +13 vs HTA".to_string()));
}

fn covered(fixed: &[(usize, euroleague_scenarios::types::GameOutcome)], critical: &[usize]) -> Vec<usize> {
    let mut v: Vec<usize> = fixed.iter().map(|r| r.0).chain(critical.iter().copied()).collect();
    v.sort();
    v
}

#[test]
fn every_plan_sets_every_game_once() {
    let g = remaining_games();
    let base = base_standings();
    let all: Vec<usize> = (0..g.len()).collect();
    for combo in 0..4u32 {
        let p = plan_red_combo(&g, &base, 19, combo);
        assert_eq!(covered(&p.fixed, &p.critical), all);
    }
    let mut locked = HashMap::new();
    assert_eq!(covered(&plan_simulation(&g, &base, &locked, 20, true).fixed, &plan_simulation(&g, &base, &locked, 20, true).critical), all);
    locked.insert(2usize, 1usize);
    locked.insert(5, 2);
    let p = plan_simulation(&g, &base, &locked, 20, false);
    assert_eq!(covered(&p.fixed, &p.critical), all);
}

#[test]
fn weights_line_up_with_options() {
    for game in remaining_games().iter() {
        assert_eq!(
            euroleague_scenarios::weights::outcome_weight_parts(game).len(),
            build_game_options(game).len()
        );
    }
}

#[test]
fn tallies_of_winners() {
    let g = remaining_games();
    let mut home = vec![0u64; 10];
    let mut away = vec![5u64; 10];
    let results = vec![(0usize, HomeWin), (2, H2HLoserWinsSmall), (2, AwayWin), (9, H2HLoserWinsBig), (0, HomeWin)];
    tally_winners(&g, &results, &mut home, &mut away);
    assert_eq!(home, vec![2, 0, 1, 0, 0, 0, 0, 0, 0, 0]);
    assert_eq!(away, vec![5, 5, 6, 5, 5, 5, 5, 5, 5, 6]);
}
