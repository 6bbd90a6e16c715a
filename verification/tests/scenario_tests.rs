use euroleague_scenarios::data::{base_h2h, base_standings, remaining_games};
use euroleague_scenarios::planning::{build_game_options, combo_count, decode_choices, settled_position};
use euroleague_scenarios::scenario::{run_scenario, ScenarioResult};
use euroleague_scenarios::team::Team;
use euroleague_scenarios::team::Team::{
    ASV, BAR, BAS, DUB, HTA, IST, MAD, MCO, MIL, MUN, OLY, PAM, PAN, PAR, PRS, RED, TEL, ULK, VIR, ZAL,
};
use euroleague_scenarios::h2h::{h2h_code, h2h_key};
use euroleague_scenarios::team::ALL_TEAMS;
use euroleague_scenarios::types::{GameOutcome, H2HRecord, TeamStats};
use std::collections::{BTreeMap, HashMap};

fn play(choices: &[usize]) -> ScenarioResult {
    let games = remaining_games();
    let outcomes: Vec<(usize, GameOutcome)> = choices
        .iter()
        .enumerate()
        .map(|(i, &c)| (i, build_game_options(&games[i])[c]))
        .collect();
    run_scenario(&outcomes, &games, &base_standings(), &base_h2h())
}

#[test]
fn table_before_any_result() {
    let r = run_scenario(&[], &remaining_games(), &base_standings(), &base_h2h());
    assert_eq!(
        r.standings,
        vec![OLY, PAM, MAD, ULK, ZAL, HTA, RED, PAN, MCO, BAR, DUB, TEL, MIL, MUN, PRS, PAR, BAS, VIR, IST, ASV]
    );
    assert_eq!((r.red_position, r.red_min, r.red_max), (7, 7, 7));
    assert!(!r.has_unresolved_red);
    assert!(r.unresolved_info.is_empty());
    assert!(r.tied_with.is_empty());
}

#[test]
fn first_options_everywhere() {
    let r = play(&[0, 0, 0, 0, 0, 0, 0, 0, 0, 0]);
    assert_eq!(
        r.standings,
        vec![PAM, OLY, ZAL, MAD, HTA, ULK, RED, PAN, MCO, BAR, TEL, DUB, MIL, MUN, PRS, PAR, BAS, VIR, IST, ASV]
    );
    assert_eq!((r.red_position, r.red_min, r.red_max), (7, 7, 7));
    assert_eq!(settled_position(&r), Some(7));
}

#[test]
fn followed_club_loses_its_series() {
    let r = play(&[1, 1, 1, 0, 0, 0, 0, 0, 0, 0]);
    assert_eq!(
        r.standings,
        vec![PAM, OLY, MAD, ULK, ZAL, HTA, PAN, MCO, RED, BAR, TEL, DUB, MIL, MUN, PRS, PAR, VIR, BAS, IST, ASV]
    );
    assert_eq!(r.red_position, 9);
}

#[test]
fn last_options_everywhere() {
    let r = play(&[1, 1, 2, 1, 1, 2, 2, 1, 1, 2]);
    assert_eq!(
        r.standings,
        vec![OLY, MAD, PAM, ULK, HTA, ZAL, MCO, RED, PAN, DUB, BAR, MUN, TEL, MIL, PRS, PAR, VIR, IST, BAS, ASV]
    );
    assert_eq!((r.red_position, r.red_min, r.red_max), (8, 8, 8));
}

#[test]
fn mixed_results() {
    let r = play(&[1, 0, 2, 0, 0, 1, 2, 1, 0, 0]);
    assert_eq!(
        r.standings,
        vec![OLY, MAD, PAM, ULK, ZAL, PAN, MCO, HTA, RED, BAR, TEL, DUB, MIL, MUN, PRS, PAR, BAS, VIR, IST, ASV]
    );
    assert_eq!(r.red_position, 9);
    let r = play(&[0, 0, 1, 0, 0, 2, 0, 0, 0, 0]);
    assert_eq!(r.red_position, 10);
    assert_eq!(r.standings[9], RED);
}

#[test]
fn every_combination_of_results() {
    let games = remaining_games();
    let base = base_standings();
    let h2h = base_h2h();
    let options: Vec<Vec<GameOutcome>> = games.iter().map(|g| build_game_options(g)).collect();
    let radixes: Vec<usize> = options.iter().map(|o| o.len()).collect();
    assert_eq!(radixes, vec![2, 2, 3, 2, 2, 3, 3, 2, 2, 3]);
    let total = combo_count(&radixes);
    assert_eq!(total, 5184);
    let mut by_place: BTreeMap<(u32, u32, bool), u64> = BTreeMap::new();
    let mut leaders: BTreeMap<Team, u64> = BTreeMap::new();
    let mut checksum: u64 = 0;
    for c in 0..total {
        let choices = decode_choices(&radixes, c);
        let outcomes: Vec<(usize, GameOutcome)> = (0..games.len()).map(|i| (i, options[i][choices[i]])).collect();
        let r = run_scenario(&outcomes, &games, &base, &h2h);
        assert_eq!(r.standings.len(), 20);
        let mut seen = r.standings.clone();
        seen.sort();
        seen.dedup();
        assert_eq!(seen.len(), 20);
        *by_place.entry((r.red_min, r.red_max, r.has_unresolved_red)).or_insert(0) += 1;
        *leaders.entry(r.standings[0]).or_insert(0) += 1;
        for (p, t) in r.standings.iter().enumerate() {
            checksum += (p as u64 + 1) * t.index() as u64;
        }
    }
    let expected: Vec<((u32, u32, bool), u64)> = vec![
        ((6, 6, false), 576),
        ((7, 7, false), 1728),
        ((8, 8, false), 864),
        ((9, 9, false), 864),
        ((10, 10, false), 1152),
    ];
    assert_eq!(by_place.into_iter().collect::<Vec<_>>(), expected);
    assert_eq!(leaders.into_iter().collect::<Vec<_>>(), vec![(OLY, 4320), (PAM, 864)]);
    assert_eq!(checksum, 13689184);
}

#[test]
fn table_is_ordered_by_wins() {
    // Every club above another has at least as many wins.
    let games = remaining_games();
    let base = base_standings();
    let r = play(&[1, 0, 1, 1, 0, 2, 1, 0, 1, 1]);
    let mut wins: BTreeMap<Team, u32> = base.iter().map(|s| (s.team, s.wins)).collect();
    let options: Vec<Vec<GameOutcome>> = games.iter().map(|g| build_game_options(g)).collect();
    for (i, &c) in [1usize, 0, 1, 1, 0, 2, 1, 0, 1, 1].iter().enumerate() {
        let g = &games[i];
        let w = match options[i][c] {
            GameOutcome::HomeWin => g.home,
            GameOutcome::AwayWin => g.away,
            _ => g.h2h_info.unwrap().first_loser,
        };
        *wins.get_mut(&w).unwrap() += 1;
    }
    for k in 1..r.standings.len() {
        assert!(wins[&r.standings[k - 1]] >= wins[&r.standings[k]]);
    }
}

#[test]
fn order_of_results_does_not_matter() {
    let games = remaining_games();
    let base = base_standings();
    let h2h = base_h2h();
    let options: Vec<Vec<GameOutcome>> = games.iter().map(|g| build_game_options(g)).collect();
    let choices = [1usize, 0, 2, 1, 0, 1, 2, 1, 0, 2];
    let outcomes: Vec<(usize, GameOutcome)> = (0..games.len()).map(|i| (i, options[i][choices[i]])).collect();
    let mut reversed = outcomes.clone();
    reversed.reverse();
    let a = run_scenario(&outcomes, &games, &base, &h2h);
    let b = run_scenario(&reversed, &games, &base, &h2h);
    assert_eq!(a.standings, b.standings);
    assert_eq!((a.red_position, a.red_min, a.red_max, a.has_unresolved_red), (b.red_position, b.red_min, b.red_max, b.has_unresolved_red));
    assert_eq!(a.unresolved_info, b.unresolved_info);
    assert_eq!(a.tied_with, b.tied_with);
}

fn level_trio_table(red_pf: i32) -> (Vec<TeamStats>, HashMap<u32, H2HRecord>) {
    // MCO, RED and DUB end level on wins, split every series 1-1 with no
    // difference, and have the same point difference; MCO and DUB also score
    // the same number of points.
    let mut base = Vec::new();
    for (i, &t) in ALL_TEAMS.iter().enumerate() {
        let (wins, diff, pf) = match t {
            MCO | DUB => (30, 5, 10),
            RED => (30, 5, red_pf),
            _ => (40 - i as u32, 0, 0),
        };
        base.push(TeamStats { team: t, gp: 50, wins, losses: 50 - wins, pf_reg: pf, pa_reg: pf - diff, diff_reg: diff });
    }
    let mut h2h = HashMap::new();
    for (a, b) in [(MCO, RED), (MCO, DUB), (RED, DUB)] {
        let k = h2h_key(a, b);
        h2h.insert(h2h_code(a, b), H2HRecord {
            team_a: k.0, team_b: k.1, games_played: 2, wins_a: 1, wins_b: 1, diff_a: 0, diff_b: 0, met_twice: true,
        });
    }
    (base, h2h)
}

#[test]
fn open_tie_on_points_leaves_the_club_below_out_of_the_table() {
    let (base, h2h) = level_trio_table(5);
    let r = run_scenario(&[], &remaining_games(), &base, &h2h);
    assert_eq!(r.standings.len(), 19);
    assert!(!r.standings.contains(&RED));
    assert_eq!(&r.standings[8..10], &[MCO, DUB]);
    assert_eq!(r.standings[10], TEL);
    assert_eq!((r.red_position, r.red_min, r.red_max, r.has_unresolved_red), (0, 0, 0, false));
    assert!(r.tied_with.is_empty());
}

#[test]
fn open_tie_on_points_below_the_club_keeps_every_club() {
    let (base, h2h) = level_trio_table(20);
    let r = run_scenario(&[], &remaining_games(), &base, &h2h);
    assert_eq!(r.standings.len(), 20);
    assert_eq!(&r.standings[8..11], &[RED, MCO, DUB]);
    assert_eq!((r.red_position, r.red_min, r.red_max, r.has_unresolved_red), (9, 9, 9, false));
}
