use euroleague_scenarios::data::{base_h2h, base_standings, remaining_games};
use euroleague_scenarios::h2h::{h2h_code, h2h_key};
use euroleague_scenarios::team::{Team, ALL_TEAMS, RELEVANT_TEAMS};

#[test]
fn codes_and_names_of_clubs() {
    assert_eq!(Team::OLY.code(), "OLY");
    assert_eq!(Team::RED.code(), "RED");
    assert_eq!(Team::ASV.code(), "ASV");
    assert_eq!(Team::ULK.name(), "Fenerbahče");
    assert_eq!(Team::ZAL.name(), "Žalgiris");
    assert_eq!(Team::RED.name(), "Crvena zvezda");
    assert_eq!(Team::ASV.name(), "ASVEL Villeurbanne");
    for t in ALL_TEAMS.iter() {
        assert_eq!(t.code().len(), 3);
        assert!(!t.name().is_empty());
    }
}

#[test]
fn order_of_clubs() {
    assert_eq!(ALL_TEAMS.len(), 20);
    assert_eq!(RELEVANT_TEAMS.len(), 13);
    for (i, t) in ALL_TEAMS.iter().enumerate() {
        assert_eq!(t.index() as usize, i);
    }
    for (i, t) in RELEVANT_TEAMS.iter().enumerate() {
        assert_eq!(ALL_TEAMS[i], *t);
    }
    assert_eq!(Team::MIL.index(), 12);
    assert_eq!(Team::MUN.index(), 13);
    assert!(Team::OLY < Team::RED);
}

#[test]
fn current_table() {
    let base = base_standings();
    assert_eq!(base.len(), 20);
    for (i, s) in base.iter().enumerate() {
        assert_eq!(s.team, ALL_TEAMS[i]);
        assert_eq!(s.wins + s.losses, s.gp);
        assert_eq!(s.pf_reg - s.pa_reg, s.diff_reg);
    }
    let red = &base[9];
    assert_eq!(red.team, Team::RED);
    assert_eq!((red.gp, red.wins, red.losses), (37, 21, 16));
    assert_eq!((red.pf_reg, red.pa_reg, red.diff_reg), (3205, 3142, 63));
    let tel = &base[11];
    assert_eq!((tel.gp, tel.wins, tel.diff_reg), (36, 18, -85));
}

#[test]
fn pair_keys_are_ordered() {
    assert_eq!(h2h_key(Team::RED, Team::OLY), (Team::OLY, Team::RED));
    assert_eq!(h2h_key(Team::OLY, Team::RED), (Team::OLY, Team::RED));
    assert_eq!(h2h_code(Team::OLY, Team::RED), 9);
    assert_eq!(h2h_code(Team::RED, Team::OLY), 9);
    assert_eq!(h2h_code(Team::ASV, Team::IST), 18 * 20 + 19);
    assert_eq!(h2h_code(Team::MAD, Team::MAD), 2 * 20 + 2);
}

#[test]
fn current_series() {
    let m = base_h2h();
    assert_eq!(m.len(), 78);
    // BAR-DUB: stored with BAR first, as given.
    let r = m.get(&h2h_code(Team::BAR, Team::DUB)).unwrap();
    assert_eq!((r.team_a, r.team_b), (Team::BAR, Team::DUB));
    assert_eq!((r.games_played, r.wins_a, r.wins_b, r.diff_a, r.diff_b, r.met_twice), (2, 1, 1, -3, 3, true));
    // BAR-OLY is given with BAR first but stored with OLY first.
    let r = m.get(&h2h_code(Team::BAR, Team::OLY)).unwrap();
    assert_eq!((r.team_a, r.team_b), (Team::OLY, Team::BAR));
    assert_eq!((r.wins_a, r.wins_b, r.diff_a, r.diff_b), (1, 1, -1, 1));
    // RED and MAD have met once.
    let r = m.get(&h2h_code(Team::RED, Team::MAD)).unwrap();
    assert!(!r.met_twice);
    // No series with a club outside the followed group.
    assert!(m.get(&h2h_code(Team::MUN, Team::ASV)).is_none());
}

#[test]
fn games_still_to_play() {
    let g = remaining_games();
    assert_eq!(g.len(), 10);
    assert_eq!((g[0].home, g[0].away, g[0].gamecode), (Team::ASV, Team::ULK, 371));
    assert!(g[0].h2h_info.is_none());
    assert_eq!((g[2].home, g[2].away, g[2].gamecode), (Team::MAD, Team::RED, 374));
    let info = g[2].h2h_info.unwrap();
    assert_eq!((info.first_winner, info.first_loser, info.margin), (Team::RED, Team::MAD, 15));
    assert_eq!(g[3].h2h_info.unwrap().margin, 1);
    assert_eq!((g[9].home, g[9].away, g[9].gamecode), (Team::TEL, Team::HTA, 293));
    let red_games: Vec<usize> = (0..g.len()).filter(|&i| g[i].home == Team::RED || g[i].away == Team::RED).collect();
    assert_eq!(red_games, vec![2]);
}

#[test]
fn games_agree_with_series() {
    // A remaining game completes a series exactly when its clubs' series is
    // open, and the series holds the first game as the game describes it.
    let m = base_h2h();
    for g in remaining_games().iter() {
        let rec = m.get(&h2h_code(g.home, g.away));
        let open = rec.map_or(false, |r| !r.met_twice);
        assert_eq!(g.h2h_info.is_some(), open);
        if let Some(info) = g.h2h_info {
            let r = rec.unwrap();
            let (w, l, d) = if r.team_a == info.first_winner { (r.wins_a, r.wins_b, r.diff_a) } else { (r.wins_b, r.wins_a, r.diff_b) };
            assert_eq!((w, l, d), (1, 0, info.margin));
        }
    }
}

#[test]
fn followed_group_ends_the_season_level_on_games() {
    let base = base_standings();
    let games = remaining_games();
    for t in RELEVANT_TEAMS.iter() {
        let gp = base.iter().find(|s| s.team == *t).unwrap().gp;
        let left = games.iter().filter(|g| g.home == *t || g.away == *t).count() as u32;
        assert_eq!(gp + left, 38);
    }
}

#[test]
fn current_series_are_consistent() {
    for r in base_h2h().values() {
        assert_eq!(r.wins_a + r.wins_b, r.games_played);
        assert_eq!(r.diff_a + r.diff_b, 0);
        assert_eq!(r.met_twice, r.games_played >= 2);
    }
}
