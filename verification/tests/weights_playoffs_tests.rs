use euroleague_scenarios::data::remaining_games;
use euroleague_scenarios::playoffs::{opponent_position, playoff_round_name};
use euroleague_scenarios::team::Team;
use euroleague_scenarios::types::{H2HIncompleteInfo, RemainingGame};
use euroleague_scenarios::weights::{margin_split_parts, outcome_weight_parts, CUM, MARGIN_GAMES};

#[test]
fn margin_splits() {
    // Margin 1: no game is won by less; the 22 won by exactly 1 count half.
    assert_eq!(margin_split_parts(1), (22, 662));
    assert_eq!(margin_split_parts(2), (61, 623));
    assert_eq!(margin_split_parts(8), (314, 370));
    assert_eq!(margin_split_parts(15), (537, 147));
    // Margins below 1 count as 1.
    assert_eq!(margin_split_parts(0), (22, 662));
    assert_eq!(margin_split_parts(-7), (22, 662));
    // Margin 41: every game but the one won by 41 was won by less.
    assert_eq!(margin_split_parts(41), (683, 1));
    // Beyond the table every game was won by less.
    assert_eq!(margin_split_parts(42), (684, 0));
    assert_eq!(margin_split_parts(i32::MAX), (684, 0));
}

#[test]
fn margin_split_as_fractions() {
    // The parts are the probabilities in units of 1/684.
    let (s, b) = margin_split_parts(13);
    let p_small = (CUM[12] as f64 + (CUM[13] - CUM[12]) as f64 * 0.5) / MARGIN_GAMES as f64;
    assert!((s as f64 / 684.0 - p_small).abs() < 1e-12);
    assert!((b as f64 / 684.0 - (1.0 - p_small)).abs() < 1e-12);
}

#[test]
fn weights_of_options() {
    let g = remaining_games();
    assert_eq!(outcome_weight_parts(&g[0]), vec![684, 684]);
    assert_eq!(outcome_weight_parts(&g[2]), vec![684, 537, 147]);
    assert_eq!(outcome_weight_parts(&g[3]), vec![684, 684]);
    assert_eq!(outcome_weight_parts(&g[9]), vec![684, 487, 197]);
    for game in g.iter() {
        let w = outcome_weight_parts(game);
        assert_eq!(w.iter().sum::<u32>(), 1368);
    }
    let odd = RemainingGame {
        home: Team::OLY,
        away: Team::RED,
        gamecode: 9,
        h2h_info: Some(H2HIncompleteInfo { first_winner: Team::RED, first_loser: Team::OLY, margin: 60 }),
    };
    assert_eq!(outcome_weight_parts(&odd), vec![684, 684, 0]);
}

#[test]
fn pairings() {
    assert_eq!(opponent_position(3), Some(6));
    assert_eq!(opponent_position(4), Some(5));
    assert_eq!(opponent_position(5), Some(4));
    assert_eq!(opponent_position(6), Some(3));
    assert_eq!(opponent_position(7), Some(8));
    assert_eq!(opponent_position(8), Some(7));
    assert_eq!(opponent_position(9), Some(10));
    assert_eq!(opponent_position(10), Some(9));
    assert_eq!(opponent_position(1), None);
    assert_eq!(opponent_position(2), None);
    assert_eq!(opponent_position(0), None);
    assert_eq!(opponent_position(11), None);
    for p in 0..30u32 {
        if let Some(q) = opponent_position(p) {
            assert_eq!(opponent_position(q), Some(p));
            assert_eq!(playoff_round_name(q), playoff_round_name(p));
        }
    }
}

#[test]
fn rounds_of_places() {
    assert_eq!(playoff_round_name(1), "Cetvrtfinale (ceka PI pobednika)");
    assert_eq!(playoff_round_name(2), "Cetvrtfinale (ceka PI pobednika)");
    assert_eq!(playoff_round_name(3), "Cetvrtfinale");
    assert_eq!(playoff_round_name(6), "Cetvrtfinale");
    assert_eq!(playoff_round_name(7), "Plej-in");
    assert_eq!(playoff_round_name(10), "Plej-in");
    assert_eq!(playoff_round_name(11), "ELIMINISAN");
    assert_eq!(playoff_round_name(0), "ELIMINISAN");
}
