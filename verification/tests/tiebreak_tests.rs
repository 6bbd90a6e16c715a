use euroleague_scenarios::h2h::{h2h_code, h2h_key, H2HState};
use euroleague_scenarios::team::Team;
use euroleague_scenarios::tiebreak::{resolve_tie_group, TieResult, TieSlot};
use euroleague_scenarios::types::{H2HRecord, TeamStats};
use std::collections::HashMap;

fn table(rows: &[(Team, i32, i32)]) -> HashMap<u32, TeamStats> {
    let mut m = HashMap::new();
    for &(t, diff, pf) in rows {
        m.insert(t.index(), TeamStats { team: t, gp: 38, wins: 20, losses: 18, pf_reg: pf, pa_reg: pf - diff, diff_reg: diff });
    }
    m
}

fn series(rows: &[(Team, Team, u32, u32, i32, i32, bool)]) -> H2HState {
    let mut m = HashMap::new();
    for &(a, b, wa, wb, da, db, met) in rows {
        let k = h2h_key(a, b);
        let gp = if met { 2 } else { 1 };
        let rec = if k.0 == a {
            H2HRecord { team_a: a, team_b: b, games_played: gp, wins_a: wa, wins_b: wb, diff_a: da, diff_b: db, met_twice: met }
        } else {
            H2HRecord { team_a: b, team_b: a, games_played: gp, wins_a: wb, wins_b: wa, diff_a: db, diff_b: da, met_twice: met }
        };
        m.insert(h2h_code(a, b), rec);
    }
    H2HState { records: m }
}

fn resolved(r: &TieResult) -> Vec<Team> {
    match r {
        TieResult::Resolved(ts) => ts.clone(),
        TieResult::Unresolved { .. } => panic!("expected a resolved tie"),
    }
}

fn slots(r: &TieResult) -> Vec<TieSlot> {
    match r {
        TieResult::Resolved(_) => panic!("expected an open tie"),
        TieResult::Unresolved { ordering } => ordering.clone(),
    }
}

fn tied(s: &TieSlot) -> (Vec<Team>, String) {
    match s {
        TieSlot::Tied(ts, note) => (ts.clone(), note.clone()),
        TieSlot::Resolved(_) => panic!("expected a tied slot"),
    }
}

fn single(s: &TieSlot) -> Team {
    match s {
        TieSlot::Resolved(t) => *t,
        TieSlot::Tied(..) => panic!("expected a decided slot"),
    }
}

#[test]
fn no_tie_for_one_club() {
    let st = table(&[(Team::OLY, 1, 1)]);
    let h = series(&[]);
    assert_eq!(resolved(&resolve_tie_group(&[Team::OLY], &st, &h)), vec![Team::OLY]);
    assert_eq!(resolved(&resolve_tie_group(&[], &st, &h)), Vec::<Team>::new());
}

#[test]
fn two_clubs_by_series_wins() {
    let st = table(&[(Team::OLY, -50, 1), (Team::MAD, 50, 1)]);
    let h = series(&[(Team::OLY, Team::MAD, 2, 0, 3, -3, true)]);
    assert_eq!(resolved(&resolve_tie_group(&[Team::MAD, Team::OLY], &st, &h)), vec![Team::OLY, Team::MAD]);
    assert_eq!(resolved(&resolve_tie_group(&[Team::OLY, Team::MAD], &st, &h)), vec![Team::OLY, Team::MAD]);
}

#[test]
fn two_clubs_by_series_points() {
    let st = table(&[(Team::OLY, 50, 1), (Team::MAD, -50, 1)]);
    let h = series(&[(Team::OLY, Team::MAD, 1, 1, -2, 2, true)]);
    assert_eq!(resolved(&resolve_tie_group(&[Team::OLY, Team::MAD], &st, &h)), vec![Team::MAD, Team::OLY]);
}

#[test]
fn two_clubs_level_in_their_series() {
    let st = table(&[(Team::OLY, 10, 3000), (Team::MAD, -5, 2900)]);
    let h = series(&[(Team::OLY, Team::MAD, 1, 1, 0, 0, true)]);
    let s = slots(&resolve_tie_group(&[Team::OLY, Team::MAD], &st, &h));
    assert_eq!(s.len(), 1);
    let (ts, note) = tied(&s[0]);
    assert_eq!(ts, vec![Team::OLY, Team::MAD]);
    assert_eq!(note, "H2H 1-1 sa izjednacenom razlikom koseva. SLEDECI KRITERIJUM: ukupan koš-razlika (OLY: 10, MAD: -5)");
}

#[test]
fn two_clubs_that_met_once() {
    let h = series(&[(Team::RED, Team::BAR, 1, 0, 5, -5, false)]);
    let st = table(&[(Team::RED, 3, 100), (Team::BAR, 4, 90)]);
    assert_eq!(resolved(&resolve_tie_group(&[Team::RED, Team::BAR], &st, &h)), vec![Team::BAR, Team::RED]);
    let st = table(&[(Team::RED, 3, 100), (Team::BAR, 3, 101)]);
    assert_eq!(resolved(&resolve_tie_group(&[Team::RED, Team::BAR], &st, &h)), vec![Team::BAR, Team::RED]);
    let st = table(&[(Team::RED, 3, 100), (Team::BAR, 3, 100)]);
    let s = slots(&resolve_tie_group(&[Team::RED, Team::BAR], &st, &h));
    let (ts, note) = tied(&s[0]);
    assert_eq!(ts, vec![Team::RED, Team::BAR]);
    assert_eq!(note, "Nisu se sreli 2x. Isti diff (3) i pf (100). Neresivo.");
}

#[test]
fn group_that_did_not_meet_in_full() {
    let st = table(&[(Team::OLY, 12, 3000), (Team::MAD, -4, 2950), (Team::PAN, 7, 3100)]);
    let h = series(&[
        (Team::OLY, Team::MAD, 1, 0, 6, -6, false),
        (Team::OLY, Team::PAN, 2, 0, 20, -20, true),
        (Team::MAD, Team::PAN, 1, 1, -3, 3, true),
    ]);
    let s = slots(&resolve_tie_group(&[Team::OLY, Team::MAD, Team::PAN], &st, &h));
    assert_eq!(s.len(), 1);
    let (ts, note) = tied(&s[0]);
    assert_eq!(ts, vec![Team::OLY, Team::MAD, Team::PAN]);
    assert_eq!(
        note,
        "Nisu se svi sreli 2x. Nepotpuni H2H parovi: [OLY-MAD]. Mini-tabela: OLY(h2h_w=3,h2h_d=26,tot_d=12), MAD(h2h_w=1,h2h_d=-9,tot_d=-4), PAN(h2h_w=1,h2h_d=-17,tot_d=7)"
    );
}

#[test]
fn mini_league_by_wins() {
    let st = table(&[(Team::OLY, 0, 1), (Team::MAD, 0, 1), (Team::PAN, 0, 1)]);
    let h = series(&[
        (Team::OLY, Team::MAD, 2, 0, 10, -10, true),
        (Team::OLY, Team::PAN, 1, 1, 0, 0, true),
        (Team::MAD, Team::PAN, 1, 1, 4, -4, true),
    ]);
    assert_eq!(
        resolved(&resolve_tie_group(&[Team::OLY, Team::MAD, Team::PAN], &st, &h)),
        vec![Team::OLY, Team::PAN, Team::MAD]
    );
}

#[test]
fn mini_league_by_points_then_a_pair() {
    let st = table(&[(Team::OLY, 5, 10), (Team::MAD, 7, 10), (Team::PAN, 1, 10)]);
    let h = series(&[
        (Team::OLY, Team::MAD, 1, 1, 0, 0, true),
        (Team::OLY, Team::PAN, 1, 1, 10, -10, true),
        (Team::MAD, Team::PAN, 1, 1, 10, -10, true),
    ]);
    let s = slots(&resolve_tie_group(&[Team::OLY, Team::MAD, Team::PAN], &st, &h));
    assert_eq!(s.len(), 2);
    let (ts, note) = tied(&s[0]);
    assert_eq!(ts, vec![Team::OLY, Team::MAD]);
    assert_eq!(note, "H2H 1-1 sa izjednacenom razlikom koseva. SLEDECI KRITERIJUM: ukupan koš-razlika (OLY: 5, MAD: 7)");
    assert_eq!(single(&s[1]), Team::PAN);
}

#[test]
fn level_mini_league_falls_back_to_the_table() {
    let all_level = [
        (Team::OLY, Team::MAD, 1, 1, 0, 0, true),
        (Team::OLY, Team::PAN, 1, 1, 0, 0, true),
        (Team::MAD, Team::PAN, 1, 1, 0, 0, true),
    ];
    let h = series(&all_level);
    let st = table(&[(Team::OLY, 5, 12), (Team::MAD, 5, 10), (Team::PAN, 9, 10)]);
    assert_eq!(
        resolved(&resolve_tie_group(&[Team::OLY, Team::MAD, Team::PAN], &st, &h)),
        vec![Team::PAN, Team::OLY, Team::MAD]
    );
    let st = table(&[(Team::OLY, 5, 10), (Team::MAD, 5, 10), (Team::PAN, 9, 10)]);
    let s = slots(&resolve_tie_group(&[Team::OLY, Team::MAD, Team::PAN], &st, &h));
    assert_eq!(s.len(), 2);
    assert_eq!(single(&s[0]), Team::PAN);
    let (ts, note) = tied(&s[1]);
    assert_eq!(ts, vec![Team::OLY, Team::MAD]);
    assert_eq!(note, "Isti diff i pf: OLY(d=5,pf=10), MAD(d=5,pf=10)");
}

#[test]
fn open_tie_on_the_table_lists_the_clubs_below() {
    let pairs = [
        (Team::OLY, Team::MAD), (Team::OLY, Team::PAN), (Team::OLY, Team::RED),
        (Team::MAD, Team::PAN), (Team::MAD, Team::RED), (Team::PAN, Team::RED),
    ];
    let rows: Vec<(Team, Team, u32, u32, i32, i32, bool)> = pairs.iter().map(|&(a, b)| (a, b, 1, 1, 0, 0, true)).collect();
    let h = series(&rows);
    let st = table(&[(Team::OLY, 5, 10), (Team::MAD, 5, 10), (Team::PAN, 9, 5), (Team::RED, 1, 1)]);
    let s = slots(&resolve_tie_group(&[Team::OLY, Team::MAD, Team::PAN, Team::RED], &st, &h));
    assert_eq!(s.len(), 3);
    assert_eq!(single(&s[0]), Team::PAN);
    assert_eq!(tied(&s[1]).0, vec![Team::OLY, Team::MAD]);
    assert_eq!(single(&s[2]), Team::RED);
}

#[test]
fn open_tie_on_points_scored_leaves_out_the_rest_of_its_group() {
    // Three clubs level on point difference; two of them also level on points
    // scored above the third: the tie is reported and the third club, with
    // fewer points in the same difference group, is left out.
    let h = series(&[
        (Team::OLY, Team::MAD, 1, 1, 0, 0, true),
        (Team::OLY, Team::PAN, 1, 1, 0, 0, true),
        (Team::MAD, Team::PAN, 1, 1, 0, 0, true),
    ]);
    let st = table(&[(Team::OLY, 5, 10), (Team::MAD, 5, 10), (Team::PAN, 5, 5)]);
    let s = slots(&resolve_tie_group(&[Team::OLY, Team::MAD, Team::PAN], &st, &h));
    assert_eq!(s.len(), 1);
    let (ts, note) = tied(&s[0]);
    assert_eq!(ts, vec![Team::OLY, Team::MAD]);
    assert_eq!(note, "Isti diff i pf: OLY(d=5,pf=10), MAD(d=5,pf=10)");
}

#[test]
fn two_open_ties_on_the_same_difference() {
    // At the first tie on difference and points the rest of its difference
    // group is left out, the second tie among them too; the groups of a
    // smaller difference follow in the order given.
    let clubs = [Team::OLY, Team::MAD, Team::PAN, Team::RED, Team::BAR, Team::DUB];
    let mut rows = Vec::new();
    for i in 0..clubs.len() {
        for j in (i + 1)..clubs.len() {
            rows.push((clubs[i], clubs[j], 1, 1, 0, 0, true));
        }
    }
    let h = series(&rows);
    let st = table(&[
        (Team::OLY, 5, 8), (Team::MAD, 5, 10), (Team::PAN, 5, 8),
        (Team::RED, 5, 10), (Team::BAR, 1, 100), (Team::DUB, 1, 200),
    ]);
    let s = slots(&resolve_tie_group(&clubs, &st, &h));
    assert_eq!(s.len(), 3);
    let (ts, note) = tied(&s[0]);
    assert_eq!(ts, vec![Team::MAD, Team::RED]);
    assert_eq!(note, "Isti diff i pf: MAD(d=5,pf=10), RED(d=5,pf=10)");
    assert_eq!(single(&s[1]), Team::BAR);
    assert_eq!(single(&s[2]), Team::DUB);
}

#[test]
fn clubs_above_an_open_tie_on_points_are_placed() {
    // The club with more points comes first; the tie below it ends its
    // difference group, so every club is placed once.
    let h = series(&[
        (Team::OLY, Team::MAD, 1, 1, 0, 0, true),
        (Team::OLY, Team::PAN, 1, 1, 0, 0, true),
        (Team::MAD, Team::PAN, 1, 1, 0, 0, true),
    ]);
    let st = table(&[(Team::OLY, 5, 50), (Team::MAD, 5, 50), (Team::PAN, 5, 100)]);
    let r = resolve_tie_group(&[Team::OLY, Team::MAD, Team::PAN], &st, &h);
    let s = slots(&r);
    assert_eq!(s.len(), 2);
    assert_eq!(single(&s[0]), Team::PAN);
    assert_eq!(tied(&s[1]).0, vec![Team::OLY, Team::MAD]);
    let mut placed: Vec<Team> = s.iter().flat_map(|s| s.teams()).collect();
    placed.sort();
    assert_eq!(placed, vec![Team::OLY, Team::MAD, Team::PAN]);
}

#[test]
fn nested_mini_leagues() {
    let h = series(&[
        (Team::OLY, Team::MAD, 2, 0, 5, -5, true),
        (Team::OLY, Team::PAN, 2, 0, 5, -5, true),
        (Team::OLY, Team::RED, 2, 0, 5, -5, true),
        (Team::MAD, Team::PAN, 1, 1, 0, 0, true),
        (Team::MAD, Team::RED, 1, 1, 0, 0, true),
        (Team::PAN, Team::RED, 1, 1, 0, 0, true),
    ]);
    let st = table(&[(Team::OLY, 1, 1), (Team::MAD, 2, 2), (Team::PAN, 3, 3), (Team::RED, 4, 4)]);
    assert_eq!(
        resolved(&resolve_tie_group(&[Team::OLY, Team::MAD, Team::PAN, Team::RED], &st, &h)),
        vec![Team::OLY, Team::RED, Team::PAN, Team::MAD]
    );
}

#[test]
fn slot_lists_its_clubs() {
    assert_eq!(TieSlot::Resolved(Team::RED).teams(), vec![Team::RED]);
    assert_eq!(TieSlot::Tied(vec![Team::OLY, Team::MAD], String::from("x")).teams(), vec![Team::OLY, Team::MAD]);
}

#[test]
fn two_clubs_in_either_order() {
    // The tie of two clubs is decided the same way whichever is named first.
    let st = table(&[(Team::OLY, 4, 10), (Team::MAD, 4, 12)]);
    let h = series(&[(Team::OLY, Team::MAD, 1, 0, 3, -3, false)]);
    let a = resolved(&resolve_tie_group(&[Team::OLY, Team::MAD], &st, &h));
    let b = resolved(&resolve_tie_group(&[Team::MAD, Team::OLY], &st, &h));
    assert_eq!(a, b);
    assert_eq!(a, vec![Team::MAD, Team::OLY]);
}

#[test]
fn series_decide_without_lines_in_the_table() {
    // Where the head-to-head games order the clubs, their lines in the table
    // are never read.
    let empty: HashMap<u32, TeamStats> = HashMap::new();
    let h = series(&[(Team::OLY, Team::MAD, 2, 0, 3, -3, true)]);
    assert_eq!(resolved(&resolve_tie_group(&[Team::MAD, Team::OLY], &empty, &h)), vec![Team::OLY, Team::MAD]);
    let h = series(&[
        (Team::OLY, Team::MAD, 2, 0, 10, -10, true),
        (Team::OLY, Team::PAN, 2, 0, 4, -4, true),
        (Team::MAD, Team::PAN, 2, 0, 6, -6, true),
    ]);
    assert_eq!(
        resolved(&resolve_tie_group(&[Team::PAN, Team::MAD, Team::OLY], &empty, &h)),
        vec![Team::OLY, Team::MAD, Team::PAN]
    );
}

#[test]
fn the_table_criteria_list_clubs_by_difference() {
    // When the mini-league is level, the clubs come by point difference,
    // largest first, whatever is left open on points scored.
    let clubs = [Team::OLY, Team::MAD, Team::PAN, Team::RED];
    let mut rows = Vec::new();
    for i in 0..clubs.len() {
        for j in (i + 1)..clubs.len() {
            rows.push((clubs[i], clubs[j], 1, 1, 0, 0, true));
        }
    }
    let h = series(&rows);
    let st = table(&[(Team::OLY, -3, 8), (Team::MAD, 7, 10), (Team::PAN, -3, 8), (Team::RED, 2, 10)]);
    let r = resolve_tie_group(&clubs, &st, &h);
    let placed: Vec<Team> = slots(&r).iter().flat_map(|s| s.teams()).collect();
    assert_eq!(placed, vec![Team::MAD, Team::RED, Team::OLY, Team::PAN]);
    assert_eq!(tied(&slots(&r)[2]).0, vec![Team::OLY, Team::PAN]);
}
