//! The scenario runner: applies chosen results of the remaining games to the
//! table and the head-to-head series, orders the clubs by wins, breaks every
//! tie, and reports where the followed club (Crvena zvezda) finishes.

use vstd::prelude::*;
use std::collections::HashMap;
use crate::team::{Team, ALL_TEAMS};
use crate::types::{TeamStats, H2HRecord, RemainingGame, GameOutcome};
use crate::h2h::{H2HState, after_game, game_fits};
use crate::grouping::{
    groups_desc, concat_all, views, group_desc, sort_desc, lemma_groups, lemma_concat_append,
    teams_of, lemma_teams_of,
};
use crate::tiebreak::{
    TieSlot, TieResult, SlotModel, TieModel, slot_views, tie_spec, stats_key, stat, has_stats,
    standing_items, resolve_tie_group, stats_of, standing_keyed, lemma_lines_from_stats,
};
use crate::scenario_laws::{
    law_scenario_places_each_club_once, law_scenario_followed_placed, law_scenario_followed_consistent,
    law_scenario_open_tie_wide,
};
use crate::tiebreak_laws::{
    slot_teams, slots_teams, model_teams, law_tie_keeps_clubs, lemma_slots_teams_add, tie_drops,
};

verus! {

/// The club whose final place the runner follows.
pub open spec fn followed() -> Team {
    Team::RED
}

/// The table keyed by `stats_key`, a later line of the same club replacing
/// an earlier one.
pub open spec fn stats_table(base: Seq<TeamStats>) -> Map<u32, TeamStats>
    decreases base.len(),
{
    if base.len() == 0 {
        Map::empty()
    } else {
        stats_table(base.drop_last()).insert(stats_key(base.last().team), base.last())
    }
}

/// Whether the table has a line for every club.
pub open spec fn every_club_listed(st: Map<u32, TeamStats>) -> bool {
    forall|t: Team| #[trigger] st.contains_key(stats_key(t))
}

/// The winner and the loser of a game. The loser of the first game of a
/// series wins when it wins small or big.
pub open spec fn winner_loser(game: RemainingGame, outcome: GameOutcome) -> (Team, Team) {
    match outcome {
        GameOutcome::HomeWin => (game.home, game.away),
        GameOutcome::AwayWin => (game.away, game.home),
        _ => (game.h2h_info->Some_0.first_loser, game.h2h_info->Some_0.first_winner),
    }
}

/// A line after a win: one more game and win, 8 more in difference, 87
/// points scored and 79 allowed.
pub open spec fn credit_win(s: TeamStats) -> TeamStats {
    TeamStats {
        gp: (s.gp + 1) as u32,
        wins: (s.wins + 1) as u32,
        diff_reg: (s.diff_reg + 8) as i32,
        pf_reg: (s.pf_reg + 87) as i32,
        pa_reg: (s.pa_reg + 79) as i32,
        ..s
    }
}

/// A line after a loss: one more game and loss, 8 less in difference, 79
/// points scored and 87 allowed.
pub open spec fn credit_loss(s: TeamStats) -> TeamStats {
    TeamStats {
        gp: (s.gp + 1) as u32,
        losses: (s.losses + 1) as u32,
        diff_reg: (s.diff_reg - 8) as i32,
        pf_reg: (s.pf_reg + 79) as i32,
        pa_reg: (s.pa_reg + 87) as i32,
        ..s
    }
}

pub open spec fn win_fits(s: TeamStats) -> bool {
    &&& s.gp + 1 <= u32::MAX
    &&& s.wins + 1 <= u32::MAX
    &&& s.diff_reg + 8 <= i32::MAX
    &&& s.pf_reg + 87 <= i32::MAX
    &&& s.pa_reg + 79 <= i32::MAX
}

pub open spec fn loss_fits(s: TeamStats) -> bool {
    &&& s.gp + 1 <= u32::MAX
    &&& s.losses + 1 <= u32::MAX
    &&& s.diff_reg - 8 >= i32::MIN
    &&& s.pf_reg + 79 <= i32::MAX
    &&& s.pa_reg + 87 <= i32::MAX
}

/// The table after the winner's line is credited, then the loser's.
pub open spec fn after_result(st: Map<u32, TeamStats>, w: Team, l: Team) -> Map<u32, TeamStats> {
    let st1 = if st.contains_key(stats_key(w)) { st.insert(stats_key(w), credit_win(st[stats_key(w)])) } else { st };
    if st1.contains_key(stats_key(l)) { st1.insert(stats_key(l), credit_loss(st1[stats_key(l)])) } else { st1 }
}

/// Whether crediting the result keeps the lines in range.
pub open spec fn result_fits(st: Map<u32, TeamStats>, w: Team, l: Team) -> bool {
    let st1 = if st.contains_key(stats_key(w)) { st.insert(stats_key(w), credit_win(st[stats_key(w)])) } else { st };
    &&& st.contains_key(stats_key(w)) ==> win_fits(st[stats_key(w)])
    &&& st1.contains_key(stats_key(l)) ==> loss_fits(st1[stats_key(l)])
}

/// Whether the chosen result names a game, and an outcome the game can have.
pub open spec fn outcome_ok(games: Seq<RemainingGame>, o: (usize, GameOutcome)) -> bool {
    &&& o.0 < games.len()
    &&& (o.1 == GameOutcome::H2HLoserWinsSmall || o.1 == GameOutcome::H2HLoserWinsBig)
        ==> games[o.0 as int].h2h_info is Some
}

/// The table and the series after the chosen results, in order.
pub open spec fn applied(
    outs: Seq<(usize, GameOutcome)>,
    games: Seq<RemainingGame>,
    st0: Map<u32, TeamStats>,
    h0: Map<u32, H2HRecord>,
) -> (Map<u32, TeamStats>, Map<u32, H2HRecord>)
    decreases outs.len(),
{
    if outs.len() == 0 {
        (st0, h0)
    } else {
        let prev = applied(outs.drop_last(), games, st0, h0);
        let o = outs.last();
        let g = games[o.0 as int];
        let wl = winner_loser(g, o.1);
        (after_result(prev.0, wl.0, wl.1), after_game(prev.1, g, o.1))
    }
}

/// Whether every chosen result is valid and keeps every count in range.
pub open spec fn outcomes_fit(
    outs: Seq<(usize, GameOutcome)>,
    games: Seq<RemainingGame>,
    st0: Map<u32, TeamStats>,
    h0: Map<u32, H2HRecord>,
) -> bool
    decreases outs.len(),
{
    if outs.len() == 0 {
        true
    } else {
        let prev = applied(outs.drop_last(), games, st0, h0);
        let o = outs.last();
        let g = games[o.0 as int];
        let wl = winner_loser(g, o.1);
        &&& outcomes_fit(outs.drop_last(), games, st0, h0)
        &&& outcome_ok(games, o)
        &&& result_fits(prev.0, wl.0, wl.1)
        &&& game_fits(prev.1, g, o.1)
    }
}

/// The clubs with a given club removed.
pub open spec fn without(ts: Seq<Team>, x: Team) -> Seq<Team>
    decreases ts.len(),
{
    if ts.len() == 0 {
        seq![]
    } else if ts.last() == x {
        without(ts.drop_last(), x)
    } else {
        without(ts.drop_last(), x).push(ts.last())
    }
}

/// The first place of a club among the clubs, or their number.
pub open spec fn pos_of(ts: Seq<Team>, x: Team) -> int
    decreases ts.len(),
{
    if ts.len() == 0 {
        0
    } else {
        let k = pos_of(ts.drop_last(), x);
        if k < ts.len() - 1 {
            k
        } else if ts.last() == x {
            ts.len() - 1
        } else {
            ts.len() as int
        }
    }
}

/// The table being built, and what is known of the followed club.
pub struct TableModel {
    pub standings: Seq<Team>,
    pub red_min: u32,
    pub red_max: u32,
    pub has_unresolved_red: bool,
    pub unresolved_info: Seq<Seq<char>>,
    pub tied_with: Seq<Team>,
}

/// The table before any club is placed.
pub open spec fn empty_table() -> TableModel {
    TableModel {
        standings: seq![],
        red_min: 0,
        red_max: 0,
        has_unresolved_red: false,
        unresolved_info: seq![],
        tied_with: seq![],
    }
}

/// Clubs level on point difference and points scored sorted by both,
/// best first, keeping their order otherwise.
pub open spec fn sorted_by_standing(ts: Seq<Team>, st: Map<u32, TeamStats>) -> Seq<Team> {
    concat_all(groups_desc(standing_items(ts, st)))
}

/// Places one slot of a tie that could not be broken in full. An open tie
/// takes as many places as it has clubs, sorted by difference then points;
/// when it holds the followed club, its range of places is recorded with
/// the note and the clubs it is tied with.
pub open spec fn place_slot(acc: TableModel, slot: SlotModel, red_in: bool, st: Map<u32, TeamStats>) -> TableModel {
    let pos = acc.standings.len() + 1;
    match slot {
        SlotModel::Resolved(t) => TableModel {
            standings: acc.standings.push(t),
            red_min: if red_in && t == followed() { pos as u32 } else { acc.red_min },
            red_max: if red_in && t == followed() { pos as u32 } else { acc.red_max },
            ..acc
        },
        SlotModel::Tied(ts, info) => if red_in && ts.contains(followed()) {
            TableModel {
                standings: acc.standings + sorted_by_standing(ts, st),
                has_unresolved_red: true,
                red_min: pos as u32,
                red_max: (pos + ts.len() - 1) as u32,
                unresolved_info: acc.unresolved_info.push(info),
                tied_with: without(ts, followed()),
            }
        } else {
            TableModel { standings: acc.standings + sorted_by_standing(ts, st), ..acc }
        },
    }
}

/// Places the slots one after the other.
pub open spec fn place_slots(acc: TableModel, ss: Seq<SlotModel>, red_in: bool, st: Map<u32, TeamStats>) -> TableModel
    decreases ss.len(),
{
    if ss.len() == 0 {
        acc
    } else {
        place_slot(place_slots(acc, ss.drop_last(), red_in, st), ss.last(), red_in, st)
    }
}

/// Places a group of clubs level on wins, breaking the tie.
pub open spec fn place_group(acc: TableModel, g: Seq<Team>, st: Map<u32, TeamStats>, h: Map<u32, H2HRecord>) -> TableModel {
    let pos = acc.standings.len() + 1;
    if g.len() == 1 {
        TableModel {
            standings: acc.standings.push(g[0]),
            red_min: if g[0] == followed() { pos as u32 } else { acc.red_min },
            red_max: if g[0] == followed() { pos as u32 } else { acc.red_max },
            ..acc
        }
    } else {
        match tie_spec(g, st, h) {
            TieModel::Resolved(o) => {
                let i = pos_of(o, followed());
                TableModel {
                    standings: acc.standings + o,
                    red_min: if i < o.len() { (pos + i) as u32 } else { acc.red_min },
                    red_max: if i < o.len() { (pos + i) as u32 } else { acc.red_max },
                    ..acc
                }
            },
            TieModel::Unresolved(ss) => place_slots(acc, ss, g.contains(followed()), st),
        }
    }
}

/// Places the groups one after the other.
pub open spec fn place_all(acc: TableModel, gs: Seq<Seq<Team>>, st: Map<u32, TeamStats>, h: Map<u32, H2HRecord>) -> TableModel
    decreases gs.len(),
{
    if gs.len() == 0 {
        acc
    } else {
        place_group(place_all(acc, gs.drop_last(), st, h), gs.last(), st, h)
    }
}

/// Every club keyed by its wins, in the order of clubs.
pub open spec fn win_items(st: Map<u32, TeamStats>) -> Seq<(Team, i128)> {
    Seq::new(20, |i: int| (ALL_TEAMS@[i], stat(st, ALL_TEAMS@[i]).wins as i128))
}

/// The final table of a scenario: the chosen results applied, the clubs
/// grouped by wins (most first), each group placed by the tie-break.
pub open spec fn scenario_table(
    outs: Seq<(usize, GameOutcome)>,
    games: Seq<RemainingGame>,
    base: Seq<TeamStats>,
    h0: Map<u32, H2HRecord>,
) -> TableModel {
    let fin = applied(outs, games, stats_table(base), h0);
    place_all(empty_table(), groups_desc(win_items(fin.0)), fin.0, fin.1)
}

/// Whether breaking the tie of some group of clubs level on wins leaves out
/// a club.
pub open spec fn groups_drop(gs: Seq<Seq<Team>>, st: Map<u32, TeamStats>, h: Map<u32, H2HRecord>) -> bool
    decreases gs.len(),
{
    gs.len() > 0 && (groups_drop(gs.drop_last(), st, h) || tie_drops(gs.last(), st, h))
}

/// Whether the final table of a scenario leaves out a club: the tie of one
/// of its groups of clubs level on wins is broken with `tie_drops`.
pub open spec fn scenario_drops(
    outs: Seq<(usize, GameOutcome)>,
    games: Seq<RemainingGame>,
    base: Seq<TeamStats>,
    h0: Map<u32, H2HRecord>,
) -> bool {
    let fin = applied(outs, games, stats_table(base), h0);
    groups_drop(groups_desc(win_items(fin.0)), fin.0, fin.1)
}

/// The outcome of a scenario.
pub struct ScenarioResult {
    /// The final table, best first.
    pub standings: Vec<Team>,
    /// The followed club's place when it is known exactly, else 0.
    pub red_position: u32,
    pub red_min: u32,
    pub red_max: u32,
    pub has_unresolved_red: bool,
    pub unresolved_info: Vec<String>,
    /// The clubs that the followed club is tied with, if its tie is open.
    pub tied_with: Vec<Team>,
}

/// The texts of a vector of strings.
pub open spec fn texts(v: Seq<String>) -> Seq<Seq<char>> {
    v.map_values(|s: String| s@)
}


// ---------------------------------------------------------------------------
// Sizes of the table as it is built
// ---------------------------------------------------------------------------

pub proof fn lemma_sorted_by_standing(ts: Seq<Team>, st: Map<u32, TeamStats>)
    ensures
        sorted_by_standing(ts, st).to_multiset() == ts.to_multiset(),
        sorted_by_standing(ts, st).len() == ts.len(),
{
    broadcast use vstd::seq_lib::group_to_multiset_ensures;
    let items = standing_items(ts, st);
    lemma_groups(items);
    crate::grouping::lemma_teams_of(items);
    assert(crate::grouping::teams_of(items) =~= ts);
    assert(sorted_by_standing(ts, st).to_multiset().len() == ts.to_multiset().len());
}

pub proof fn lemma_place_slots_size(acc: TableModel, ss: Seq<SlotModel>, red_in: bool, st: Map<u32, TeamStats>)
    ensures
        place_slots(acc, ss, red_in, st).standings.len() == acc.standings.len() + slots_teams(ss).len(),
    decreases ss.len(),
{
    if ss.len() > 0 {
        lemma_place_slots_size(acc, ss.drop_last(), red_in, st);
        match ss.last() {
            SlotModel::Resolved(t) => {},
            SlotModel::Tied(ts, info) => {
                lemma_sorted_by_standing(ts, st);
            },
        }
    }
}

pub proof fn lemma_slots_prefix_size(ss: Seq<SlotModel>, i: int)
    requires
        0 <= i <= ss.len(),
    ensures
        slots_teams(ss.take(i)).len() <= slots_teams(ss).len(),
        i < ss.len() ==> slots_teams(ss.take(i)).len() + slot_teams(ss[i]).len() <= slots_teams(ss).len(),
{
    assert(ss == ss.take(i) + ss.skip(i));
    lemma_slots_teams_add(ss.take(i), ss.skip(i));
    if i < ss.len() {
        assert(ss.take(i + 1).drop_last() == ss.take(i));
        assert(ss == ss.take(i + 1) + ss.skip(i + 1));
        lemma_slots_teams_add(ss.take(i + 1), ss.skip(i + 1));
    }
}


pub proof fn lemma_place_group_size(acc: TableModel, g: Seq<Team>, st: Map<u32, TeamStats>, h: Map<u32, H2HRecord>)
    ensures
        place_group(acc, g, st, h).standings.len() <= acc.standings.len() + g.len(),
{
    broadcast use vstd::seq_lib::group_to_multiset_ensures, vstd::multiset::group_multiset_axioms;
    if g.len() != 1 {
        law_tie_keeps_clubs(g, st, h);
        let m = tie_spec(g, st, h);
        match m {
            TieModel::Resolved(o) => {},
            TieModel::Unresolved(ss) => {
                lemma_place_slots_size(acc, ss, g.contains(followed()), st);
            },
        }
    }
}

pub proof fn lemma_place_all_size(acc: TableModel, gs: Seq<Seq<Team>>, st: Map<u32, TeamStats>, h: Map<u32, H2HRecord>)
    ensures
        place_all(acc, gs, st, h).standings.len() <= acc.standings.len() + concat_all(gs).len(),
    decreases gs.len(),
{
    if gs.len() > 0 {
        lemma_place_all_size(acc, gs.drop_last(), st, h);
        lemma_place_group_size(place_all(acc, gs.drop_last(), st, h), gs.last(), st, h);
    }
}


// ---------------------------------------------------------------------------
// The runner
// ---------------------------------------------------------------------------

/// Whether a result holds what the model of the table says.
pub open spec fn matches_table(r: ScenarioResult, m: TableModel) -> bool {
    &&& r.standings@ == m.standings
    &&& r.red_min == m.red_min
    &&& r.red_max == m.red_max
    &&& r.red_position == if m.red_min == m.red_max { m.red_min } else { 0 }
    &&& r.has_unresolved_red == m.has_unresolved_red
    &&& texts(r.unresolved_info@) == m.unresolved_info
    &&& r.tied_with@ == m.tied_with
}

struct TableBuild {
    standings: Vec<Team>,
    red_min: u32,
    red_max: u32,
    has_unresolved_red: bool,
    unresolved_info: Vec<String>,
    tied_with: Vec<Team>,
}

impl TableBuild {
    closed spec fn model(&self) -> TableModel {
        TableModel {
            standings: self.standings@,
            red_min: self.red_min,
            red_max: self.red_max,
            has_unresolved_red: self.has_unresolved_red,
            unresolved_info: texts(self.unresolved_info@),
            tied_with: self.tied_with@,
        }
    }
}

fn contains_team(ts: &Vec<Team>, x: Team) -> (r: bool)
    ensures
        r == ts@.contains(x),
{
    for i in 0..ts.len()
        invariant
            forall|j: int| 0 <= j < i ==> ts@[j] != x,
    {
        if ts[i] == x {
            assert(ts@[i as int] == x);
            return true;
        }
    }
    false
}

fn without_exec(ts: &Vec<Team>, x: Team) -> (r: Vec<Team>)
    ensures
        r@ == without(ts@, x),
{
    let mut r: Vec<Team> = Vec::new();
    for i in 0..ts.len()
        invariant
            r@ == without(ts@.take(i as int), x),
    {
        assert(ts@.take(i + 1).drop_last() == ts@.take(i as int));
        if ts[i] != x {
            r.push(ts[i]);
        }
    }
    assert(ts@.take(ts@.len() as int) == ts@);
    r
}

fn pos_of_exec(ts: &Vec<Team>, x: Team) -> (r: usize)
    ensures
        r == pos_of(ts@, x),
{
    let mut i: usize = 0;
    while i < ts.len()
        invariant
            i <= ts.len(),
            pos_of(ts@.take(i as int), x) == i,
        ensures
            i <= ts.len(),
            pos_of(ts@.take(i as int), x) == i,
            i < ts.len() ==> ts@[i as int] == x,
        decreases ts.len() - i,
    {
        if ts[i] == x {
            break;
        }
        assert(ts@.take(i + 1).drop_last() == ts@.take(i as int));
        i = i + 1;
    }
    proof {
        lemma_pos_of_found(ts@, x, i as int);
    }
    i
}

proof fn lemma_pos_of_found(ts: Seq<Team>, x: Team, i: int)
    requires
        0 <= i <= ts.len(),
        pos_of(ts.take(i), x) == i,
        i < ts.len() ==> ts[i] == x,
    ensures
        pos_of(ts, x) == i,
    decreases ts.len() - i,
{
    if i < ts.len() {
        assert(ts.take(i + 1).drop_last() == ts.take(i));
        assert(pos_of(ts.take(i + 1), x) == i);
        lemma_pos_of_extend(ts, x, i + 1, i);
    } else {
        assert(ts.take(i) == ts);
    }
}

proof fn lemma_pos_of_extend(ts: Seq<Team>, x: Team, n: int, i: int)
    requires
        0 <= i < n <= ts.len(),
        pos_of(ts.take(n), x) == i,
    ensures
        pos_of(ts, x) == i,
    decreases ts.len() - n,
{
    if n < ts.len() {
        assert(ts.take(n + 1).drop_last() == ts.take(n));
        lemma_pos_of_extend(ts, x, n + 1, i);
    } else {
        assert(ts.take(n) == ts);
    }
}

fn sorted_standing_exec(ts: &Vec<Team>, stats: &HashMap<u32, TeamStats>) -> (r: Vec<Team>)
    requires
        has_stats(stats@, ts@),
    ensures
        r@ == sorted_by_standing(ts@, stats@),
{
    let (_di, si) = standing_keyed(ts.as_slice(), stats);
    sort_desc(&si)
}

fn push_all(out: &mut Vec<Team>, ts: &Vec<Team>)
    ensures
        final(out)@ == old(out)@ + ts@,
{
    let ghost start = out@;
    for i in 0..ts.len()
        invariant
            out@ == start + ts@.take(i as int),
    {
        out.push(ts[i]);
        assert(ts@.take(i + 1) == ts@.take(i as int).push(ts@[i as int]));
    }
    assert(ts@.take(ts@.len() as int) == ts@);
}

fn place_slot_exec(tb: &mut TableBuild, slot: &TieSlot, red_in: bool, stats: &HashMap<u32, TeamStats>)
    requires
        old(tb).standings@.len() + slot_teams(slot@).len() <= 20,
        has_stats(stats@, slot_teams(slot@)),
    ensures
        final(tb).model() == place_slot(old(tb).model(), slot@, red_in, stats@),
{
    let pos: u32 = tb.standings.len() as u32 + 1;
    match slot {
        TieSlot::Resolved(t) => {
            if red_in && *t == Team::RED {
                tb.red_min = pos;
                tb.red_max = pos;
            }
            tb.standings.push(*t);
        },
        TieSlot::Tied(teams, info) => {
            proof {
                lemma_sorted_by_standing(teams@, stats@);
            }
            if red_in && contains_team(teams, Team::RED) {
                tb.has_unresolved_red = true;
                tb.red_min = pos;
                tb.red_max = pos + teams.len() as u32 - 1;
                let ghost before = tb.unresolved_info@;
                tb.unresolved_info.push(info.clone());
                assert(texts(tb.unresolved_info@) == texts(before).push(info@));
                tb.tied_with = without_exec(teams, Team::RED);
            }
            let sorted_tied = sorted_standing_exec(teams, stats);
            push_all(&mut tb.standings, &sorted_tied);
        },
    }
}

proof fn lemma_stats_of_members(st: Map<u32, TeamStats>, ts: Seq<Team>)
    requires
        every_club_listed(st),
    ensures
        has_stats(st, ts),
{
    assert forall|i: int| 0 <= i < ts.len() implies #[trigger] st.contains_key(stats_key(ts[i])) by {
        assert(st.contains_key(stats_key(ts[i])));
    }
}

fn place_group_exec(tb: &mut TableBuild, group: &Vec<Team>, stats: &HashMap<u32, TeamStats>, h2h: &H2HState)
    requires
        old(tb).standings@.len() + group@.len() <= 20,
        every_club_listed(stats@),
    ensures
        final(tb).model() == place_group(old(tb).model(), group@, stats@, h2h.records@),
{
    let ghost st = stats@;
    let ghost h = h2h.records@;
    let ghost m0 = tb.model();
    let position: u32 = tb.standings.len() as u32 + 1;
    if group.len() == 1 {
        if group[0] == Team::RED {
            tb.red_min = position;
            tb.red_max = position;
        }
        tb.standings.push(group[0]);
        return;
    }
    proof {
        lemma_stats_of_members(st, group@);
        lemma_lines_from_stats(group@, st, h);
        law_tie_keeps_clubs(group@, st, h);
        broadcast use vstd::seq_lib::group_to_multiset_ensures;
        assert(model_teams(tie_spec(group@, st, h)).to_multiset().len() == model_teams(tie_spec(group@, st, h)).len());
        assert(group@.to_multiset().len() == group@.len());
    }
    let result = resolve_tie_group(group.as_slice(), stats, h2h);
    match result {
        TieResult::Resolved(ordered) => {
            assert(ordered@ == model_teams(tie_spec(group@, st, h)));
            let i = pos_of_exec(&ordered, Team::RED);
            if i < ordered.len() {
                tb.red_min = position + i as u32;
                tb.red_max = tb.red_min;
            }
            push_all(&mut tb.standings, &ordered);
        },
        TieResult::Unresolved { ordering } => {
            let ghost ss = slot_views(ordering@);
            assert(slots_teams(ss) == model_teams(tie_spec(group@, st, h)));
            let red_in_group = contains_team(group, Team::RED);
            for si in 0..ordering.len()
                invariant
                    ss == slot_views(ordering@),
                    st == stats@,
                    every_club_listed(st),
                    slots_teams(ss).to_multiset().subset_of(group@.to_multiset()),
                    m0.standings.len() + slots_teams(ss).len() <= 20,
                    tb.model() == place_slots(m0, ss.take(si as int), red_in_group, st),
            {
                proof {
                    lemma_place_slots_size(m0, ss.take(si as int), red_in_group, st);
                    lemma_slots_prefix_size(ss, si as int);
                    lemma_stats_of_members(st, slot_teams(ss[si as int]));
                    assert(ss.take(si + 1).drop_last() == ss.take(si as int));
                    assert(ss[si as int] == ordering@[si as int]@);
                }
                place_slot_exec(tb, &ordering[si], red_in_group, stats);
            }
            assert(ss.take(ordering@.len() as int) == ss);
        },
    }
}

fn build_stats(base: &[TeamStats]) -> (m: HashMap<u32, TeamStats>)
    ensures
        m@ == stats_table(base@),
{
    let mut m: HashMap<u32, TeamStats> = HashMap::new();
    for i in 0..base.len()
        invariant
            m@ == stats_table(base@.take(i as int)),
    {
        assert(base@.take(i + 1).drop_last() == base@.take(i as int));
        let s = base[i];
        m.insert(s.team.index(), s);
    }
    assert(base@.take(base@.len() as int) == base@);
    m
}

fn credit_win_exec(stats: &mut HashMap<u32, TeamStats>, w: Team)
    requires
        old(stats)@.contains_key(stats_key(w)) ==> win_fits(old(stats)@[stats_key(w)]),
    ensures
        final(stats)@ == if old(stats)@.contains_key(stats_key(w)) {
            old(stats)@.insert(stats_key(w), credit_win(old(stats)@[stats_key(w)]))
        } else {
            old(stats)@
        },
{
    let k = w.index();
    match stats.get(&k) {
        Some(s) => {
            let mut ws = *s;
            ws.gp = ws.gp + 1;
            ws.wins = ws.wins + 1;
            ws.diff_reg = ws.diff_reg + 8;
            ws.pf_reg = ws.pf_reg + 87;
            ws.pa_reg = ws.pa_reg + 79;
            stats.insert(k, ws);
        },
        None => {},
    }
}

fn credit_loss_exec(stats: &mut HashMap<u32, TeamStats>, l: Team)
    requires
        old(stats)@.contains_key(stats_key(l)) ==> loss_fits(old(stats)@[stats_key(l)]),
    ensures
        final(stats)@ == if old(stats)@.contains_key(stats_key(l)) {
            old(stats)@.insert(stats_key(l), credit_loss(old(stats)@[stats_key(l)]))
        } else {
            old(stats)@
        },
{
    let k = l.index();
    match stats.get(&k) {
        Some(s) => {
            let mut ls = *s;
            ls.gp = ls.gp + 1;
            ls.losses = ls.losses + 1;
            ls.diff_reg = ls.diff_reg - 8;
            ls.pf_reg = ls.pf_reg + 79;
            ls.pa_reg = ls.pa_reg + 87;
            stats.insert(k, ls);
        },
        None => {},
    }
}

pub proof fn lemma_fit_prefix(
    outs: Seq<(usize, GameOutcome)>,
    games: Seq<RemainingGame>,
    st0: Map<u32, TeamStats>,
    h0: Map<u32, H2HRecord>,
    i: int,
)
    requires
        outcomes_fit(outs, games, st0, h0),
        0 <= i <= outs.len(),
    ensures
        outcomes_fit(outs.take(i), games, st0, h0),
    decreases outs.len(),
{
    if i == outs.len() {
        assert(outs.take(i) == outs);
    } else {
        lemma_fit_prefix(outs.drop_last(), games, st0, h0, i);
        assert(outs.drop_last().take(i) == outs.take(i));
    }
}

proof fn lemma_listed_kept(st: Map<u32, TeamStats>, w: Team, l: Team)
    requires
        every_club_listed(st),
    ensures
        every_club_listed(after_result(st, w, l)),
{
    assert forall|t: Team| #[trigger] after_result(st, w, l).contains_key(stats_key(t)) by {
        assert(st.contains_key(stats_key(t)));
    }
}

/// Every club keyed by its wins, in the order of clubs.
fn win_keyed(stats: &HashMap<u32, TeamStats>) -> (r: Vec<(Team, i128)>)
    requires
        every_club_listed(stats@),
    ensures
        r@ == win_items(stats@),
{
    let mut r: Vec<(Team, i128)> = Vec::new();
    for i in 0..20usize
        invariant
            every_club_listed(stats@),
            r@ == win_items(stats@).take(i as int),
    {
        let t = ALL_TEAMS[i];
        let s = stats_of(stats, t);
        r.push((t, s.wins as i128));
        assert(win_items(stats@).take(i + 1) == win_items(stats@).take(i as int).push((t, s.wins as i128)));
    }
    assert(win_items(stats@).take(20) == win_items(stats@));
    r
}

/// Plays out a scenario: applies the chosen results (`(index into games,
/// outcome)`, in order) to the table and the series, orders all clubs by
/// wins, breaks each tie, and reports the followed club's place.
/// The table must hold a line for every club, and every result must name a
/// game, fit its outcome and keep every count in range. The final table
/// places no club twice, and each of the twenty clubs exactly once unless
/// breaking a tie leaves out clubs (`scenario_drops`). The followed club's
/// places never exceed 20 and are at least 1 whenever the table holds it; a
/// decided place shows it there, and its tie is open exactly when its places
/// span two or more, a range that holds it.
pub fn run_scenario(
    game_outcomes: &[(usize, GameOutcome)],
    games: &[RemainingGame],
    base: &[TeamStats],
    base_h2h_map: &HashMap<u32, H2HRecord>,
) -> (r: ScenarioResult)
    requires
        every_club_listed(stats_table(base@)),
        outcomes_fit(game_outcomes@, games@, stats_table(base@), base_h2h_map@),
    ensures
        matches_table(r, scenario_table(game_outcomes@, games@, base@, base_h2h_map@)),
        r.standings@.to_multiset().subset_of(ALL_TEAMS@.to_multiset()),
        !scenario_drops(game_outcomes@, games@, base@, base_h2h_map@) ==> r.standings@.len() == 20,
        !scenario_drops(game_outcomes@, games@, base@, base_h2h_map@)
            ==> r.standings@.to_multiset() == ALL_TEAMS@.to_multiset(),
        scenario_drops(game_outcomes@, games@, base@, base_h2h_map@) ==> r.standings@.len() < 20,
        r.red_min <= r.red_max <= 20,
        r.standings@.contains(Team::RED) ==> 1 <= r.red_min,
        !scenario_drops(game_outcomes@, games@, base@, base_h2h_map@) ==> 1 <= r.red_min,
        !r.has_unresolved_red ==> r.red_min == r.red_max,
        !r.has_unresolved_red && r.red_min > 0 ==> r.standings@[r.red_min - 1] == Team::RED,
        r.has_unresolved_red ==> exists|p: int| r.red_min - 1 <= p < r.red_max && #[trigger] r.standings@[p] == Team::RED,
        !r.tied_with@.contains(Team::RED),
        r.has_unresolved_red == (r.red_min < r.red_max),
{
    proof {
        law_scenario_places_each_club_once(game_outcomes@, games@, base@, base_h2h_map@);
        law_scenario_followed_placed(game_outcomes@, games@, base@, base_h2h_map@);
        law_scenario_followed_consistent(game_outcomes@, games@, base@, base_h2h_map@);
        law_scenario_open_tie_wide(game_outcomes@, games@, base@, base_h2h_map@);
    }
    let ghost outs = game_outcomes@;
    let ghost st0 = stats_table(base@);
    let ghost h0 = base_h2h_map@;
    let mut stats = build_stats(base);
    let mut h2h_state = H2HState::new(base_h2h_map);
    for i in 0..game_outcomes.len()
        invariant
            outs == game_outcomes@,
            st0 == stats_table(base@),
            h0 == base_h2h_map@,
            outcomes_fit(outs, games@, st0, h0),
            every_club_listed(stats@),
            (stats@, h2h_state.records@) == applied(outs.take(i as int), games@, st0, h0),
    {
        proof {
            lemma_fit_prefix(outs, games@, st0, h0, i + 1);
            assert(outs.take(i + 1).drop_last() == outs.take(i as int));
            assert(outs.take(i + 1).last() == outs[i as int]);
        }
        let (gi, outcome) = game_outcomes[i];
        let game = games[gi];
        let (winner, loser) = match outcome {
            GameOutcome::HomeWin => (game.home, game.away),
            GameOutcome::AwayWin => (game.away, game.home),
            _ => {
                let info = game.h2h_info.unwrap();
                (info.first_loser, info.first_winner)
            },
        };
        proof {
            lemma_listed_kept(stats@, winner, loser);
        }
        credit_win_exec(&mut stats, winner);
        credit_loss_exec(&mut stats, loser);
        h2h_state.apply_game(&game, outcome);
    }
    assert(outs.take(outs.len() as int) == outs);
    let ghost st = stats@;
    let ghost h = h2h_state.records@;
    let wi = win_keyed(&stats);
    let groups = group_desc(&wi);
    let ghost gv = views(groups@);
    proof {
        lemma_groups(wi@);
        lemma_teams_of(wi@);
        broadcast use vstd::seq_lib::group_to_multiset_ensures;
        assert(concat_all(gv).to_multiset().len() == teams_of(wi@).to_multiset().len());
    }
    let mut tb = TableBuild {
        standings: Vec::new(),
        red_min: 0,
        red_max: 0,
        has_unresolved_red: false,
        unresolved_info: Vec::new(),
        tied_with: Vec::new(),
    };
    assert(texts(tb.unresolved_info@) == Seq::<Seq<char>>::empty());
    for gi in 0..groups.len()
        invariant
            gv == views(groups@),
            gv == groups_desc(win_items(st)),
            concat_all(gv).len() == 20,
            st == stats@,
            h == h2h_state.records@,
            every_club_listed(st),
            tb.model() == place_all(empty_table(), gv.take(gi as int), st, h),
    {
        proof {
            lemma_place_all_size(empty_table(), gv.take(gi as int), st, h);
            assert(gv.take(gi + 1).drop_last() == gv.take(gi as int));
            assert(gv == gv.take(gi + 1) + gv.skip(gi + 1));
            lemma_concat_append(gv.take(gi + 1), gv.skip(gi + 1));
            assert(gv[gi as int] == groups@[gi as int]@);
        }
        place_group_exec(&mut tb, &groups[gi], &stats, &h2h_state);
    }
    assert(gv.take(groups@.len() as int) == gv);
    let red_position = if tb.red_min == tb.red_max { tb.red_min } else { 0 };
    ScenarioResult {
        standings: tb.standings,
        red_position,
        red_min: tb.red_min,
        red_max: tb.red_max,
        has_unresolved_red: tb.has_unresolved_red,
        unresolved_info: tb.unresolved_info,
        tied_with: tb.tied_with,
    }
}

} // verus!
