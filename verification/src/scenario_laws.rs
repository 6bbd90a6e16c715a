//! What every scenario table keeps: no club is placed twice, and every club
//! exactly once unless a broken tie leaves clubs out; the clubs come in order
//! of wins; the followed club has a place whenever the table holds it; and
//! what is reported of it agrees with the table.

use vstd::prelude::*;
use crate::team::{Team, ALL_TEAMS, team_at};
use crate::types::{TeamStats, H2HRecord, RemainingGame, GameOutcome};
use crate::grouping::{
    groups_desc, keys_desc, concat_all, teams_of, lemma_groups, lemma_teams_of,
    lemma_group_member,
};
use crate::tiebreak::{SlotModel, TieModel, tie_spec, stat};
use crate::tiebreak_laws::{slot_teams, slots_teams, law_tie_keeps_clubs, ties_wide, within, tie_drops};
use crate::scenario::{
    TableModel, place_slot, place_slots, place_group, place_all, sorted_by_standing, win_items,
    scenario_table, applied, stats_table, empty_table, lemma_sorted_by_standing, followed,
    without, pos_of, lemma_place_slots_size, lemma_place_all_size, groups_drop, scenario_drops,
};

verus! {

broadcast use vstd::seq_lib::group_to_multiset_ensures, vstd::multiset::group_multiset_axioms;

/// The clubs that placing added after those already placed.
pub open spec fn added(before: TableModel, after: TableModel) -> Seq<Team> {
    after.standings.skip(before.standings.len() as int)
}

/// Whether placing kept the clubs already placed in their places.
pub open spec fn extends(before: TableModel, after: TableModel) -> bool {
    &&& before.standings.len() <= after.standings.len()
    &&& after.standings.take(before.standings.len() as int) == before.standings
}

proof fn lemma_extends_trans(a: TableModel, b: TableModel, c: TableModel)
    requires
        extends(a, b),
        extends(b, c),
    ensures
        extends(a, c),
        added(a, c) == added(a, b) + added(b, c),
{
    assert(c.standings.take(a.standings.len() as int) =~= b.standings.take(a.standings.len() as int));
    assert(added(a, c) =~= added(a, b) + added(b, c));
}

proof fn lemma_extends_append(a: TableModel, b: TableModel, x: Seq<Team>)
    requires
        b.standings == a.standings + x,
    ensures
        extends(a, b),
        added(a, b) == x,
{
    assert(b.standings.take(a.standings.len() as int) =~= a.standings);
    assert(added(a, b) =~= x);
}

proof fn lemma_place_slot_extends(acc: TableModel, slot: SlotModel, red_in: bool, st: Map<u32, TeamStats>)
    ensures
        extends(acc, place_slot(acc, slot, red_in, st)),
        added(acc, place_slot(acc, slot, red_in, st)).to_multiset() == slot_teams(slot).to_multiset(),
{
    let b = place_slot(acc, slot, red_in, st);
    match slot {
        SlotModel::Resolved(t) => {
            assert(acc.standings.push(t) =~= acc.standings + seq![t]);
            lemma_extends_append(acc, b, seq![t]);
        },
        SlotModel::Tied(ts, info) => {
            lemma_extends_append(acc, b, sorted_by_standing(ts, st));
            lemma_sorted_by_standing(ts, st);
        },
    }
}

proof fn lemma_place_slots_extends(acc: TableModel, ss: Seq<SlotModel>, red_in: bool, st: Map<u32, TeamStats>)
    ensures
        extends(acc, place_slots(acc, ss, red_in, st)),
        added(acc, place_slots(acc, ss, red_in, st)).to_multiset() == slots_teams(ss).to_multiset(),
    decreases ss.len(),
{
    if ss.len() == 0 {
        lemma_extends_append(acc, acc, seq![]);
        assert(acc.standings + Seq::<Team>::empty() == acc.standings);
    } else {
        let mid = place_slots(acc, ss.drop_last(), red_in, st);
        lemma_place_slots_extends(acc, ss.drop_last(), red_in, st);
        lemma_place_slot_extends(mid, ss.last(), red_in, st);
        lemma_extends_trans(acc, mid, place_slots(acc, ss, red_in, st));
        vstd::seq_lib::lemma_multiset_commutative(added(acc, mid), added(mid, place_slots(acc, ss, red_in, st)));
        vstd::seq_lib::lemma_multiset_commutative(slots_teams(ss.drop_last()), slot_teams(ss.last()));
    }
}

proof fn lemma_place_group_extends(acc: TableModel, g: Seq<Team>, st: Map<u32, TeamStats>, h: Map<u32, H2HRecord>)
    ensures
        extends(acc, place_group(acc, g, st, h)),
        within(added(acc, place_group(acc, g, st, h)), g),
        !tie_drops(g, st, h) ==> added(acc, place_group(acc, g, st, h)).to_multiset() == g.to_multiset(),
        tie_drops(g, st, h) ==> added(acc, place_group(acc, g, st, h)).len() < g.len(),
{
    let b = place_group(acc, g, st, h);
    if g.len() == 1 {
        assert(acc.standings.push(g[0]) =~= acc.standings + seq![g[0]]);
        lemma_extends_append(acc, b, seq![g[0]]);
        assert(g =~= seq![g[0]]);
        assert(!tie_drops(g, st, h));
    } else {
        law_tie_keeps_clubs(g, st, h);
        match tie_spec(g, st, h) {
            TieModel::Resolved(o) => {
                lemma_extends_append(acc, b, o);
            },
            TieModel::Unresolved(ss) => {
                lemma_place_slots_extends(acc, ss, g.contains(followed()), st);
                lemma_place_slots_size(acc, ss, g.contains(followed()), st);
                assert(added(acc, b).to_multiset() == slots_teams(ss).to_multiset());
            },
        }
    }
}

/// Placing groups keeps the clubs placed before and adds clubs of the
/// groups, each at most as often as the groups hold it: all of them, each as
/// often, unless breaking the tie of a group leaves out a club, when fewer.
pub proof fn lemma_place_all_extends(acc: TableModel, gs: Seq<Seq<Team>>, st: Map<u32, TeamStats>, h: Map<u32, H2HRecord>)
    ensures
        extends(acc, place_all(acc, gs, st, h)),
        within(added(acc, place_all(acc, gs, st, h)), concat_all(gs)),
        added(acc, place_all(acc, gs, st, h)).len() <= concat_all(gs).len(),
        !groups_drop(gs, st, h) ==> added(acc, place_all(acc, gs, st, h)).to_multiset() == concat_all(gs).to_multiset(),
        groups_drop(gs, st, h) ==> added(acc, place_all(acc, gs, st, h)).len() < concat_all(gs).len(),
    decreases gs.len(),
{
    if gs.len() == 0 {
        lemma_extends_append(acc, acc, seq![]);
        assert(acc.standings + Seq::<Team>::empty() == acc.standings);
        assert(concat_all(gs) == Seq::<Team>::empty());
        assert(within(Seq::<Team>::empty(), Seq::<Team>::empty()));
    } else {
        let mid = place_all(acc, gs.drop_last(), st, h);
        let fin = place_all(acc, gs, st, h);
        lemma_place_all_extends(acc, gs.drop_last(), st, h);
        lemma_place_group_extends(mid, gs.last(), st, h);
        lemma_extends_trans(acc, mid, fin);
        lemma_place_all_size(acc, gs, st, h);
        assert(concat_all(gs) == concat_all(gs.drop_last()) + gs.last());
        vstd::seq_lib::lemma_multiset_commutative(added(acc, mid), added(mid, fin));
        vstd::seq_lib::lemma_multiset_commutative(concat_all(gs.drop_last()), gs.last());
        assert forall|v: Team| added(acc, fin).to_multiset().count(v) <= concat_all(gs).to_multiset().count(v) by {
            assert(added(acc, mid).to_multiset().count(v) <= concat_all(gs.drop_last()).to_multiset().count(v));
            assert(added(mid, fin).to_multiset().count(v) <= gs.last().to_multiset().count(v));
        }
        if groups_drop(gs, st, h) {
            assert(added(mid, fin).len() <= gs.last().len()) by {
                if !tie_drops(gs.last(), st, h) {
                    assert(added(mid, fin).to_multiset().len() == gs.last().to_multiset().len());
                }
            }
        }
    }
}


// ---------------------------------------------------------------------------
// Every club, at most once
// ---------------------------------------------------------------------------

proof fn lemma_all_teams_distinct()
    ensures
        ALL_TEAMS@.len() == 20,
        ALL_TEAMS@.no_duplicates(),
        forall|i: int| 0 <= i < 20 ==> #[trigger] ALL_TEAMS@[i] == team_at(i),
{
    assert forall|i: int| 0 <= i < 20 implies #[trigger] ALL_TEAMS@[i] == team_at(i) && team_at(i).ord_index() == i by {
    }
    assert forall|i: int, j: int| 0 <= i < ALL_TEAMS@.len() && 0 <= j < ALL_TEAMS@.len() && i != j
        implies ALL_TEAMS@[i] != ALL_TEAMS@[j] by {
        assert(ALL_TEAMS@[i] == team_at(i) && team_at(i).ord_index() == i);
        assert(ALL_TEAMS@[j] == team_at(j) && team_at(j).ord_index() == j);
    }
    assert(ALL_TEAMS@.no_duplicates());
}

proof fn lemma_win_groups(st: Map<u32, TeamStats>)
    ensures
        teams_of(win_items(st)) == ALL_TEAMS@,
        concat_all(groups_desc(win_items(st))).to_multiset() == ALL_TEAMS@.to_multiset(),
{
    let wi = win_items(st);
    lemma_groups(wi);
    lemma_teams_of(wi);
    assert(teams_of(wi) =~= ALL_TEAMS@);
}

/// The table of a scenario places no club twice. It places every club
/// exactly once (its standings are an ordering of the twenty clubs) unless
/// breaking the tie of a group of clubs level on wins leaves out a club
/// (`scenario_drops`), when it holds fewer than twenty clubs.
pub proof fn law_scenario_places_each_club_once(
    outs: Seq<(usize, GameOutcome)>,
    games: Seq<RemainingGame>,
    base: Seq<TeamStats>,
    h0: Map<u32, H2HRecord>,
)
    ensures
        scenario_table(outs, games, base, h0).standings.to_multiset().subset_of(ALL_TEAMS@.to_multiset()),
        scenario_table(outs, games, base, h0).standings.len() <= 20,
        !scenario_drops(outs, games, base, h0)
            ==> scenario_table(outs, games, base, h0).standings.to_multiset() == ALL_TEAMS@.to_multiset(),
        !scenario_drops(outs, games, base, h0) ==> scenario_table(outs, games, base, h0).standings.len() == 20,
        scenario_drops(outs, games, base, h0) ==> scenario_table(outs, games, base, h0).standings.len() < 20,
{
    let fin = applied(outs, games, stats_table(base), h0);
    let st = fin.0;
    let wi = win_items(st);
    let gs = groups_desc(wi);
    let m = scenario_table(outs, games, base, h0);
    lemma_win_groups(st);
    lemma_place_all_extends(empty_table(), gs, st, fin.1);
    assert(added(empty_table(), m) == m.standings);
    lemma_all_teams_distinct();
    assert(concat_all(gs).len() == 20) by {
        assert(concat_all(gs).to_multiset().len() == ALL_TEAMS@.to_multiset().len());
    }
    if !scenario_drops(outs, games, base, h0) {
        assert(m.standings.to_multiset().len() == ALL_TEAMS@.to_multiset().len());
    }
    assert forall|v: Team| m.standings.to_multiset().count(v) <= ALL_TEAMS@.to_multiset().count(v) by {
        assert(m.standings.to_multiset().count(v) <= concat_all(gs).to_multiset().count(v));
    }
}

// ---------------------------------------------------------------------------
// Order of wins
// ---------------------------------------------------------------------------

/// Whether the clubs come in order of wins, most first.
pub open spec fn wins_ordered(ts: Seq<Team>, st: Map<u32, TeamStats>) -> bool {
    forall|i: int, j: int| 0 <= i < j < ts.len() ==> stat(st, #[trigger] ts[i]).wins >= stat(st, #[trigger] ts[j]).wins
}

proof fn lemma_win_member(st: Map<u32, TeamStats>, n: int, x: Team)
    requires
        0 <= n < groups_desc(win_items(st)).len(),
        groups_desc(win_items(st))[n].contains(x),
    ensures
        stat(st, x).wins as i128 == keys_desc(win_items(st))[n],
{
    let wi = win_items(st);
    let g = groups_desc(wi)[n];
    let j = choose|j: int| 0 <= j < g.len() && g[j] == x;
    lemma_group_member(wi, n, j);
    let p = choose|p: int| 0 <= p < wi.len() && #[trigger] wi[p] == (x, keys_desc(wi)[n]);
}

proof fn lemma_order_prefix(st: Map<u32, TeamStats>, h: Map<u32, H2HRecord>, n: int)
    requires
        0 <= n <= groups_desc(win_items(st)).len(),
    ensures
        wins_ordered(place_all(empty_table(), groups_desc(win_items(st)).take(n), st, h).standings, st),
        n > 0 ==> forall|i: int| 0 <= i < place_all(empty_table(), groups_desc(win_items(st)).take(n), st, h).standings.len()
            ==> stat(st, #[trigger] place_all(empty_table(), groups_desc(win_items(st)).take(n), st, h).standings[i]).wins
                >= keys_desc(win_items(st))[n - 1],
    decreases n,
{
    let wi = win_items(st);
    let gs = groups_desc(wi);
    let ks = keys_desc(wi);
    lemma_groups(wi);
    if n == 0 {
        assert(gs.take(0) == Seq::<Seq<Team>>::empty());
    } else {
        lemma_order_prefix(st, h, n - 1);
        let prev = place_all(empty_table(), gs.take(n - 1), st, h);
        assert(gs.take(n).drop_last() == gs.take(n - 1));
        assert(gs.take(n).last() == gs[n - 1]);
        let cur = place_all(empty_table(), gs.take(n), st, h);
        assert(cur == place_group(prev, gs[n - 1], st, h));
        lemma_place_group_extends(prev, gs[n - 1], st, h);
        let x = added(prev, cur);
        assert(cur.standings =~= prev.standings + x);
        assert forall|i: int| 0 <= i < x.len() implies stat(st, #[trigger] x[i]).wins == ks[n - 1] by {
            assert(x.contains(x[i]));
            assert(x.to_multiset().count(x[i]) > 0);
            assert(gs[n - 1].to_multiset().count(x[i]) > 0);
            lemma_win_member(st, n - 1, x[i]);
        }
        let t = cur.standings;
        let pl = prev.standings.len();
        assert forall|i: int| 0 <= i < t.len() implies stat(st, #[trigger] t[i]).wins >= ks[n - 1] by {
            if i < pl {
                assert(t[i] == prev.standings[i]);
                assert(ks[n - 2] > ks[n - 1]);
            } else {
                assert(t[i] == x[i - pl]);
            }
        }
        assert forall|i: int, j: int| 0 <= i < j < t.len() implies stat(st, #[trigger] t[i]).wins >= stat(st, #[trigger] t[j]).wins by {
            if j < pl {
                assert(t[i] == prev.standings[i]);
                assert(t[j] == prev.standings[j]);
            } else if i < pl {
                assert(t[i] == prev.standings[i]);
                assert(t[j] == x[j - pl]);
                assert(ks[n - 2] > ks[n - 1]);
            } else {
                assert(t[i] == x[i - pl]);
                assert(t[j] == x[j - pl]);
            }
        }
    }
}

/// The table of a scenario lists the clubs in order of their final wins,
/// most first.
pub proof fn law_scenario_ordered_by_wins(
    outs: Seq<(usize, GameOutcome)>,
    games: Seq<RemainingGame>,
    base: Seq<TeamStats>,
    h0: Map<u32, H2HRecord>,
)
    ensures
        wins_ordered(scenario_table(outs, games, base, h0).standings, applied(outs, games, stats_table(base), h0).0),
{
    let fin = applied(outs, games, stats_table(base), h0);
    let gs = groups_desc(win_items(fin.0));
    lemma_order_prefix(fin.0, fin.1, gs.len() as int);
    assert(gs.take(gs.len() as int) == gs);
}


// ---------------------------------------------------------------------------
// What is reported of the followed club
// ---------------------------------------------------------------------------

/// Whether what the table records of the followed club agrees with the
/// table: its range of places is not empty; the clubs it is tied with do not
/// include it; a decided place shows it; an open tie's range holds it.
pub open spec fn followed_consistent(m: TableModel) -> bool {
    &&& m.red_min <= m.red_max
    &&& !m.tied_with.contains(followed())
    &&& !m.has_unresolved_red ==> m.red_min == m.red_max
    &&& (!m.has_unresolved_red && m.red_min > 0) ==> (m.red_min <= m.standings.len()
        && m.standings[m.red_min - 1] == followed())
    &&& m.has_unresolved_red ==> (1 <= m.red_min && m.red_max <= m.standings.len()
        && exists|p: int| m.red_min - 1 <= p < m.red_max && #[trigger] m.standings[p] == followed())
}

proof fn lemma_without_excludes(ts: Seq<Team>, x: Team)
    ensures
        !without(ts, x).contains(x),
    decreases ts.len(),
{
    if ts.len() > 0 {
        lemma_without_excludes(ts.drop_last(), x);
        if ts.last() != x {
            let w = without(ts.drop_last(), x);
            assert forall|i: int| 0 <= i < w.push(ts.last()).len() implies w.push(ts.last())[i] != x by {
                if i < w.len() {
                    assert(w.push(ts.last())[i] == w[i]);
                }
            }
        }
    }
}

proof fn lemma_pos_of_props(ts: Seq<Team>, x: Team)
    ensures
        0 <= pos_of(ts, x) <= ts.len(),
        pos_of(ts, x) < ts.len() ==> ts[pos_of(ts, x)] == x,
        pos_of(ts, x) == ts.len() ==> !ts.contains(x),
    decreases ts.len(),
{
    if ts.len() > 0 {
        lemma_pos_of_props(ts.drop_last(), x);
        if pos_of(ts, x) == ts.len() {
            assert forall|i: int| 0 <= i < ts.len() implies ts[i] != x by {
                if i < ts.len() - 1 {
                    assert(ts[i] == ts.drop_last()[i]);
                }
            }
        }
    }
}

/// Keeping the facts already recorded when clubs are only added after.
proof fn lemma_consistent_extends(a: TableModel, b: TableModel)
    requires
        followed_consistent(a),
        extends(a, b),
        b.red_min == a.red_min,
        b.red_max == a.red_max,
        b.has_unresolved_red == a.has_unresolved_red,
        b.tied_with == a.tied_with,
    ensures
        followed_consistent(b),
{
    assert forall|p: int| 0 <= p < a.standings.len() implies #[trigger] b.standings[p] == a.standings[p] by {
        assert(b.standings.take(a.standings.len() as int)[p] == b.standings[p]);
    }
    if a.has_unresolved_red {
        let p = choose|p: int| a.red_min - 1 <= p < a.red_max && #[trigger] a.standings[p] == followed();
        assert(b.standings[p] == followed());
    }
    if !a.has_unresolved_red && a.red_min > 0 {
        assert(b.standings[a.red_min - 1] == followed());
    }
}

proof fn lemma_slot_consistent(acc: TableModel, slot: SlotModel, red_in: bool, st: Map<u32, TeamStats>)
    requires
        followed_consistent(acc),
        acc.standings.len() + slot_teams(slot).len() <= 20,
    ensures
        followed_consistent(place_slot(acc, slot, red_in, st)),
{
    let b = place_slot(acc, slot, red_in, st);
    let pos = acc.standings.len() + 1;
    lemma_place_slot_extends(acc, slot, red_in, st);
    match slot {
        SlotModel::Resolved(t) => {
            if red_in && t == followed() {
                assert(b.standings[pos - 1] == followed());
                if b.has_unresolved_red {
                    assert(b.standings[b.red_min - 1] == followed());
                }
            } else {
                lemma_consistent_extends(acc, b);
            }
        },
        SlotModel::Tied(ts, info) => {
            lemma_sorted_by_standing(ts, st);
            if red_in && ts.contains(followed()) {
                let sorted = sorted_by_standing(ts, st);
                assert(ts.to_multiset().count(followed()) > 0);
                assert(sorted.to_multiset().count(followed()) > 0);
                assert(sorted.contains(followed()));
                let q = choose|q: int| 0 <= q < sorted.len() && sorted[q] == followed();
                assert(b.standings == acc.standings + sorted);
                assert(b.standings[acc.standings.len() + q] == followed());
                lemma_without_excludes(ts, followed());
            } else {
                lemma_consistent_extends(acc, b);
            }
        },
    }
}

proof fn lemma_slots_consistent(acc: TableModel, ss: Seq<SlotModel>, red_in: bool, st: Map<u32, TeamStats>)
    requires
        followed_consistent(acc),
        acc.standings.len() + slots_teams(ss).len() <= 20,
    ensures
        followed_consistent(place_slots(acc, ss, red_in, st)),
    decreases ss.len(),
{
    if ss.len() > 0 {
        crate::scenario::lemma_slots_prefix_size(ss, ss.len() - 1);
        assert(ss.take(ss.len() - 1) == ss.drop_last());
        lemma_slots_consistent(acc, ss.drop_last(), red_in, st);
        lemma_place_slots_size(acc, ss.drop_last(), red_in, st);
        lemma_slot_consistent(place_slots(acc, ss.drop_last(), red_in, st), ss.last(), red_in, st);
    }
}

proof fn lemma_group_consistent(acc: TableModel, g: Seq<Team>, st: Map<u32, TeamStats>, h: Map<u32, H2HRecord>)
    requires
        followed_consistent(acc),
        acc.standings.len() + g.len() <= 20,
    ensures
        followed_consistent(place_group(acc, g, st, h)),
{
    let b = place_group(acc, g, st, h);
    let pos = acc.standings.len() + 1;
    lemma_place_group_extends(acc, g, st, h);
    if g.len() == 1 {
        if g[0] == followed() {
            assert(b.standings[pos - 1] == followed());
            if b.has_unresolved_red {
                assert(b.standings[b.red_min - 1] == followed());
            }
        } else {
            lemma_consistent_extends(acc, b);
        }
    } else {
        law_tie_keeps_clubs(g, st, h);
        match tie_spec(g, st, h) {
            TieModel::Resolved(o) => {
                let i = pos_of(o, followed());
                lemma_pos_of_props(o, followed());
                if i < o.len() {
                    assert(b.standings == acc.standings + o);
                    assert(b.standings[acc.standings.len() + i] == followed());
                    if b.has_unresolved_red {
                        assert(b.standings[b.red_min - 1] == followed());
                    }
                } else {
                    lemma_consistent_extends(acc, b);
                }
            },
            TieModel::Unresolved(ss) => {
                lemma_slots_consistent(acc, ss, g.contains(followed()), st);
            },
        }
    }
}

proof fn lemma_all_consistent(acc: TableModel, gs: Seq<Seq<Team>>, st: Map<u32, TeamStats>, h: Map<u32, H2HRecord>)
    requires
        followed_consistent(acc),
        acc.standings.len() + concat_all(gs).len() <= 20,
    ensures
        followed_consistent(place_all(acc, gs, st, h)),
    decreases gs.len(),
{
    if gs.len() > 0 {
        assert(concat_all(gs) == concat_all(gs.drop_last()) + gs.last());
        lemma_all_consistent(acc, gs.drop_last(), st, h);
        lemma_place_all_size(acc, gs.drop_last(), st, h);
        lemma_group_consistent(place_all(acc, gs.drop_last(), st, h), gs.last(), st, h);
    }
}

/// What the table of a scenario records of the followed club agrees with
/// the table: the range of its places is never empty, the clubs it is tied
/// with never include it, a decided place shows it there, and the range of
/// an open tie holds it.
pub proof fn law_scenario_followed_consistent(
    outs: Seq<(usize, GameOutcome)>,
    games: Seq<RemainingGame>,
    base: Seq<TeamStats>,
    h0: Map<u32, H2HRecord>,
)
    ensures
        followed_consistent(scenario_table(outs, games, base, h0)),
{
    let fin = applied(outs, games, stats_table(base), h0);
    let gs = groups_desc(win_items(fin.0));
    lemma_win_groups(fin.0);
    assert(concat_all(gs).to_multiset().len() == ALL_TEAMS@.to_multiset().len());
    assert(empty_table().tied_with.len() == 0);
    lemma_all_consistent(empty_table(), gs, fin.0, fin.1);
}


// ---------------------------------------------------------------------------
// The followed club has a place when the table holds it
// ---------------------------------------------------------------------------

/// Whether the followed club has a recorded place once it is in the table.
pub open spec fn followed_found(m: TableModel) -> bool {
    m.red_min >= 1 || !m.standings.contains(followed())
}

proof fn lemma_contains_add(a: Seq<Team>, b: Seq<Team>, x: Team)
    ensures
        (a + b).contains(x) ==> a.contains(x) || b.contains(x),
{
    if (a + b).contains(x) {
        let p = choose|p: int| 0 <= p < (a + b).len() && (a + b)[p] == x;
        if p < a.len() {
            assert(a[p] == x);
        } else {
            assert(b[p - a.len()] == x);
        }
    }
}

proof fn lemma_slots_found(acc: TableModel, ss: Seq<SlotModel>, red_in: bool, st: Map<u32, TeamStats>)
    requires
        followed_found(acc),
        slots_teams(ss).contains(followed()) ==> red_in,
        acc.standings.len() + slots_teams(ss).len() <= 20,
    ensures
        followed_found(place_slots(acc, ss, red_in, st)),
    decreases ss.len(),
{
    if ss.len() > 0 {
        let init = ss.drop_last();
        let slot = ss.last();
        assert(ss == init.push(slot));
        assert(slots_teams(ss) == slots_teams(init) + slot_teams(slot));
        if slots_teams(init).contains(followed()) {
            let p = choose|p: int| 0 <= p < slots_teams(init).len() && slots_teams(init)[p] == followed();
            assert(slots_teams(ss)[p] == followed());
        }
        crate::scenario::lemma_slots_prefix_size(ss, ss.len() - 1);
        assert(ss.take(ss.len() - 1) == init);
        lemma_slots_found(acc, init, red_in, st);
        lemma_place_slots_size(acc, init, red_in, st);
        let mid = place_slots(acc, init, red_in, st);
        assert(mid.standings.len() <= 20);
        let b = place_slot(mid, slot, red_in, st);
        if slot_teams(slot).contains(followed()) {
            let q = choose|q: int| 0 <= q < slot_teams(slot).len() && slot_teams(slot)[q] == followed();
            assert(slots_teams(ss)[slots_teams(init).len() + q] == followed());
        }
        match slot {
            SlotModel::Resolved(t) => {
                if mid.red_min < 1 && t != followed() {
                    lemma_contains_add(mid.standings, seq![t], followed());
                    assert(mid.standings.push(t) == mid.standings + seq![t]);
                }
                if t == followed() {
                    assert(slot_teams(slot)[0] == followed());
                }
            },
            SlotModel::Tied(ts, info) => {
                if !(red_in && ts.contains(followed())) && mid.red_min < 1 {
                    lemma_sorted_by_standing(ts, st);
                    let sorted = sorted_by_standing(ts, st);
                    if sorted.contains(followed()) {
                        assert(sorted.to_multiset().count(followed()) > 0);
                        assert(ts.to_multiset().count(followed()) > 0);
                    }
                    lemma_contains_add(mid.standings, sorted, followed());
                }
            },
        }
    }
}

proof fn lemma_group_found(acc: TableModel, g: Seq<Team>, st: Map<u32, TeamStats>, h: Map<u32, H2HRecord>)
    requires
        followed_found(acc),
        acc.standings.len() + g.len() <= 20,
    ensures
        followed_found(place_group(acc, g, st, h)),
{
    let b = place_group(acc, g, st, h);
    if g.len() == 1 {
        if acc.red_min < 1 && g[0] != followed() {
            lemma_contains_add(acc.standings, seq![g[0]], followed());
            assert(acc.standings.push(g[0]) == acc.standings + seq![g[0]]);
        }
    } else {
        law_tie_keeps_clubs(g, st, h);
        match tie_spec(g, st, h) {
            TieModel::Resolved(o) => {
                lemma_pos_of_props(o, followed());
                if acc.red_min < 1 {
                    lemma_contains_add(acc.standings, o, followed());
                }
            },
            TieModel::Unresolved(ss) => {
                if slots_teams(ss).contains(followed()) {
                    assert(slots_teams(ss).to_multiset().count(followed()) > 0);
                    assert(g.to_multiset().count(followed()) > 0);
                }
                lemma_slots_found(acc, ss, g.contains(followed()), st);
            },
        }
    }
}

proof fn lemma_all_found(acc: TableModel, gs: Seq<Seq<Team>>, st: Map<u32, TeamStats>, h: Map<u32, H2HRecord>)
    requires
        followed_found(acc),
        acc.standings.len() + concat_all(gs).len() <= 20,
    ensures
        followed_found(place_all(acc, gs, st, h)),
    decreases gs.len(),
{
    if gs.len() > 0 {
        assert(concat_all(gs) == concat_all(gs.drop_last()) + gs.last());
        lemma_all_found(acc, gs.drop_last(), st, h);
        lemma_place_all_size(acc, gs.drop_last(), st, h);
        lemma_group_found(place_all(acc, gs.drop_last(), st, h), gs.last(), st, h);
    }
}

/// The followed club has a place in the table of a scenario whenever the
/// table holds it, which it does unless a club is left out
/// (`scenario_drops`): its lowest place is then at least 1. Its lowest and
/// highest places never exceed 20, the lowest first.
pub proof fn law_scenario_followed_placed(
    outs: Seq<(usize, GameOutcome)>,
    games: Seq<RemainingGame>,
    base: Seq<TeamStats>,
    h0: Map<u32, H2HRecord>,
)
    ensures
        scenario_table(outs, games, base, h0).standings.contains(followed())
            ==> 1 <= scenario_table(outs, games, base, h0).red_min,
        !scenario_drops(outs, games, base, h0) ==> 1 <= scenario_table(outs, games, base, h0).red_min,
        scenario_table(outs, games, base, h0).red_min <= scenario_table(outs, games, base, h0).red_max,
        scenario_table(outs, games, base, h0).red_max <= 20,
{
    let fin = applied(outs, games, stats_table(base), h0);
    let gs = groups_desc(win_items(fin.0));
    let m = scenario_table(outs, games, base, h0);
    assert(empty_table().standings.len() == 0);
    lemma_win_groups(fin.0);
    assert(concat_all(gs).to_multiset().len() == ALL_TEAMS@.to_multiset().len());
    lemma_all_found(empty_table(), gs, fin.0, fin.1);
    law_scenario_places_each_club_once(outs, games, base, h0);
    law_scenario_followed_consistent(outs, games, base, h0);
    lemma_all_teams_distinct();
    if !scenario_drops(outs, games, base, h0) {
        assert(ALL_TEAMS@[9] == followed());
        assert(ALL_TEAMS@.to_multiset().count(followed()) > 0);
        assert(m.standings.to_multiset().count(followed()) > 0);
        assert(m.standings.contains(followed()));
    }
}


// ---------------------------------------------------------------------------
// An open tie of the followed club spans two places or more
// ---------------------------------------------------------------------------

/// How often the followed club appears in the table.
pub open spec fn followed_count(m: TableModel) -> nat {
    m.standings.to_multiset().count(followed())
}

/// Whether an open tie recorded for the followed club holds it and spans
/// two places or more, unless the club was placed again afterwards.
pub open spec fn open_tie_wide(m: TableModel) -> bool {
    m.has_unresolved_red ==> followed_count(m) >= 1 && (m.red_min < m.red_max || followed_count(m) >= 2)
}

proof fn lemma_count_add(a: Seq<Team>, b: Seq<Team>)
    ensures
        (a + b).to_multiset().count(followed()) == a.to_multiset().count(followed()) + b.to_multiset().count(followed()),
{
    vstd::seq_lib::lemma_multiset_commutative(a, b);
}

proof fn lemma_slot_wide(acc: TableModel, slot: SlotModel, red_in: bool, st: Map<u32, TeamStats>)
    requires
        open_tie_wide(acc),
        acc.standings.len() + slot_teams(slot).len() <= 20,
        slot is Tied ==> slot->Tied_0.len() >= 2,
    ensures
        open_tie_wide(place_slot(acc, slot, red_in, st)),
        followed_count(place_slot(acc, slot, red_in, st)) >= followed_count(acc),
{
    let b = place_slot(acc, slot, red_in, st);
    match slot {
        SlotModel::Resolved(t) => {
            assert(acc.standings.push(t) == acc.standings + seq![t]);
            lemma_count_add(acc.standings, seq![t]);
            if t == followed() {
                assert(seq![t].to_multiset().count(followed()) == 1);
            }
        },
        SlotModel::Tied(ts, info) => {
            let sorted = sorted_by_standing(ts, st);
            lemma_sorted_by_standing(ts, st);
            lemma_count_add(acc.standings, sorted);
            if red_in && ts.contains(followed()) {
                assert(ts.to_multiset().count(followed()) > 0);
            }
        },
    }
}

proof fn lemma_slots_wide(acc: TableModel, ss: Seq<SlotModel>, red_in: bool, st: Map<u32, TeamStats>)
    requires
        open_tie_wide(acc),
        acc.standings.len() + slots_teams(ss).len() <= 20,
        ties_wide(ss),
    ensures
        open_tie_wide(place_slots(acc, ss, red_in, st)),
        followed_count(place_slots(acc, ss, red_in, st)) >= followed_count(acc),
    decreases ss.len(),
{
    if ss.len() > 0 {
        let init = ss.drop_last();
        crate::scenario::lemma_slots_prefix_size(ss, ss.len() - 1);
        assert(ss.take(ss.len() - 1) == init);
        assert forall|i: int| 0 <= i < init.len() && (#[trigger] init[i]) is Tied implies init[i]->Tied_0.len() >= 2 by {
            assert(init[i] == ss[i]);
        }
        lemma_slots_wide(acc, init, red_in, st);
        lemma_place_slots_size(acc, init, red_in, st);
        assert(ss[ss.len() - 1] == ss.last());
        lemma_slot_wide(place_slots(acc, init, red_in, st), ss.last(), red_in, st);
    }
}

proof fn lemma_group_wide(acc: TableModel, g: Seq<Team>, st: Map<u32, TeamStats>, h: Map<u32, H2HRecord>)
    requires
        open_tie_wide(acc),
        acc.standings.len() + g.len() <= 20,
    ensures
        open_tie_wide(place_group(acc, g, st, h)),
        followed_count(place_group(acc, g, st, h)) >= followed_count(acc),
{
    if g.len() == 1 {
        assert(acc.standings.push(g[0]) == acc.standings + seq![g[0]]);
        lemma_count_add(acc.standings, seq![g[0]]);
        if g[0] == followed() {
            assert(seq![g[0]].to_multiset().count(followed()) == 1);
        }
    } else {
        law_tie_keeps_clubs(g, st, h);
        match tie_spec(g, st, h) {
            TieModel::Resolved(o) => {
                lemma_count_add(acc.standings, o);
                lemma_pos_of_props(o, followed());
                if pos_of(o, followed()) < o.len() {
                    assert(o.contains(followed()));
                    assert(o.to_multiset().count(followed()) > 0);
                }
            },
            TieModel::Unresolved(ss) => {
                lemma_slots_wide(acc, ss, g.contains(followed()), st);
            },
        }
    }
}

proof fn lemma_all_wide(acc: TableModel, gs: Seq<Seq<Team>>, st: Map<u32, TeamStats>, h: Map<u32, H2HRecord>)
    requires
        open_tie_wide(acc),
        acc.standings.len() + concat_all(gs).len() <= 20,
    ensures
        open_tie_wide(place_all(acc, gs, st, h)),
    decreases gs.len(),
{
    if gs.len() > 0 {
        assert(concat_all(gs) == concat_all(gs.drop_last()) + gs.last());
        lemma_all_wide(acc, gs.drop_last(), st, h);
        lemma_place_all_size(acc, gs.drop_last(), st, h);
        lemma_group_wide(place_all(acc, gs.drop_last(), st, h), gs.last(), st, h);
    }
}

/// The followed club's tie is open exactly when its places form a range of
/// two or more.
pub proof fn law_scenario_open_tie_wide(
    outs: Seq<(usize, GameOutcome)>,
    games: Seq<RemainingGame>,
    base: Seq<TeamStats>,
    h0: Map<u32, H2HRecord>,
)
    ensures
        scenario_table(outs, games, base, h0).has_unresolved_red
            == (scenario_table(outs, games, base, h0).red_min < scenario_table(outs, games, base, h0).red_max),
{
    let fin = applied(outs, games, stats_table(base), h0);
    let gs = groups_desc(win_items(fin.0));
    let m = scenario_table(outs, games, base, h0);
    lemma_win_groups(fin.0);
    assert(concat_all(gs).to_multiset().len() == ALL_TEAMS@.to_multiset().len());
    assert(empty_table().standings.len() == 0);
    lemma_all_wide(empty_table(), gs, fin.0, fin.1);
    law_scenario_places_each_club_once(outs, games, base, h0);
    law_scenario_followed_consistent(outs, games, base, h0);
    lemma_all_teams_distinct();
    ALL_TEAMS@.lemma_multiset_has_no_duplicates();
    assert(ALL_TEAMS@[9] == followed());
    assert(ALL_TEAMS@.to_multiset().count(followed()) == 1);
    assert(followed_count(m) <= 1);
}

} // verus!
