//! The tie-break rules: how clubs level on wins are ordered. Two clubs that
//! met twice are split by their head-to-head wins, then by head-to-head point
//! difference; otherwise by overall point difference, then by points scored.
//! A larger group that met in full is split by the mini-league of its
//! head-to-head games, each smaller group being broken again; a group that
//! did not meet in full cannot be ordered yet. A mini-league that splits
//! nothing falls back to overall point difference and points scored.

use vstd::prelude::*;
use std::collections::HashMap;
use crate::team::Team;
use crate::types::{TeamStats, H2HRecord};
use crate::h2h::{H2HState, wins_of, diff_of, complete_of};
use crate::text::{int_text, push_int, join_text, lemma_join_push};
use crate::tiebreak_laws::{model_teams, law_tie_keeps_clubs, tie_drops};
use crate::grouping::{
    groups_desc, concat_all, views, has_item, group_desc, sort_desc, lemma_groups,
    lemma_group_member,
};

verus! {

/// One place, or a group of places, of a broken tie.
#[derive(Debug, Clone)]
pub enum TieSlot {
    /// A club whose place is decided.
    Resolved(Team),
    /// Clubs that the rules cannot order, with a note that says why.
    Tied(Vec<Team>, String),
}

impl TieSlot {
    /// The clubs of the slot, in order.
    pub fn teams(&self) -> (v: Vec<Team>)
        ensures
            v@ == match self@ {
                SlotModel::Resolved(t) => seq![t],
                SlotModel::Tied(ts, _) => ts,
            },
    {
        match self {
            TieSlot::Resolved(t) => vec![*t],
            TieSlot::Tied(ts, _) => copy_teams(ts.as_slice()),
        }
    }
}

/// The outcome of breaking a tie.
#[derive(Debug, Clone)]
pub enum TieResult {
    /// Every club's place is decided; best first.
    Resolved(Vec<Team>),
    /// Some clubs could not be ordered; best first.
    Unresolved { ordering: Vec<TieSlot> },
}

/// A slot of a broken tie, with the texts of its note.
pub enum SlotModel {
    Resolved(Team),
    Tied(Seq<Team>, Seq<char>),
}

/// The outcome of breaking a tie, as values.
pub enum TieModel {
    Resolved(Seq<Team>),
    Unresolved(Seq<SlotModel>),
}

impl View for TieSlot {
    type V = SlotModel;

    open spec fn view(&self) -> SlotModel {
        match self {
            TieSlot::Resolved(t) => SlotModel::Resolved(*t),
            TieSlot::Tied(ts, note) => SlotModel::Tied(ts@, note@),
        }
    }
}

/// The values of a sequence of slots.
pub open spec fn slot_views(v: Seq<TieSlot>) -> Seq<SlotModel> {
    v.map_values(|s: TieSlot| s@)
}

impl View for TieResult {
    type V = TieModel;

    open spec fn view(&self) -> TieModel {
        match self {
            TieResult::Resolved(ts) => TieModel::Resolved(ts@),
            TieResult::Unresolved { ordering } => TieModel::Unresolved(slot_views(ordering@)),
        }
    }
}

/// The key of a club in a table of club lines.
pub open spec fn stats_key(t: Team) -> u32 {
    t.ord_index() as u32
}

/// The line of a club in the table.
pub open spec fn stat(st: Map<u32, TeamStats>, t: Team) -> TeamStats {
    st[stats_key(t)]
}

/// Whether the table has a line for each of the clubs.
pub open spec fn has_stats(st: Map<u32, TeamStats>, teams: Seq<Team>) -> bool {
    forall|i: int| 0 <= i < teams.len() ==> #[trigger] st.contains_key(stats_key(teams[i]))
}

/// The note of two clubs that split their two games and their points.
pub open spec fn level_note(a: Team, da: i32, b: Team, db: i32) -> Seq<char> {
    "H2H 1-1 sa izjednacenom razlikom koseva. SLEDECI KRITERIJUM: ukupan koš-razlika ("@
        + a.code_text() + ": "@ + int_text(da as int) + ", "@ + b.code_text() + ": "@
        + int_text(db as int) + ")"@
}

/// The note of two clubs that did not meet twice and are level on point
/// difference and points scored.
pub open spec fn unmet_note(d: i32, pf: i32) -> Seq<char> {
    "Nisu se sreli 2x. Isti diff ("@ + int_text(d as int) + ") i pf ("@ + int_text(pf as int)
        + "). Neresivo."@
}

/// The rules for two clubs.
pub open spec fn two_spec(a: Team, b: Team, st: Map<u32, TeamStats>, h: Map<u32, H2HRecord>) -> TieModel {
    let sa = stat(st, a);
    let sb = stat(st, b);
    if complete_of(h, a, b) {
        let wa = wins_of(h, a, b);
        let wb = wins_of(h, b, a);
        let da = diff_of(h, a, b);
        let db = diff_of(h, b, a);
        if wa > wb {
            TieModel::Resolved(seq![a, b])
        } else if wb > wa {
            TieModel::Resolved(seq![b, a])
        } else if da > db {
            TieModel::Resolved(seq![a, b])
        } else if db > da {
            TieModel::Resolved(seq![b, a])
        } else {
            TieModel::Unresolved(seq![SlotModel::Tied(seq![a, b], level_note(a, sa.diff_reg, b, sb.diff_reg))])
        }
    } else if sa.diff_reg != sb.diff_reg {
        if sa.diff_reg > sb.diff_reg {
            TieModel::Resolved(seq![a, b])
        } else {
            TieModel::Resolved(seq![b, a])
        }
    } else if sa.pf_reg != sb.pf_reg {
        if sa.pf_reg > sb.pf_reg {
            TieModel::Resolved(seq![a, b])
        } else {
            TieModel::Resolved(seq![b, a])
        }
    } else {
        TieModel::Unresolved(seq![SlotModel::Tied(seq![a, b], unmet_note(sa.diff_reg, sa.pf_reg))])
    }
}

/// The line of a club, which the table must hold.
pub(crate) fn stats_of(standings: &HashMap<u32, TeamStats>, t: Team) -> (s: TeamStats)
    requires
        standings@.contains_key(stats_key(t)),
    ensures
        s == stat(standings@, t),
{
    *standings.get(&t.index()).unwrap()
}

fn make_level_note(a: Team, da: i32, b: Team, db: i32) -> (s: String)
    ensures
        s@ == level_note(a, da, b, db),
{
    let mut s = String::from_str("H2H 1-1 sa izjednacenom razlikom koseva. SLEDECI KRITERIJUM: ukupan koš-razlika (");
    s.append(a.code());
    s.append(": ");
    push_int(&mut s, da as i128);
    s.append(", ");
    s.append(b.code());
    s.append(": ");
    push_int(&mut s, db as i128);
    s.append(")");
    s
}

fn make_unmet_note(d: i32, pf: i32) -> (s: String)
    ensures
        s@ == unmet_note(d, pf),
{
    let mut s = String::from_str("Nisu se sreli 2x. Isti diff (");
    push_int(&mut s, d as i128);
    s.append(") i pf (");
    push_int(&mut s, pf as i128);
    s.append("). Neresivo.");
    s
}

fn resolve_two_teams(
    a: Team,
    b: Team,
    standings: &HashMap<u32, TeamStats>,
    h2h: &H2HState,
) -> (r: TieResult)
    requires
        two_lines_ok(a, b, standings@, h2h.records@),
    ensures
        r@ == two_spec(a, b, standings@, h2h.records@),
{
    if h2h.is_complete(a, b) {
        let wa = h2h.get_wins(a, b);
        let wb = h2h.get_wins(b, a);
        if wa > wb {
            return TieResult::Resolved(vec![a, b]);
        }
        if wb > wa {
            return TieResult::Resolved(vec![b, a]);
        }
        let da = h2h.get_diff(a, b);
        let db = h2h.get_diff(b, a);
        if da > db {
            return TieResult::Resolved(vec![a, b]);
        }
        if db > da {
            return TieResult::Resolved(vec![b, a]);
        }
        let sa = stats_of(standings, a);
        let sb = stats_of(standings, b);
        let ordering = vec![TieSlot::Tied(vec![a, b], make_level_note(a, sa.diff_reg, b, sb.diff_reg))];
        assert(slot_views(ordering@) == seq![SlotModel::Tied(seq![a, b], level_note(a, sa.diff_reg, b, sb.diff_reg))]);
        return TieResult::Unresolved { ordering };
    }
    let sa = stats_of(standings, a);
    let sb = stats_of(standings, b);
    if sa.diff_reg != sb.diff_reg {
        return if sa.diff_reg > sb.diff_reg {
            TieResult::Resolved(vec![a, b])
        } else {
            TieResult::Resolved(vec![b, a])
        };
    }
    if sa.pf_reg != sb.pf_reg {
        return if sa.pf_reg > sb.pf_reg {
            TieResult::Resolved(vec![a, b])
        } else {
            TieResult::Resolved(vec![b, a])
        };
    }
    let ordering = vec![TieSlot::Tied(vec![a, b], make_unmet_note(sa.diff_reg, sa.pf_reg))];
    assert(slot_views(ordering@) == seq![SlotModel::Tied(seq![a, b], unmet_note(sa.diff_reg, sa.pf_reg))]);
    TieResult::Unresolved { ordering }
}


// ---------------------------------------------------------------------------
// Groups of three or more clubs
// ---------------------------------------------------------------------------

/// Head-to-head wins of `t` against the other clubs of the group (each
/// occurrence of another club counted).
pub open spec fn wins_total(teams: Seq<Team>, h: Map<u32, H2HRecord>, t: Team) -> int
    decreases teams.len(),
{
    if teams.len() == 0 {
        0
    } else {
        wins_total(teams.drop_last(), h, t)
            + if teams.last() != t { wins_of(h, t, teams.last()) as int } else { 0 }
    }
}

/// Head-to-head point difference of `t` against the other clubs of the group.
pub open spec fn diff_total(teams: Seq<Team>, h: Map<u32, H2HRecord>, t: Team) -> int
    decreases teams.len(),
{
    if teams.len() == 0 {
        0
    } else {
        diff_total(teams.drop_last(), h, t)
            + if teams.last() != t { diff_of(h, t, teams.last()) as int } else { 0 }
    }
}

/// The clubs keyed by their mini-league wins.
pub open spec fn wins_items(teams: Seq<Team>, h: Map<u32, H2HRecord>) -> Seq<(Team, i128)> {
    Seq::new(teams.len(), |i: int| (teams[i], wins_total(teams, h, teams[i]) as i128))
}

/// The clubs keyed by their mini-league point difference.
pub open spec fn h2h_diff_items(teams: Seq<Team>, h: Map<u32, H2HRecord>) -> Seq<(Team, i128)> {
    Seq::new(teams.len(), |i: int| (teams[i], diff_total(teams, h, teams[i]) as i128))
}

/// The clubs keyed by their overall point difference.
pub open spec fn diff_items(teams: Seq<Team>, st: Map<u32, TeamStats>) -> Seq<(Team, i128)> {
    Seq::new(teams.len(), |i: int| (teams[i], stat(st, teams[i]).diff_reg as i128))
}

/// A key that orders lines by point difference, then by points scored.
pub open spec fn standing_key(s: TeamStats) -> i128 {
    (s.diff_reg as int * 4294967296 + s.pf_reg as int + 2147483648) as i128
}

/// The clubs keyed by point difference, then points scored.
pub open spec fn standing_items(teams: Seq<Team>, st: Map<u32, TeamStats>) -> Seq<(Team, i128)> {
    Seq::new(teams.len(), |i: int| (teams[i], standing_key(stat(st, teams[i]))))
}

/// Whether every two clubs of the group met twice.
pub open spec fn all_met(teams: Seq<Team>, h: Map<u32, H2HRecord>) -> bool {
    forall|i: int, j: int| 0 <= i < j < teams.len() ==> complete_of(h, #[trigger] teams[i], #[trigger] teams[j])
}

/// The text of a pair of clubs.
pub open spec fn pair_text(a: Team, b: Team) -> Seq<char> {
    a.code_text() + "-"@ + b.code_text()
}

/// The pairs of `a` with the clubs of `rest` that it has not met twice.
pub open spec fn pair_row(a: Team, rest: Seq<Team>, h: Map<u32, H2HRecord>) -> Seq<Seq<char>>
    decreases rest.len(),
{
    if rest.len() == 0 {
        seq![]
    } else if complete_of(h, a, rest.last()) {
        pair_row(a, rest.drop_last(), h)
    } else {
        pair_row(a, rest.drop_last(), h).push(pair_text(a, rest.last()))
    }
}

/// The pairs that have not met twice among the first `i` clubs and those
/// after them, each club with those after it.
pub open spec fn pairs_upto(ts: Seq<Team>, h: Map<u32, H2HRecord>, i: int) -> Seq<Seq<char>>
    decreases i,
{
    if i <= 0 {
        seq![]
    } else {
        pairs_upto(ts, h, i - 1) + pair_row(ts[i - 1], ts.skip(i), h)
    }
}

/// A club's line in the mini-table of a group that did not meet in full.
pub open spec fn mini_text(ts: Seq<Team>, st: Map<u32, TeamStats>, h: Map<u32, H2HRecord>, t: Team) -> Seq<char> {
    t.code_text() + "(h2h_w="@ + int_text(wins_total(ts, h, t)) + ",h2h_d="@
        + int_text(diff_total(ts, h, t)) + ",tot_d="@ + int_text(stat(st, t).diff_reg as int) + ")"@
}

/// The note of a group that did not meet in full.
pub open spec fn incomplete_note(ts: Seq<Team>, st: Map<u32, TeamStats>, h: Map<u32, H2HRecord>) -> Seq<char> {
    "Nisu se svi sreli 2x. Nepotpuni H2H parovi: ["@ + join_text(pairs_upto(ts, h, ts.len() as int), ", "@)
        + "]. Mini-tabela: "@
        + join_text(Seq::new(ts.len(), |i: int| mini_text(ts, st, h, ts[i])), ", "@)
}

/// A club's entry in the note of clubs level on difference and points.
pub open spec fn level_entry(st: Map<u32, TeamStats>, t: Team) -> Seq<char> {
    t.code_text() + "(d="@ + int_text(stat(st, t).diff_reg as int) + ",pf="@
        + int_text(stat(st, t).pf_reg as int) + ")"@
}

/// The note of clubs level on point difference and points scored.
pub open spec fn global_note(g: Seq<Team>, st: Map<u32, TeamStats>) -> Seq<char> {
    "Isti diff i pf: "@ + join_text(Seq::new(g.len(), |i: int| level_entry(st, g[i])), ", "@)
}



/// Slots that decide the places of the clubs, in order.
pub open spec fn resolved_slots(ts: Seq<Team>) -> Seq<SlotModel> {
    ts.map_values(|t: Team| SlotModel::Resolved(t))
}

/// The clubs keyed by points scored.
pub open spec fn pf_items(teams: Seq<Team>, st: Map<u32, TeamStats>) -> Seq<(Team, i128)> {
    Seq::new(teams.len(), |i: int| (teams[i], stat(st, teams[i]).pf_reg as i128))
}

/// The slot of a group of clubs level on point difference and points
/// scored: a club alone is placed, two or more stay tied with a note.
pub open spec fn level_slot(g: Seq<Team>, st: Map<u32, TeamStats>) -> SlotModel {
    if g.len() == 1 { SlotModel::Resolved(g[0]) } else { SlotModel::Tied(g, global_note(g, st)) }
}

/// Whether some group holds more or fewer than one club.
pub open spec fn any_wide(gs: Seq<Seq<Team>>) -> bool
    decreases gs.len(),
{
    gs.len() > 0 && (any_wide(gs.drop_last()) || gs.last().len() != 1)
}

/// The slots of groups of clubs level on points scored, in order, up to the
/// first group of two or more clubs: that group stays tied and ends the
/// list, the groups after it are left out.
pub open spec fn points_slots(pgs: Seq<Seq<Team>>, st: Map<u32, TeamStats>) -> Seq<SlotModel>
    decreases pgs.len(),
{
    if pgs.len() == 0 {
        seq![]
    } else if any_wide(pgs.drop_last()) {
        points_slots(pgs.drop_last(), st)
    } else {
        points_slots(pgs.drop_last(), st).push(level_slot(pgs.last(), st))
    }
}

/// Whether among the groups of clubs level on point difference some two
/// clubs are also level on points scored.
pub open spec fn any_level(dgs: Seq<Seq<Team>>, st: Map<u32, TeamStats>) -> bool
    decreases dgs.len(),
{
    dgs.len() > 0 && (any_level(dgs.drop_last(), st) || any_wide(groups_desc(pf_items(dgs.last(), st))))
}

/// The slots of the groups of clubs level on point difference, best first.
/// Until two clubs are found level on points scored too, each group is
/// ordered by points scored. The first clubs level on both stay tied, the
/// clubs of their group with fewer points are left out, and the groups of a
/// smaller point difference follow in the order given.
pub open spec fn diff_group_slots(dgs: Seq<Seq<Team>>, st: Map<u32, TeamStats>) -> Seq<SlotModel>
    decreases dgs.len(),
{
    if dgs.len() == 0 {
        seq![]
    } else {
        let prev = diff_group_slots(dgs.drop_last(), st);
        let g = dgs.last();
        if any_level(dgs.drop_last(), st) {
            prev + resolved_slots(g)
        } else {
            prev + points_slots(groups_desc(pf_items(g, st)), st)
        }
    }
}

/// Overall point difference, then points scored: the clubs are grouped by
/// point difference, best first, and placed by `diff_group_slots`; the
/// result is decided when no slot is tied.
pub open spec fn global_spec(teams: Seq<Team>, st: Map<u32, TeamStats>) -> TieModel {
    combine(diff_group_slots(groups_desc(diff_items(teams, st)), st))
}

/// The slots of the groups broken one by one: resolved if every slot is.
pub open spec fn combine(slots: Seq<SlotModel>) -> TieModel {
    if forall|i: int| 0 <= i < slots.len() ==> #[trigger] slots[i] is Resolved {
        TieModel::Resolved(slots.map_values(|s: SlotModel| s->Resolved_0))
    } else {
        TieModel::Unresolved(slots)
    }
}

/// The measure by which the recursion of the tie-break falls.
pub open spec fn depth_measure(depth: int) -> int {
    if depth <= 11 { 11 - depth } else { 0 }
}

/// The rules for a group, at a given depth of recursion.
pub open spec fn multi_spec(teams: Seq<Team>, st: Map<u32, TeamStats>, h: Map<u32, H2HRecord>, depth: int) -> TieModel
    decreases depth_measure(depth), 1int, 0int,
{
    if teams.len() <= 1 {
        TieModel::Resolved(teams)
    } else if teams.len() == 2 {
        two_spec(teams[0], teams[1], st, h)
    } else if depth > 10 {
        TieModel::Resolved(concat_all(groups_desc(diff_items(teams, st))))
    } else if !all_met(teams, h) {
        TieModel::Unresolved(seq![SlotModel::Tied(teams, incomplete_note(teams, st, h))])
    } else {
        let wg = groups_desc(wins_items(teams, h));
        if wg.len() > 1 {
            combine(slots_spec(wg, st, h, depth))
        } else {
            let dg = groups_desc(h2h_diff_items(teams, h));
            if dg.len() > 1 {
                combine(slots_spec(dg, st, h, depth))
            } else {
                global_spec(teams, st)
            }
        }
    }
}

/// The slots of groups broken one after the other, one level deeper.
pub open spec fn slots_spec(gs: Seq<Seq<Team>>, st: Map<u32, TeamStats>, h: Map<u32, H2HRecord>, depth: int) -> Seq<SlotModel>
    decreases depth_measure(depth), 0int, gs.len(),
{
    if gs.len() == 0 || depth > 10 {
        seq![]
    } else {
        let prev = slots_spec(gs.drop_last(), st, h, depth);
        let g = gs.last();
        if g.len() == 1 {
            prev.push(SlotModel::Resolved(g[0]))
        } else {
            match multi_spec(g, st, h, depth + 1) {
                TieModel::Resolved(o) => prev + resolved_slots(o),
                TieModel::Unresolved(o) => prev + o,
            }
        }
    }
}

/// The rules for a group of clubs level on wins.
pub open spec fn tie_spec(teams: Seq<Team>, st: Map<u32, TeamStats>, h: Map<u32, H2HRecord>) -> TieModel {
    if teams.len() <= 1 {
        TieModel::Resolved(teams)
    } else if teams.len() == 2 {
        two_spec(teams[0], teams[1], st, h)
    } else {
        multi_spec(teams, st, h, 0)
    }
}


/// Whether breaking the tie of two clubs reads their lines in the table:
/// always, unless they met twice and their series splits them.
pub open spec fn two_reads_lines(a: Team, b: Team, h: Map<u32, H2HRecord>) -> bool {
    !complete_of(h, a, b) || (wins_of(h, a, b) == wins_of(h, b, a) && diff_of(h, a, b) == diff_of(h, b, a))
}

/// Whether the table holds the lines that breaking the tie of two clubs reads.
pub open spec fn two_lines_ok(a: Team, b: Team, st: Map<u32, TeamStats>, h: Map<u32, H2HRecord>) -> bool {
    two_reads_lines(a, b, h) ==> st.contains_key(stats_key(a)) && st.contains_key(stats_key(b))
}

/// Whether the table holds the lines that the rules read for a group, at a
/// given depth of recursion: those of the whole group wherever the rules
/// look at point difference or points scored, or write a note of the group;
/// those that the smaller groups read where the mini-league splits it.
pub open spec fn multi_lines_ok(teams: Seq<Team>, st: Map<u32, TeamStats>, h: Map<u32, H2HRecord>, depth: int) -> bool
    decreases depth_measure(depth), 1int, 0int,
{
    if teams.len() <= 1 {
        true
    } else if teams.len() == 2 {
        two_lines_ok(teams[0], teams[1], st, h)
    } else if depth > 10 || !all_met(teams, h) {
        has_stats(st, teams)
    } else {
        let wg = groups_desc(wins_items(teams, h));
        if wg.len() > 1 {
            slots_lines_ok(wg, st, h, depth)
        } else {
            let dg = groups_desc(h2h_diff_items(teams, h));
            if dg.len() > 1 {
                slots_lines_ok(dg, st, h, depth)
            } else {
                has_stats(st, teams)
            }
        }
    }
}

/// Whether the table holds the lines that breaking each group of two or
/// more clubs reads, one level deeper.
pub open spec fn slots_lines_ok(gs: Seq<Seq<Team>>, st: Map<u32, TeamStats>, h: Map<u32, H2HRecord>, depth: int) -> bool
    decreases depth_measure(depth), 0int, gs.len(),
{
    if gs.len() == 0 || depth > 10 {
        true
    } else {
        slots_lines_ok(gs.drop_last(), st, h, depth)
            && (gs.last().len() == 1 || multi_lines_ok(gs.last(), st, h, depth + 1))
    }
}

/// Whether the table holds the lines that breaking the tie of the group
/// reads.
pub open spec fn tie_lines_ok(teams: Seq<Team>, st: Map<u32, TeamStats>, h: Map<u32, H2HRecord>) -> bool {
    if teams.len() <= 1 {
        true
    } else if teams.len() == 2 {
        two_lines_ok(teams[0], teams[1], st, h)
    } else {
        multi_lines_ok(teams, st, h, 0)
    }
}

proof fn lemma_slots_lines_at(gs: Seq<Seq<Team>>, st: Map<u32, TeamStats>, h: Map<u32, H2HRecord>, depth: int, i: int)
    requires
        slots_lines_ok(gs, st, h, depth),
        depth <= 10,
        0 <= i < gs.len(),
        gs[i].len() != 1,
    ensures
        multi_lines_ok(gs[i], st, h, depth + 1),
    decreases gs.len(),
{
    if i < gs.len() - 1 {
        assert(gs.drop_last()[i] == gs[i]);
        lemma_slots_lines_at(gs.drop_last(), st, h, depth, i);
    }
}

/// A table with the lines of the whole group holds every line the rules read.
pub proof fn lemma_lines_from_stats(teams: Seq<Team>, st: Map<u32, TeamStats>, h: Map<u32, H2HRecord>)
    requires
        has_stats(st, teams),
    ensures
        tie_lines_ok(teams, st, h),
{
    if teams.len() == 2 {
        assert(st.contains_key(stats_key(teams[0])));
        assert(st.contains_key(stats_key(teams[1])));
    } else if teams.len() > 2 {
        lemma_multi_lines_from_stats(teams, st, h, 0);
    }
}

proof fn lemma_multi_lines_from_stats(teams: Seq<Team>, st: Map<u32, TeamStats>, h: Map<u32, H2HRecord>, depth: int)
    requires
        has_stats(st, teams),
    ensures
        multi_lines_ok(teams, st, h, depth),
    decreases depth_measure(depth), 1int, 0int,
{
    if teams.len() == 2 {
        assert(st.contains_key(stats_key(teams[0])));
        assert(st.contains_key(stats_key(teams[1])));
    } else if teams.len() > 2 && depth <= 10 && all_met(teams, h) {
        let wi = wins_items(teams, h);
        let wg = groups_desc(wi);
        if wg.len() > 1 {
            assert forall|x: Team, k: i128| has_item(wi, x, k) implies teams.contains(x) by {
                lemma_wins_item(teams, h, x, k);
            }
            lemma_groups_have_stats(teams, st, wi);
            lemma_slots_lines_from_stats(wg, st, h, depth);
        } else {
            let di = h2h_diff_items(teams, h);
            let dg = groups_desc(di);
            if dg.len() > 1 {
                assert forall|x: Team, k: i128| has_item(di, x, k) implies teams.contains(x) by {
                    lemma_h2h_diff_item(teams, h, x, k);
                }
                lemma_groups_have_stats(teams, st, di);
                lemma_slots_lines_from_stats(dg, st, h, depth);
            }
        }
    }
}

proof fn lemma_slots_lines_from_stats(gs: Seq<Seq<Team>>, st: Map<u32, TeamStats>, h: Map<u32, H2HRecord>, depth: int)
    requires
        forall|i: int| 0 <= i < gs.len() ==> has_stats(st, #[trigger] gs[i]),
    ensures
        slots_lines_ok(gs, st, h, depth),
    decreases depth_measure(depth), 0int, gs.len(),
{
    if gs.len() > 0 && depth <= 10 {
        assert forall|i: int| 0 <= i < gs.drop_last().len() implies has_stats(st, #[trigger] gs.drop_last()[i]) by {
            assert(gs.drop_last()[i] == gs[i]);
        }
        lemma_slots_lines_from_stats(gs.drop_last(), st, h, depth);
        assert(has_stats(st, gs[gs.len() - 1]));
        lemma_multi_lines_from_stats(gs.last(), st, h, depth + 1);
    }
}

/// A copy of the clubs.
fn copy_teams(v: &[Team]) -> (r: Vec<Team>)
    ensures
        r@ == v@,
{
    let mut r: Vec<Team> = Vec::new();
    for i in 0..v.len()
        invariant
            r@ == v@.take(i as int),
    {
        r.push(v[i]);
        assert(v@.take(i + 1) == v@.take(i as int).push(v@[i as int]));
    }
    assert(v@.take(v@.len() as int) == v@);
    r
}

/// Mini-league wins and point difference of `t` within the group.
fn h2h_totals(teams: &[Team], h2h: &H2HState, t: Team) -> (r: (i128, i128))
    ensures
        r.0 == wins_total(teams@, h2h.records@, t),
        r.1 == diff_total(teams@, h2h.records@, t),
{
    let mut w: i128 = 0;
    let mut d: i128 = 0;
    let n = teams.len();
    for i in 0..n
        invariant
            n == teams@.len(),
            w == wins_total(teams@.take(i as int), h2h.records@, t),
            d == diff_total(teams@.take(i as int), h2h.records@, t),
            0 <= w <= i * 4294967295,
            -(i * 2147483648) <= d <= i * 2147483648,
    {
        assert(teams@.take(i + 1).drop_last() == teams@.take(i as int));
        let o = teams[i];
        if o != t {
            let gw = h2h.get_wins(t, o);
            let gd = h2h.get_diff(t, o);
            w = w + gw as i128;
            d = d + gd as i128;
        }
    }
    assert(teams@.take(n as int) == teams@);
    (w, d)
}

/// The group keyed by mini-league wins, and by mini-league point difference.
fn h2h_keyed(teams: &[Team], h2h: &H2HState) -> (r: (Vec<(Team, i128)>, Vec<(Team, i128)>))
    ensures
        r.0@ == wins_items(teams@, h2h.records@),
        r.1@ == h2h_diff_items(teams@, h2h.records@),
{
    let mut wi: Vec<(Team, i128)> = Vec::new();
    let mut di: Vec<(Team, i128)> = Vec::new();
    for i in 0..teams.len()
        invariant
            wi@ == wins_items(teams@, h2h.records@).take(i as int),
            di@ == h2h_diff_items(teams@, h2h.records@).take(i as int),
    {
        let t = teams[i];
        let (w, d) = h2h_totals(teams, h2h, t);
        wi.push((t, w));
        di.push((t, d));
        assert(wins_items(teams@, h2h.records@).take(i + 1)
            == wins_items(teams@, h2h.records@).take(i as int).push((t, w)));
        assert(h2h_diff_items(teams@, h2h.records@).take(i + 1)
            == h2h_diff_items(teams@, h2h.records@).take(i as int).push((t, d)));
    }
    assert(wins_items(teams@, h2h.records@).take(teams@.len() as int) == wins_items(teams@, h2h.records@));
    assert(h2h_diff_items(teams@, h2h.records@).take(teams@.len() as int) == h2h_diff_items(teams@, h2h.records@));
    (wi, di)
}

/// The group keyed by point difference, and by point difference then points.
pub(crate) fn standing_keyed(teams: &[Team], standings: &HashMap<u32, TeamStats>) -> (r: (Vec<(Team, i128)>, Vec<(Team, i128)>))
    requires
        has_stats(standings@, teams@),
    ensures
        r.0@ == diff_items(teams@, standings@),
        r.1@ == standing_items(teams@, standings@),
{
    let mut di: Vec<(Team, i128)> = Vec::new();
    let mut si: Vec<(Team, i128)> = Vec::new();
    for i in 0..teams.len()
        invariant
            has_stats(standings@, teams@),
            di@ == diff_items(teams@, standings@).take(i as int),
            si@ == standing_items(teams@, standings@).take(i as int),
    {
        let t = teams[i];
        assert(standings@.contains_key(stats_key(teams@[i as int])));
        let s = stats_of(standings, t);
        let dk = s.diff_reg as i128;
        let sk = s.diff_reg as i128 * 4294967296 + s.pf_reg as i128 + 2147483648;
        di.push((t, dk));
        si.push((t, sk));
        assert(diff_items(teams@, standings@).take(i + 1)
            == diff_items(teams@, standings@).take(i as int).push((t, dk)));
        assert(standing_items(teams@, standings@).take(i + 1)
            == standing_items(teams@, standings@).take(i as int).push((t, sk)));
    }
    assert(diff_items(teams@, standings@).take(teams@.len() as int) == diff_items(teams@, standings@));
    assert(standing_items(teams@, standings@).take(teams@.len() as int) == standing_items(teams@, standings@));
    (di, si)
}

/// Whether every two clubs of the group met twice.
fn all_met_exec(teams: &[Team], h2h: &H2HState) -> (r: bool)
    ensures
        r == all_met(teams@, h2h.records@),
{
    let n = teams.len();
    for i in 0..n
        invariant
            n == teams@.len(),
            forall|a: int, b: int| 0 <= a < i && a < b < n
                ==> complete_of(h2h.records@, #[trigger] teams@[a], #[trigger] teams@[b]),
    {
        for j in (i + 1)..n
            invariant
                n == teams@.len(),
                i < n,
                forall|a: int, b: int| 0 <= a < i && a < b < n
                    ==> complete_of(h2h.records@, #[trigger] teams@[a], #[trigger] teams@[b]),
                forall|b: int| i < b < j ==> complete_of(h2h.records@, teams@[i as int], #[trigger] teams@[b]),
        {
            if !h2h.is_complete(teams[i], teams[j]) {
                return false;
            }
        }
    }
    true
}


fn make_mini_line(teams: &[Team], standings: &HashMap<u32, TeamStats>, h2h: &H2HState, t: Team) -> (s: String)
    requires
        standings@.contains_key(stats_key(t)),
    ensures
        s@ == mini_text(teams@, standings@, h2h.records@, t),
{
    let (w, d) = h2h_totals(teams, h2h, t);
    let st = stats_of(standings, t);
    let mut s = String::from_str(t.code());
    s.append("(h2h_w=");
    push_int(&mut s, w);
    s.append(",h2h_d=");
    push_int(&mut s, d);
    s.append(",tot_d=");
    push_int(&mut s, st.diff_reg as i128);
    s.append(")");
    s
}

fn make_level_entry(standings: &HashMap<u32, TeamStats>, t: Team) -> (s: String)
    requires
        standings@.contains_key(stats_key(t)),
    ensures
        s@ == level_entry(standings@, t),
{
    let st = stats_of(standings, t);
    let mut s = String::from_str(t.code());
    s.append("(d=");
    push_int(&mut s, st.diff_reg as i128);
    s.append(",pf=");
    push_int(&mut s, st.pf_reg as i128);
    s.append(")");
    s
}

#[verifier::spinoff_prover]
#[verifier::rlimit(40)]
fn make_incomplete_note(teams: &[Team], standings: &HashMap<u32, TeamStats>, h2h: &H2HState) -> (s: String)
    requires
        has_stats(standings@, teams@),
    ensures
        s@ == incomplete_note(teams@, standings@, h2h.records@),
{
    let ghost h = h2h.records@;
    let ghost ts = teams@;
    let ghost sep = ", "@;
    let mut s = String::from_str("Nisu se svi sreli 2x. Nepotpuni H2H parovi: [");
    let ghost start = s@;
    let ghost mut parts: Seq<Seq<char>> = seq![];
    let mut any = false;
    let n = teams.len();
    for i in 0..n
        invariant
            n == ts.len(),
            ts == teams@,
            h == h2h.records@,
            sep == ", "@,
            parts == pairs_upto(ts, h, i as int),
            any == (parts.len() > 0),
            s@ == start + join_text(parts, sep),
    {
        for j in (i + 1)..n
            invariant
                n == ts.len(),
                ts == teams@,
                h == h2h.records@,
                sep == ", "@,
                i < n,
                parts == pairs_upto(ts, h, i as int) + pair_row(ts[i as int], ts.subrange(i + 1, j as int), h),
                any == (parts.len() > 0),
                s@ == start + join_text(parts, sep),
        {
            let ghost sub = ts.subrange(i + 1, j + 1);
            assert(sub.drop_last() == ts.subrange(i + 1, j as int));
            assert(sub.last() == ts[j as int]);
            if !h2h.is_complete(teams[i], teams[j]) {
                let ghost p = pair_text(ts[i as int], ts[j as int]);
                let ghost before = s@;
                proof {
                    lemma_join_push(parts, p, sep);
                }
                if any {
                    s.append(", ");
                }
                s.append(teams[i].code());
                s.append("-");
                s.append(teams[j].code());
                proof {
                    if parts.len() > 0 {
                        assert(s@ =~= start + (join_text(parts, sep) + sep + p));
                    } else {
                        assert(s@ =~= start + p);
                    }
                    assert(pair_row(ts[i as int], sub, h) == pair_row(ts[i as int], ts.subrange(i + 1, j as int), h).push(p));
                    parts = parts.push(p);
                    assert(parts == pairs_upto(ts, h, i as int) + pair_row(ts[i as int], sub, h));
                }
                any = true;
            } else {
                assert(pair_row(ts[i as int], sub, h) == pair_row(ts[i as int], ts.subrange(i + 1, j as int), h));
            }
        }
        assert(ts.subrange(i + 1, n as int) == ts.skip(i + 1));
        assert(pairs_upto(ts, h, i + 1) == pairs_upto(ts, h, i as int) + pair_row(ts[i as int], ts.skip(i + 1), h));
    }
    s.append("]. Mini-tabela: ");
    let ghost mid = s@;
    let ghost minis = Seq::new(ts.len(), |k: int| mini_text(ts, standings@, h, ts[k]));
    for k in 0..n
        invariant
            n == ts.len(),
            ts == teams@,
            h == h2h.records@,
            sep == ", "@,
            has_stats(standings@, ts),
            minis == Seq::new(ts.len(), |k: int| mini_text(ts, standings@, h, ts[k])),
            s@ == mid + join_text(minis.take(k as int), sep),
    {
        let t = teams[k];
        assert(standings@.contains_key(stats_key(ts[k as int])));
        let line = make_mini_line(teams, standings, h2h, t);
        let ghost p = minis[k as int];
        proof {
            lemma_join_push(minis.take(k as int), p, sep);
            assert(minis.take(k + 1) == minis.take(k as int).push(p));
        }
        if k > 0 {
            s.append(", ");
        }
        s.append(line.as_str());
        proof {
            if k > 0 {
                assert(s@ =~= mid + (join_text(minis.take(k as int), sep) + sep + p));
            } else {
                assert(s@ =~= mid + p);
            }
        }
    }
    assert(minis.take(n as int) == minis);
    s
}

fn make_global_note(g: &Vec<Team>, standings: &HashMap<u32, TeamStats>) -> (s: String)
    requires
        has_stats(standings@, g@),
    ensures
        s@ == global_note(g@, standings@),
{
    let ghost sep = ", "@;
    let mut s = String::from_str("Isti diff i pf: ");
    let ghost start = s@;
    let ghost entries = Seq::new(g@.len(), |i: int| level_entry(standings@, g@[i]));
    for k in 0..g.len()
        invariant
            sep == ", "@,
            has_stats(standings@, g@),
            entries == Seq::new(g@.len(), |i: int| level_entry(standings@, g@[i])),
            s@ == start + join_text(entries.take(k as int), sep),
    {
        let t = g[k];
        assert(standings@.contains_key(stats_key(g@[k as int])));
        let line = make_level_entry(standings, t);
        let ghost p = entries[k as int];
        proof {
            lemma_join_push(entries.take(k as int), p, sep);
            assert(entries.take(k + 1) == entries.take(k as int).push(p));
        }
        if k > 0 {
            s.append(", ");
        }
        s.append(line.as_str());
        proof {
            if k > 0 {
                assert(s@ =~= start + (join_text(entries.take(k as int), sep) + sep + p));
            } else {
                assert(s@ =~= start + p);
            }
        }
    }
    assert(entries.take(g@.len() as int) == entries);
    s
}


/// An item keyed by point difference is a club of the group with its difference.
pub proof fn lemma_diff_item(teams: Seq<Team>, st: Map<u32, TeamStats>, x: Team, k: i128)
    requires
        has_item(diff_items(teams, st), x, k),
    ensures
        teams.contains(x),
        k == stat(st, x).diff_reg as i128,
{
    let items = diff_items(teams, st);
    let p = choose|p: int| 0 <= p < items.len() && #[trigger] items[p] == (x, k);
    assert(teams[p] == x);
}


/// An item keyed by mini-league wins is a club of the group with its wins.
pub proof fn lemma_wins_item(teams: Seq<Team>, h: Map<u32, H2HRecord>, x: Team, k: i128)
    requires
        has_item(wins_items(teams, h), x, k),
    ensures
        teams.contains(x),
        k == wins_total(teams, h, x) as i128,
{
    let items = wins_items(teams, h);
    let p = choose|p: int| 0 <= p < items.len() && #[trigger] items[p] == (x, k);
    assert(teams[p] == x);
}

/// An item keyed by mini-league difference is a club of the group with it.
pub proof fn lemma_h2h_diff_item(teams: Seq<Team>, h: Map<u32, H2HRecord>, x: Team, k: i128)
    requires
        has_item(h2h_diff_items(teams, h), x, k),
    ensures
        teams.contains(x),
        k == diff_total(teams, h, x) as i128,
{
    let items = h2h_diff_items(teams, h);
    let p = choose|p: int| 0 <= p < items.len() && #[trigger] items[p] == (x, k);
    assert(teams[p] == x);
}

/// A table that has the lines of a group has those of its members.
proof fn lemma_has_stats_sub(st: Map<u32, TeamStats>, teams: Seq<Team>, g: Seq<Team>)
    requires
        has_stats(st, teams),
        forall|j: int| 0 <= j < g.len() ==> teams.contains(#[trigger] g[j]),
    ensures
        has_stats(st, g),
{
    assert forall|j: int| 0 <= j < g.len() implies #[trigger] st.contains_key(stats_key(g[j])) by {
        assert(teams.contains(g[j]));
        let p = choose|p: int| 0 <= p < teams.len() && teams[p] == g[j];
        assert(st.contains_key(stats_key(teams[p])));
    }
}




/// Appends a decided slot for each club.
fn push_resolved(slots: &mut Vec<TieSlot>, ts: &Vec<Team>)
    ensures
        slot_views(final(slots)@) == slot_views(old(slots)@) + resolved_slots(ts@),
{
    let ghost start = slot_views(slots@);
    for i in 0..ts.len()
        invariant
            slot_views(slots@) == start + resolved_slots(ts@.take(i as int)),
    {
        let ghost before = slots@;
        slots.push(TieSlot::Resolved(ts[i]));
        assert(slot_views(slots@) == slot_views(before).push(SlotModel::Resolved(ts@[i as int])));
        assert(ts@.take(i + 1) == ts@.take(i as int).push(ts@[i as int]));
        assert(resolved_slots(ts@.take(i + 1)) == resolved_slots(ts@.take(i as int)).push(SlotModel::Resolved(ts@[i as int])));
    }
    assert(ts@.take(ts@.len() as int) == ts@);
}



/// The slots as a result: decided when every slot is.
fn combine_slots(result_slots: Vec<TieSlot>) -> (r: TieResult)
    ensures
        r@ == combine(slot_views(result_slots@)),
{
    let n = result_slots.len();
    let mut all = true;
    for i in 0..n
        invariant
            n == result_slots@.len(),
            all == (forall|m: int| 0 <= m < i ==> #[trigger] slot_views(result_slots@)[m] is Resolved),
    {
        assert(slot_views(result_slots@)[i as int] == result_slots@[i as int]@);
        match &result_slots[i] {
            TieSlot::Resolved(_) => {},
            TieSlot::Tied(_, _) => {
                all = false;
            },
        }
        assert(all == (forall|m: int| 0 <= m < i + 1 ==> #[trigger] slot_views(result_slots@)[m] is Resolved));
    }
    if all {
        let ghost sv = slot_views(result_slots@);
        let mut ordered: Vec<Team> = Vec::new();
        for i in 0..n
            invariant
                n == result_slots@.len(),
                sv == slot_views(result_slots@),
                forall|m: int| 0 <= m < n ==> #[trigger] sv[m] is Resolved,
                ordered@ == sv.take(i as int).map_values(|s: SlotModel| s->Resolved_0),
        {
            assert(sv[i as int] is Resolved);
            assert(sv[i as int] == result_slots@[i as int]@);
            let ghost before = ordered@;
            let mut ts = result_slots[i].teams();
            ordered.append(&mut ts);
            assert(ordered@ =~= before.push(sv[i as int]->Resolved_0));
            assert(sv.take(i + 1).map_values(|s: SlotModel| s->Resolved_0)
                =~= sv.take(i as int).map_values(|s: SlotModel| s->Resolved_0).push(sv[i as int]->Resolved_0));
        }
        assert(sv.take(n as int) == sv);
        return TieResult::Resolved(ordered);
    }
    TieResult::Unresolved { ordering: result_slots }
}

/// The clubs keyed by points scored.
fn pf_keyed(teams: &Vec<Team>, standings: &HashMap<u32, TeamStats>) -> (r: Vec<(Team, i128)>)
    requires
        has_stats(standings@, teams@),
    ensures
        r@ == pf_items(teams@, standings@),
{
    let mut r: Vec<(Team, i128)> = Vec::new();
    for i in 0..teams.len()
        invariant
            has_stats(standings@, teams@),
            r@ == pf_items(teams@, standings@).take(i as int),
    {
        let t = teams[i];
        assert(standings@.contains_key(stats_key(teams@[i as int])));
        let pf = stats_of(standings, t).pf_reg as i128;
        r.push((t, pf));
        assert(pf_items(teams@, standings@).take(i + 1) == pf_items(teams@, standings@).take(i as int).push((t, pf)));
    }
    assert(pf_items(teams@, standings@).take(teams@.len() as int) == pf_items(teams@, standings@));
    r
}

pub proof fn lemma_pf_item(teams: Seq<Team>, st: Map<u32, TeamStats>, x: Team, k: i128)
    requires
        has_item(pf_items(teams, st), x, k),
    ensures
        teams.contains(x),
{
    let items = pf_items(teams, st);
    let p = choose|p: int| 0 <= p < items.len() && #[trigger] items[p] == (x, k);
    assert(teams[p] == x);
}

/// Appends the slots of a group of clubs level on point difference, ordered
/// by points scored up to the first clubs level on points too; tells whether
/// there are such clubs.
fn push_points_slots(slots: &mut Vec<TieSlot>, g: &Vec<Team>, standings: &HashMap<u32, TeamStats>) -> (wide: bool)
    requires
        has_stats(standings@, g@),
    ensures
        slot_views(final(slots)@) == slot_views(old(slots)@) + points_slots(groups_desc(pf_items(g@, standings@)), standings@),
        wide == any_wide(groups_desc(pf_items(g@, standings@))),
{
    let ghost st = standings@;
    let pi = pf_keyed(g, standings);
    let pg = group_desc(&pi);
    let ghost pv = views(pg@);
    proof {
        lemma_groups(pi@);
        assert forall|x: Team, k: i128| has_item(pi@, x, k) implies g@.contains(x) by {
            lemma_pf_item(g@, st, x, k);
        }
        lemma_groups_have_stats(g@, st, pi@);
    }
    let ghost start = slot_views(slots@);
    let mut wide = false;
    for k in 0..pg.len()
        invariant
            st == standings@,
            pv == views(pg@),
            pv == groups_desc(pf_items(g@, st)),
            forall|i: int| 0 <= i < pv.len() ==> has_stats(st, #[trigger] pv[i]),
            slot_views(slots@) == start + points_slots(pv.take(k as int), st),
            wide == any_wide(pv.take(k as int)),
    {
        let p = &pg[k];
        assert(pv[k as int] == p@);
        assert(pv.take(k + 1).drop_last() == pv.take(k as int));
        assert(pv.take(k + 1).last() == p@);
        assert(has_stats(st, pv[k as int]));
        let ghost before = slots@;
        if wide {
        } else if p.len() == 1 {
            slots.push(TieSlot::Resolved(p[0]));
            assert(slot_views(slots@) == slot_views(before).push(level_slot(p@, st)));
        } else {
            let note = make_global_note(p, standings);
            slots.push(TieSlot::Tied(copy_teams(p.as_slice()), note));
            assert(slot_views(slots@) == slot_views(before).push(level_slot(p@, st)));
            wide = true;
        }
    }
    assert(pv.take(pg@.len() as int) == pv);
    wide
}

fn apply_global_criteria_multi(teams: &[Team], standings: &HashMap<u32, TeamStats>) -> (r: TieResult)
    requires
        has_stats(standings@, teams@),
    ensures
        r@ == global_spec(teams@, standings@),
{
    let ghost st = standings@;
    let (di, _si) = standing_keyed(teams, standings);
    let dg = group_desc(&di);
    let ghost dv = views(dg@);
    proof {
        lemma_groups(di@);
        assert forall|x: Team, k: i128| has_item(di@, x, k) implies teams@.contains(x) by {
            lemma_diff_item(teams@, st, x, k);
        }
        lemma_groups_have_stats(teams@, st, di@);
    }
    let mut slots: Vec<TieSlot> = Vec::new();
    let mut tied = false;
    for gi in 0..dg.len()
        invariant
            st == standings@,
            dv == views(dg@),
            dv == groups_desc(diff_items(teams@, st)),
            forall|i: int| 0 <= i < dv.len() ==> has_stats(st, #[trigger] dv[i]),
            slot_views(slots@) == diff_group_slots(dv.take(gi as int), st),
            tied == any_level(dv.take(gi as int), st),
    {
        let g = &dg[gi];
        assert(dv[gi as int] == g@);
        assert(dv.take(gi + 1).drop_last() == dv.take(gi as int));
        assert(dv.take(gi + 1).last() == g@);
        assert(has_stats(st, dv[gi as int]));
        if tied {
            push_resolved(&mut slots, g);
        } else {
            let wide = push_points_slots(&mut slots, g, standings);
            tied = wide;
        }
    }
    assert(dv.take(dg@.len() as int) == dv);
    combine_slots(slots)
}


/// The groups of a split of the clubs all have their lines in the table.
proof fn lemma_groups_have_stats(teams: Seq<Team>, st: Map<u32, TeamStats>, items: Seq<(Team, i128)>)
    requires
        has_stats(st, teams),
        forall|x: Team, k: i128| has_item(items, x, k) ==> teams.contains(x),
    ensures
        forall|i: int| 0 <= i < groups_desc(items).len() ==> has_stats(st, #[trigger] groups_desc(items)[i]),
{
    assert forall|i: int| 0 <= i < groups_desc(items).len() implies has_stats(st, #[trigger] groups_desc(items)[i]) by {
        let g = groups_desc(items)[i];
        assert forall|j: int| 0 <= j < g.len() implies teams.contains(#[trigger] g[j]) by {
            lemma_group_member(items, i, j);
        }
        lemma_has_stats_sub(st, teams, g);
    }
}


proof fn lemma_slot_views_add(a: Seq<TieSlot>, b: Seq<TieSlot>)
    ensures
        slot_views(a + b) == slot_views(a) + slot_views(b),
{
    assert(slot_views(a + b) =~= slot_views(a) + slot_views(b));
}

fn resolve_multi_teams(
    teams: &[Team],
    standings: &HashMap<u32, TeamStats>,
    h2h: &H2HState,
    depth: u32,
) -> (r: TieResult)
    requires
        depth <= 11,
        multi_lines_ok(teams@, standings@, h2h.records@, depth as int),
    ensures
        r@ == multi_spec(teams@, standings@, h2h.records@, depth as int),
    decreases depth_measure(depth as int), 1int,
{
    let ghost st = standings@;
    let ghost h = h2h.records@;
    if teams.len() <= 1 {
        return TieResult::Resolved(copy_teams(teams));
    }
    if teams.len() == 2 {
        return resolve_two_teams(teams[0], teams[1], standings, h2h);
    }
    if depth > 10 {
        let (di, _si) = standing_keyed(teams, standings);
        return TieResult::Resolved(sort_desc(&di));
    }
    if !all_met_exec(teams, h2h) {
        let note = make_incomplete_note(teams, standings, h2h);
        let ordering = vec![TieSlot::Tied(copy_teams(teams), note)];
        assert(slot_views(ordering@) == seq![SlotModel::Tied(teams@, incomplete_note(teams@, st, h))]);
        return TieResult::Unresolved { ordering };
    }
    let (wi, hdi) = h2h_keyed(teams, h2h);
    let wg = group_desc(&wi);
    if wg.len() > 1 {
        return recurse_on_groups(&wg, standings, h2h, depth);
    }
    let dg = group_desc(&hdi);
    if dg.len() > 1 {
        return recurse_on_groups(&dg, standings, h2h, depth);
    }
    apply_global_criteria_multi(teams, standings)
}

fn recurse_on_groups(
    groups: &Vec<Vec<Team>>,
    standings: &HashMap<u32, TeamStats>,
    h2h: &H2HState,
    depth: u32,
) -> (r: TieResult)
    requires
        depth <= 10,
        slots_lines_ok(views(groups@), standings@, h2h.records@, depth as int),
    ensures
        r@ == combine(slots_spec(views(groups@), standings@, h2h.records@, depth as int)),
    decreases depth_measure(depth as int), 0int,
{
    let ghost st = standings@;
    let ghost h = h2h.records@;
    let ghost gv = views(groups@);
    let mut result_slots: Vec<TieSlot> = Vec::new();
    for gi in 0..groups.len()
        invariant
            depth <= 10,
            st == standings@,
            h == h2h.records@,
            gv == views(groups@),
            slots_lines_ok(gv, st, h, depth as int),
            slot_views(result_slots@) == slots_spec(gv.take(gi as int), st, h, depth as int),
    {
        let ghost prefix = gv.take(gi + 1);
        assert(prefix.drop_last() == gv.take(gi as int));
        assert(prefix.last() == groups@[gi as int]@);
        let group = &groups[gi];
        if group.len() == 1 {
            let ghost before = result_slots@;
            result_slots.push(TieSlot::Resolved(group[0]));
            assert(slot_views(result_slots@) == slot_views(before).push(SlotModel::Resolved(group@[0])));
        } else {
            proof {
                lemma_slots_lines_at(gv, st, h, depth as int, gi as int);
            }
            match resolve_multi_teams(group.as_slice(), standings, h2h, depth + 1) {
                TieResult::Resolved(ordered) => {
                    push_resolved(&mut result_slots, &ordered);
                },
                TieResult::Unresolved { ordering } => {
                    let ghost before = result_slots@;
                    let mut ordering = ordering;
                    let ghost added = ordering@;
                    result_slots.append(&mut ordering);
                    proof {
                        lemma_slot_views_add(before, added);
                    }
                },
            }
        }
    }
    assert(gv.take(groups@.len() as int) == gv);
    combine_slots(result_slots)
}

/// Orders a group of clubs level on wins by the tie-break rules, best first.
/// The table is keyed by `Team::index` and must hold the line of every club
/// whose line the rules read (`tie_lines_ok`; a table with a line for each
/// club of the group does); the head-to-head series come from `h2h`. The
/// clubs of the result, read slot by slot, are clubs of the group, each at
/// most as often; they are all the clubs of the group unless `tie_drops`
/// holds, when the clubs below the first pair level on point difference and
/// points scored in their difference group are left out.
pub fn resolve_tie_group(
    teams: &[Team],
    standings: &HashMap<u32, TeamStats>,
    h2h: &H2HState,
) -> (r: TieResult)
    requires
        tie_lines_ok(teams@, standings@, h2h.records@),
    ensures
        r@ == tie_spec(teams@, standings@, h2h.records@),
        model_teams(r@).to_multiset().subset_of(teams@.to_multiset()),
        !tie_drops(teams@, standings@, h2h.records@) ==> model_teams(r@).to_multiset() == teams@.to_multiset(),
        tie_drops(teams@, standings@, h2h.records@) ==> model_teams(r@).len() < teams@.len(),
{
    proof {
        law_tie_keeps_clubs(teams@, standings@, h2h.records@);
    }
    if teams.len() <= 1 {
        return TieResult::Resolved(copy_teams(teams));
    }
    if teams.len() == 2 {
        return resolve_two_teams(teams[0], teams[1], standings, h2h);
    }
    resolve_multi_teams(teams, standings, h2h, 0)
}

} // verus!
