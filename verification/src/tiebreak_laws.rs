//! What every broken tie keeps: it never places a club more often than the
//! group holds it, places every club exactly as often unless the overall
//! criteria leave clubs out (`tie_drops`), and a tie it leaves open always
//! holds two or more clubs. Two clubs are ordered the same way whichever is
//! named first.

use vstd::prelude::*;
use crate::team::Team;
use crate::types::{TeamStats, H2HRecord};
use crate::grouping::{
    keys_desc, lemma_group_member, lemma_concat_member, groups_desc, concat_all, teams_of,
    lemma_groups, lemma_teams_of, select_key, has_item,
};
use crate::h2h::{complete_of, lemma_pair_code, wins_of, diff_of};
use crate::tiebreak::{
    all_met, incomplete_note, SlotModel, TieModel, resolved_slots, combine, two_spec,
    multi_spec, slots_spec, global_spec, tie_spec, diff_items, wins_items, h2h_diff_items,
    depth_measure, pf_items, level_slot, points_slots, any_level, any_wide, diff_group_slots, stat,
    lemma_diff_item, lemma_pf_item, wins_total,
};

verus! {

broadcast use vstd::seq_lib::group_to_multiset_ensures, vstd::multiset::group_multiset_axioms;

/// The clubs of a slot.
pub open spec fn slot_teams(s: SlotModel) -> Seq<Team> {
    match s {
        SlotModel::Resolved(t) => seq![t],
        SlotModel::Tied(ts, _) => ts,
    }
}

/// The clubs of the slots, in order.
pub open spec fn slots_teams(ss: Seq<SlotModel>) -> Seq<Team>
    decreases ss.len(),
{
    if ss.len() == 0 {
        seq![]
    } else {
        slots_teams(ss.drop_last()) + slot_teams(ss.last())
    }
}

/// The clubs of a broken tie, best first.
pub open spec fn model_teams(m: TieModel) -> Seq<Team> {
    match m {
        TieModel::Resolved(ts) => ts,
        TieModel::Unresolved(ss) => slots_teams(ss),
    }
}

/// Whether every open tie among the slots holds two or more clubs.
pub open spec fn ties_wide(ss: Seq<SlotModel>) -> bool {
    forall|i: int| 0 <= i < ss.len() ==> (#[trigger] ss[i] is Tied ==> ss[i]->Tied_0.len() >= 2)
}

/// Whether every open tie of the outcome holds two or more clubs.
pub open spec fn model_ties_wide(m: TieModel) -> bool {
    match m {
        TieModel::Resolved(_) => true,
        TieModel::Unresolved(ss) => ties_wide(ss),
    }
}

pub proof fn lemma_slots_teams_add(a: Seq<SlotModel>, b: Seq<SlotModel>)
    ensures
        slots_teams(a + b) == slots_teams(a) + slots_teams(b),
    decreases b.len(),
{
    if b.len() == 0 {
        assert(a + b == a);
        assert(slots_teams(a) + Seq::<Team>::empty() == slots_teams(a));
    } else {
        lemma_slots_teams_add(a, b.drop_last());
        assert((a + b).drop_last() == a + b.drop_last());
        assert((a + b).last() == b.last());
        assert(slots_teams(a + b) =~= slots_teams(a) + slots_teams(b));
    }
}

pub proof fn lemma_resolved_slots_teams(ts: Seq<Team>)
    ensures
        slots_teams(resolved_slots(ts)) == ts,
        ties_wide(resolved_slots(ts)),
    decreases ts.len(),
{
    if ts.len() > 0 {
        lemma_resolved_slots_teams(ts.drop_last());
        assert(resolved_slots(ts).drop_last() == resolved_slots(ts.drop_last()));
        assert(ts.drop_last().push(ts.last()) == ts);
        assert(slots_teams(resolved_slots(ts)) =~= ts);
    } else {
        assert(resolved_slots(ts).len() == 0);
    }
}

pub proof fn lemma_ties_wide_add(a: Seq<SlotModel>, b: Seq<SlotModel>)
    requires
        ties_wide(a),
        ties_wide(b),
    ensures
        ties_wide(a + b),
{
    assert forall|i: int| 0 <= i < (a + b).len() && (#[trigger] (a + b)[i]) is Tied implies (a + b)[i]->Tied_0.len() >= 2 by {
        if i < a.len() {
            assert((a + b)[i] == a[i]);
        } else {
            assert((a + b)[i] == b[i - a.len()]);
        }
    }
}

pub proof fn lemma_combine(ss: Seq<SlotModel>)
    ensures
        model_teams(combine(ss)) == slots_teams(ss),
        ties_wide(ss) ==> model_ties_wide(combine(ss)),
    decreases ss.len(),
{
    if forall|i: int| 0 <= i < ss.len() ==> #[trigger] ss[i] is Resolved {
        lemma_all_resolved(ss);
    }
}

proof fn lemma_all_resolved(ss: Seq<SlotModel>)
    requires
        forall|i: int| 0 <= i < ss.len() ==> #[trigger] ss[i] is Resolved,
    ensures
        ss.map_values(|s: SlotModel| s->Resolved_0) == slots_teams(ss),
    decreases ss.len(),
{
    if ss.len() > 0 {
        let s = ss.drop_last();
        assert forall|i: int| 0 <= i < s.len() implies #[trigger] s[i] is Resolved by {
            assert(s[i] == ss[i]);
        }
        lemma_all_resolved(s);
        assert(ss[ss.len() - 1] is Resolved);
        assert(ss.map_values(|s: SlotModel| s->Resolved_0)
            =~= s.map_values(|s: SlotModel| s->Resolved_0) + seq![ss.last()->Resolved_0]);
    } else {
        assert(ss.map_values(|s: SlotModel| s->Resolved_0) =~= Seq::<Team>::empty());
    }
}

/// Two clubs are always placed, in one order or the other, and a tie of two
/// holds both.
pub proof fn lemma_two_teams(a: Team, b: Team, st: Map<u32, TeamStats>, h: Map<u32, H2HRecord>)
    ensures
        model_teams(two_spec(a, b, st, h)).to_multiset() == seq![a, b].to_multiset(),
        model_ties_wide(two_spec(a, b, st, h)),
{
    let m = two_spec(a, b, st, h);
    assert(seq![b, a].to_multiset() == seq![a, b].to_multiset()) by {
        assert(seq![b, a] == seq![b].push(a));
        assert(seq![a, b] == seq![a].push(b));
        assert(seq![b] == Seq::<Team>::empty().push(b));
        assert(seq![a] == Seq::<Team>::empty().push(a));
    }
    match m {
        TieModel::Resolved(_) => {},
        TieModel::Unresolved(ss) => {
            assert(ss.len() == 1);
            assert(ss.drop_last() == Seq::<SlotModel>::empty());
            assert(slot_teams(ss.last()) == seq![a, b]);
            assert(slots_teams(ss.drop_last()) == Seq::<Team>::empty());
            assert(slots_teams(ss) =~= seq![a, b]);
        },
    }
}


proof fn lemma_single_tied(g: Seq<Team>, note: Seq<char>)
    requires
        g.len() >= 2,
    ensures
        slots_teams(seq![SlotModel::Tied(g, note)]) == g,
        ties_wide(seq![SlotModel::Tied(g, note)]),
{
    let t = seq![SlotModel::Tied(g, note)];
    assert(t.drop_last() == Seq::<SlotModel>::empty());
    assert(t.last() == SlotModel::Tied(g, note));
    assert(slot_teams(t.last()) == g);
    assert(slots_teams(t.drop_last()) == Seq::<Team>::empty());
    assert(slots_teams(t) == slots_teams(t.drop_last()) + slot_teams(t.last()));
    assert(Seq::<Team>::empty() + g =~= g);
}

/// Whether a sequence of clubs holds each club at most as often as another.
pub open spec fn within(a: Seq<Team>, b: Seq<Team>) -> bool {
    a.to_multiset().subset_of(b.to_multiset())
}

proof fn lemma_within_add(a1: Seq<Team>, b1: Seq<Team>, a2: Seq<Team>, b2: Seq<Team>)
    requires
        within(a1, b1),
        within(a2, b2),
    ensures
        within(a1 + a2, b1 + b2),
{
    vstd::seq_lib::lemma_multiset_commutative(a1, a2);
    vstd::seq_lib::lemma_multiset_commutative(b1, b2);
    assert forall|v: Team| (a1 + a2).to_multiset().count(v) <= (b1 + b2).to_multiset().count(v) by {
        assert(a1.to_multiset().count(v) <= b1.to_multiset().count(v));
        assert(a2.to_multiset().count(v) <= b2.to_multiset().count(v));
    }
}

proof fn lemma_prefix_within(a: Seq<Team>, b: Seq<Team>)
    requires
        a.is_prefix_of(b),
    ensures
        within(a, b),
{
    let rest = b.skip(a.len() as int);
    assert(b =~= a + rest);
    vstd::seq_lib::lemma_multiset_commutative(a, rest);
    assert forall|v: Team| a.to_multiset().count(v) <= b.to_multiset().count(v) by {}
}

proof fn lemma_within_refl(a: Seq<Team>)
    ensures
        within(a, a),
{
}

/// Whether, of groups of clubs level on points scored, a group of two or
/// more comes before the last group, whose clubs are then left out.
pub open spec fn points_cut(pgs: Seq<Seq<Team>>) -> bool {
    pgs.len() > 0 && any_wide(pgs.drop_last())
}

/// Whether placing the groups of clubs level on point difference leaves
/// out a club: the first group in which two clubs are level on points
/// scored too has clubs with fewer points.
pub open spec fn global_drops(dgs: Seq<Seq<Team>>, st: Map<u32, TeamStats>) -> bool
    decreases dgs.len(),
{
    dgs.len() > 0 && (global_drops(dgs.drop_last(), st)
        || (!any_level(dgs.drop_last(), st) && points_cut(groups_desc(pf_items(dgs.last(), st)))))
}

/// Whether breaking the tie of a group, at a depth of recursion, leaves out
/// a club.
pub open spec fn multi_drops(teams: Seq<Team>, st: Map<u32, TeamStats>, h: Map<u32, H2HRecord>, depth: int) -> bool
    decreases depth_measure(depth), 1int, 0int,
{
    if teams.len() <= 2 || depth > 10 || !all_met(teams, h) {
        false
    } else {
        let wg = groups_desc(wins_items(teams, h));
        if wg.len() > 1 {
            slots_drop(wg, st, h, depth)
        } else {
            let dg = groups_desc(h2h_diff_items(teams, h));
            if dg.len() > 1 {
                slots_drop(dg, st, h, depth)
            } else {
                global_drops(groups_desc(diff_items(teams, st)), st)
            }
        }
    }
}

/// Whether breaking the groups of a split one level deeper leaves out a club.
pub open spec fn slots_drop(gs: Seq<Seq<Team>>, st: Map<u32, TeamStats>, h: Map<u32, H2HRecord>, depth: int) -> bool
    decreases depth_measure(depth), 0int, gs.len(),
{
    if gs.len() == 0 || depth > 10 {
        false
    } else {
        slots_drop(gs.drop_last(), st, h, depth) || (gs.last().len() > 1 && multi_drops(gs.last(), st, h, depth + 1))
    }
}

/// Whether breaking the tie of a group leaves out a club.
pub open spec fn tie_drops(teams: Seq<Team>, st: Map<u32, TeamStats>, h: Map<u32, H2HRecord>) -> bool {
    multi_drops(teams, st, h, 0)
}

/// The clubs of the slots of points-scored groups come in the groups'
/// order and stop after the first group of two or more; every open tie
/// among them holds two or more clubs.
proof fn lemma_points_slots(pgs: Seq<Seq<Team>>, st: Map<u32, TeamStats>)
    requires
        forall|i: int| 0 <= i < pgs.len() ==> #[trigger] pgs[i].len() > 0,
    ensures
        slots_teams(points_slots(pgs, st)).is_prefix_of(concat_all(pgs)),
        !points_cut(pgs) ==> slots_teams(points_slots(pgs, st)) == concat_all(pgs),
        points_cut(pgs) ==> slots_teams(points_slots(pgs, st)).len() < concat_all(pgs).len(),
        ties_wide(points_slots(pgs, st)),
    decreases pgs.len(),
{
    if pgs.len() == 0 {
        assert(slots_teams(Seq::<SlotModel>::empty()) =~= Seq::<Team>::empty());
    } else {
        let init = pgs.drop_last();
        assert forall|i: int| 0 <= i < init.len() implies #[trigger] init[i].len() > 0 by {
            assert(init[i] == pgs[i]);
        }
        lemma_points_slots(init, st);
        let g = pgs.last();
        assert(pgs[pgs.len() - 1].len() > 0);
        let prev = points_slots(init, st);
        let ss = points_slots(pgs, st);
        let a = slots_teams(prev);
        assert(concat_all(pgs) == concat_all(init) + g);
        if any_wide(init) {
            assert(ss == prev);
            assert(a =~= (concat_all(init) + g).subrange(0, a.len() as int));
        } else {
            if init.len() > 0 {
                assert(!any_wide(init.drop_last()));
            }
            assert(!points_cut(init));
            assert(ss == prev.push(level_slot(g, st)));
            assert(ss.drop_last() == prev);
            assert(ss.last() == level_slot(g, st));
            if g.len() == 1 {
                assert(slot_teams(level_slot(g, st)) =~= g);
            }
            assert(slots_teams(ss) == a + g);
            assert(slots_teams(ss) =~= concat_all(pgs).subrange(0, slots_teams(ss).len() as int));
            assert forall|i: int| 0 <= i < ss.len() && (#[trigger] ss[i]) is Tied implies ss[i]->Tied_0.len() >= 2 by {
                if i < prev.len() {
                    assert(ss[i] == prev[i]);
                }
            }
        }
    }
}

/// The clubs of the slots of the point-difference groups are clubs of the
/// groups, each at most as often; all of them, each as often, unless a club
/// is left out; every open tie among them holds two or more.
proof fn lemma_diff_group_slots(dgs: Seq<Seq<Team>>, st: Map<u32, TeamStats>)
    ensures
        within(slots_teams(diff_group_slots(dgs, st)), concat_all(dgs)),
        slots_teams(diff_group_slots(dgs, st)).len() <= concat_all(dgs).len(),
        !global_drops(dgs, st) ==> slots_teams(diff_group_slots(dgs, st)).to_multiset() == concat_all(dgs).to_multiset(),
        global_drops(dgs, st) ==> slots_teams(diff_group_slots(dgs, st)).len() < concat_all(dgs).len(),
        ties_wide(diff_group_slots(dgs, st)),
    decreases dgs.len(),
{
    if dgs.len() == 0 {
        assert(slots_teams(Seq::<SlotModel>::empty()) == Seq::<Team>::empty());
    } else {
        let init = dgs.drop_last();
        lemma_diff_group_slots(init, st);
        let g = dgs.last();
        let prev = diff_group_slots(init, st);
        let part = if any_level(init, st) {
            resolved_slots(g)
        } else {
            points_slots(groups_desc(pf_items(g, st)), st)
        };
        assert(diff_group_slots(dgs, st) == prev + part);
        if any_level(init, st) {
            lemma_resolved_slots_teams(g);
            lemma_within_refl(g);
        } else {
            let pi = pf_items(g, st);
            let pgs = groups_desc(pi);
            lemma_groups(pi);
            lemma_teams_of(pi);
            assert(teams_of(pi) =~= g);
            lemma_points_slots(pgs, st);
            lemma_prefix_within(slots_teams(part), concat_all(pgs));
            assert(concat_all(pgs).len() == g.len()) by {
                assert(concat_all(pgs).to_multiset().len() == g.to_multiset().len());
            }
            assert(within(slots_teams(part), g)) by {
                assert forall|v: Team| slots_teams(part).to_multiset().count(v) <= g.to_multiset().count(v) by {
                    assert(slots_teams(part).to_multiset().count(v) <= concat_all(pgs).to_multiset().count(v));
                }
            }
        }
        lemma_slots_teams_add(prev, part);
        lemma_ties_wide_add(prev, part);
        assert(concat_all(dgs) == concat_all(init) + g);
        lemma_within_add(slots_teams(prev), concat_all(init), slots_teams(part), g);
        vstd::seq_lib::lemma_multiset_commutative(slots_teams(prev), slots_teams(part));
        vstd::seq_lib::lemma_multiset_commutative(concat_all(init), g);
    }
}

/// Breaking a tie on point difference and points scored places clubs of
/// the group, each at most as often as the group holds it; all of them,
/// each as often, unless a club is left out; and leaves open only ties of
/// two or more.
pub proof fn lemma_global(teams: Seq<Team>, st: Map<u32, TeamStats>)
    ensures
        within(model_teams(global_spec(teams, st)), teams),
        model_teams(global_spec(teams, st)).len() <= teams.len(),
        !global_drops(groups_desc(diff_items(teams, st)), st)
            ==> model_teams(global_spec(teams, st)).to_multiset() == teams.to_multiset(),
        global_drops(groups_desc(diff_items(teams, st)), st)
            ==> model_teams(global_spec(teams, st)).len() < teams.len(),
        model_ties_wide(global_spec(teams, st)),
{
    let di = diff_items(teams, st);
    lemma_groups(di);
    lemma_teams_of(di);
    assert(teams_of(di) =~= teams);
    let ss = diff_group_slots(groups_desc(di), st);
    lemma_diff_group_slots(groups_desc(di), st);
    lemma_combine(ss);
    assert(concat_all(groups_desc(di)).len() == teams.len()) by {
        assert(concat_all(groups_desc(di)).to_multiset().len() == teams.to_multiset().len());
    }
    assert forall|v: Team| model_teams(global_spec(teams, st)).to_multiset().count(v) <= teams.to_multiset().count(v) by {
        assert(slots_teams(ss).to_multiset().count(v) <= concat_all(groups_desc(di)).to_multiset().count(v));
    }
}

/// A group split into smaller groups, each broken one level deeper: the
/// slots place clubs of the groups, each at most as often as the groups hold
/// it; all of them, each as often, unless a club is left out; and leave open
/// only ties of two or more.
pub proof fn lemma_slots(gs: Seq<Seq<Team>>, st: Map<u32, TeamStats>, h: Map<u32, H2HRecord>, depth: int)
    ensures
        ties_wide(slots_spec(gs, st, h, depth)),
        within(slots_teams(slots_spec(gs, st, h, depth)), concat_all(gs)),
        slots_teams(slots_spec(gs, st, h, depth)).len() <= concat_all(gs).len(),
        depth <= 10 && !slots_drop(gs, st, h, depth)
            ==> slots_teams(slots_spec(gs, st, h, depth)).to_multiset() == concat_all(gs).to_multiset(),
        slots_drop(gs, st, h, depth) ==> slots_teams(slots_spec(gs, st, h, depth)).len() < concat_all(gs).len(),
    decreases depth_measure(depth), 0int, gs.len(),
{
    if gs.len() == 0 || depth > 10 {
        assert(slots_spec(gs, st, h, depth) == Seq::<SlotModel>::empty());
        assert(slots_teams(Seq::<SlotModel>::empty()) == Seq::<Team>::empty());
        if gs.len() == 0 {
            assert(concat_all(gs) == Seq::<Team>::empty());
        }
        assert forall|v: Team| Seq::<Team>::empty().to_multiset().count(v) <= concat_all(gs).to_multiset().count(v) by {}
    } else {
        let prev = slots_spec(gs.drop_last(), st, h, depth);
        lemma_slots(gs.drop_last(), st, h, depth);
        let g = gs.last();
        let part: Seq<SlotModel> = if g.len() == 1 {
            seq![SlotModel::Resolved(g[0])]
        } else {
            match multi_spec(g, st, h, depth + 1) {
                TieModel::Resolved(o) => resolved_slots(o),
                TieModel::Unresolved(o) => o,
            }
        };
        if g.len() == 1 {
            assert(prev.push(SlotModel::Resolved(g[0])) == prev + part);
            assert(part.drop_last() == Seq::<SlotModel>::empty());
            assert(slots_teams(part.drop_last()) == Seq::<Team>::empty());
            assert(slot_teams(part.last()) == seq![g[0]]);
            assert(slots_teams(part) == Seq::<Team>::empty() + seq![g[0]]);
            assert(slots_teams(part) =~= g);
            assert(ties_wide(part));
            lemma_within_refl(g);
        } else {
            lemma_multi(g, st, h, depth + 1);
            match multi_spec(g, st, h, depth + 1) {
                TieModel::Resolved(o) => {
                    lemma_resolved_slots_teams(o);
                },
                TieModel::Unresolved(o) => {},
            }
        }
        assert(slots_spec(gs, st, h, depth) == prev + part);
        lemma_slots_teams_add(prev, part);
        lemma_ties_wide_add(prev, part);
        assert(concat_all(gs) == concat_all(gs.drop_last()) + g);
        lemma_within_add(slots_teams(prev), concat_all(gs.drop_last()), slots_teams(part), g);
        vstd::seq_lib::lemma_multiset_commutative(slots_teams(prev), slots_teams(part));
        vstd::seq_lib::lemma_multiset_commutative(concat_all(gs.drop_last()), g);
    }
}

/// Breaking a tie of a group places clubs of the group, each at most as
/// often as the group holds it; all of them, each as often, unless a club is
/// left out; and leaves open only ties of two or more.
pub proof fn lemma_multi(teams: Seq<Team>, st: Map<u32, TeamStats>, h: Map<u32, H2HRecord>, depth: int)
    ensures
        within(model_teams(multi_spec(teams, st, h, depth)), teams),
        model_teams(multi_spec(teams, st, h, depth)).len() <= teams.len(),
        !multi_drops(teams, st, h, depth)
            ==> model_teams(multi_spec(teams, st, h, depth)).to_multiset() == teams.to_multiset(),
        multi_drops(teams, st, h, depth) ==> model_teams(multi_spec(teams, st, h, depth)).len() < teams.len(),
        model_ties_wide(multi_spec(teams, st, h, depth)),
    decreases depth_measure(depth), 1int, 0int,
{
    if teams.len() <= 1 {
        lemma_within_refl(teams);
    } else if teams.len() == 2 {
        lemma_two_teams(teams[0], teams[1], st, h);
        assert(teams =~= seq![teams[0], teams[1]]);
        lemma_within_refl(teams);
        assert(model_teams(multi_spec(teams, st, h, depth)).to_multiset().len() == teams.to_multiset().len());
    } else if depth > 10 {
        let di = diff_items(teams, st);
        lemma_groups(di);
        lemma_teams_of(di);
        assert(teams_of(di) =~= teams);
        lemma_within_refl(teams);
        assert(model_teams(multi_spec(teams, st, h, depth)).to_multiset().len() == teams.to_multiset().len());
    } else if !all_met(teams, h) {
        lemma_single_tied(teams, incomplete_note(teams, st, h));
        lemma_within_refl(teams);
    } else {
        let wi = wins_items(teams, h);
        let wg = groups_desc(wi);
        lemma_groups(wi);
        lemma_teams_of(wi);
        assert(teams_of(wi) =~= teams);
        assert(concat_all(wg).len() == teams.len()) by {
            assert(concat_all(wg).to_multiset().len() == teams.to_multiset().len());
        }
        if wg.len() > 1 {
            lemma_slots(wg, st, h, depth);
            lemma_combine(slots_spec(wg, st, h, depth));
            assert forall|v: Team| model_teams(multi_spec(teams, st, h, depth)).to_multiset().count(v) <= teams.to_multiset().count(v) by {
                assert(slots_teams(slots_spec(wg, st, h, depth)).to_multiset().count(v) <= concat_all(wg).to_multiset().count(v));
            }
        } else {
            let di = h2h_diff_items(teams, h);
            let dg = groups_desc(di);
            lemma_groups(di);
            lemma_teams_of(di);
            assert(teams_of(di) =~= teams);
            assert(concat_all(dg).len() == teams.len()) by {
                assert(concat_all(dg).to_multiset().len() == teams.to_multiset().len());
            }
            if dg.len() > 1 {
                lemma_slots(dg, st, h, depth);
                lemma_combine(slots_spec(dg, st, h, depth));
                assert forall|v: Team| model_teams(multi_spec(teams, st, h, depth)).to_multiset().count(v) <= teams.to_multiset().count(v) by {
                    assert(slots_teams(slots_spec(dg, st, h, depth)).to_multiset().count(v) <= concat_all(dg).to_multiset().count(v));
                }
            } else {
                lemma_global(teams, st);
            }
        }
    }
}

/// Breaking a tie never places a club more often than the group holds it.
/// It places every club of the group exactly as often as the group holds it
/// (so a group of different clubs comes out as an ordering of the same
/// clubs) unless `tie_drops` holds: the overall criteria, reached in the
/// group or in a group it splits into, find two clubs level on point
/// difference and points scored while clubs of that difference have fewer
/// points; those clubs are left out, and the result is shorter than the
/// group. Every tie it leaves open holds two or more clubs.
pub proof fn law_tie_keeps_clubs(teams: Seq<Team>, st: Map<u32, TeamStats>, h: Map<u32, H2HRecord>)
    ensures
        model_teams(tie_spec(teams, st, h)).to_multiset().subset_of(teams.to_multiset()),
        model_teams(tie_spec(teams, st, h)).len() <= teams.len(),
        !tie_drops(teams, st, h) ==> model_teams(tie_spec(teams, st, h)).to_multiset() == teams.to_multiset(),
        !tie_drops(teams, st, h) ==> model_teams(tie_spec(teams, st, h)).len() == teams.len(),
        tie_drops(teams, st, h) ==> model_teams(tie_spec(teams, st, h)).len() < teams.len(),
        model_ties_wide(tie_spec(teams, st, h)),
{
    lemma_multi(teams, st, h, 0);
    if !tie_drops(teams, st, h) {
        assert(model_teams(tie_spec(teams, st, h)).to_multiset().len() == teams.to_multiset().len());
    }
}

/// What breaking one group of a split gives: a club alone is placed, a
/// larger group is broken one level deeper.
pub open spec fn group_result(g: Seq<Team>, st: Map<u32, TeamStats>, h: Map<u32, H2HRecord>, depth: int) -> TieModel {
    if g.len() == 1 { TieModel::Resolved(seq![g[0]]) } else { multi_spec(g, st, h, depth + 1) }
}

/// The clubs of the groups' results, group after group.
pub open spec fn results_teams(gs: Seq<Seq<Team>>, st: Map<u32, TeamStats>, h: Map<u32, H2HRecord>, depth: int) -> Seq<Team>
    decreases gs.len(),
{
    if gs.len() == 0 {
        seq![]
    } else {
        results_teams(gs.drop_last(), st, h, depth) + model_teams(group_result(gs.last(), st, h, depth))
    }
}

/// Whether every slot is decided.
pub open spec fn all_decided(ss: Seq<SlotModel>) -> bool {
    forall|i: int| 0 <= i < ss.len() ==> #[trigger] ss[i] is Resolved
}

/// A tie left open has an open slot.
proof fn lemma_open_has_tied(teams: Seq<Team>, st: Map<u32, TeamStats>, h: Map<u32, H2HRecord>, depth: int)
    ensures
        multi_spec(teams, st, h, depth) matches TieModel::Unresolved(o) ==> !all_decided(o),
{
    match multi_spec(teams, st, h, depth) {
        TieModel::Unresolved(o) => {
            if teams.len() == 2 || (teams.len() > 2 && depth <= 10 && !all_met(teams, h)) {
                assert(o[0] is Tied);
            }
        },
        TieModel::Resolved(_) => {},
    }
}

proof fn lemma_all_decided_add(a: Seq<SlotModel>, b: Seq<SlotModel>)
    ensures
        all_decided(a + b) == (all_decided(a) && all_decided(b)),
{
    if all_decided(a + b) {
        assert forall|i: int| 0 <= i < a.len() implies #[trigger] a[i] is Resolved by {
            assert((a + b)[i] == a[i]);
        }
        assert forall|i: int| 0 <= i < b.len() implies #[trigger] b[i] is Resolved by {
            assert((a + b)[a.len() + i] == b[i]);
        }
    }
    if all_decided(a) && all_decided(b) {
        assert forall|i: int| 0 <= i < (a + b).len() implies #[trigger] (a + b)[i] is Resolved by {
            if i < a.len() {
                assert((a + b)[i] == a[i]);
            } else {
                assert((a + b)[i] == b[i - a.len()]);
            }
        }
    }
}

proof fn lemma_split_slots(gs: Seq<Seq<Team>>, st: Map<u32, TeamStats>, h: Map<u32, H2HRecord>, depth: int)
    requires
        depth <= 10,
    ensures
        slots_teams(slots_spec(gs, st, h, depth)) == results_teams(gs, st, h, depth),
        all_decided(slots_spec(gs, st, h, depth))
            == (forall|i: int| 0 <= i < gs.len() ==> #[trigger] group_result(gs[i], st, h, depth) is Resolved),
    decreases gs.len(),
{
    if gs.len() == 0 {
        assert(slots_teams(Seq::<SlotModel>::empty()) == Seq::<Team>::empty());
    } else {
        let init = gs.drop_last();
        let g = gs.last();
        lemma_split_slots(init, st, h, depth);
        let prev = slots_spec(init, st, h, depth);
        let part: Seq<SlotModel> = if g.len() == 1 {
            seq![SlotModel::Resolved(g[0])]
        } else {
            match multi_spec(g, st, h, depth + 1) {
                TieModel::Resolved(o) => resolved_slots(o),
                TieModel::Unresolved(o) => o,
            }
        };
        if g.len() == 1 {
            assert(prev.push(SlotModel::Resolved(g[0])) == prev + part);
            lemma_resolved_slots_teams(seq![g[0]]);
            assert(resolved_slots(seq![g[0]]) =~= part);
            assert(all_decided(part));
        } else {
            lemma_open_has_tied(g, st, h, depth + 1);
            match multi_spec(g, st, h, depth + 1) {
                TieModel::Resolved(o) => {
                    lemma_resolved_slots_teams(o);
                    assert(all_decided(part));
                },
                TieModel::Unresolved(o) => {},
            }
        }
        assert(slots_spec(gs, st, h, depth) == prev + part);
        assert(slots_teams(part) == model_teams(group_result(g, st, h, depth)));
        assert(all_decided(part) == (group_result(g, st, h, depth) is Resolved));
        lemma_slots_teams_add(prev, part);
        lemma_all_decided_add(prev, part);
        let all_g = forall|i: int| 0 <= i < gs.len() ==> #[trigger] group_result(gs[i], st, h, depth) is Resolved;
        let all_init = forall|i: int| 0 <= i < init.len() ==> #[trigger] group_result(init[i], st, h, depth) is Resolved;
        assert(all_g == (all_init && group_result(g, st, h, depth) is Resolved)) by {
            if all_g {
                assert forall|i: int| 0 <= i < init.len() implies #[trigger] group_result(init[i], st, h, depth) is Resolved by {
                    assert(init[i] == gs[i]);
                }
                assert(gs[gs.len() - 1] == g);
            }
            if all_init && group_result(g, st, h, depth) is Resolved {
                assert forall|i: int| 0 <= i < gs.len() implies #[trigger] group_result(gs[i], st, h, depth) is Resolved by {
                    if i < init.len() {
                        assert(init[i] == gs[i]);
                    }
                }
            }
        }
    }
}

/// Breaking the groups of a split one after the other gives the clubs of
/// each group's result, group after group, and is decided exactly when every
/// group's result is.
pub proof fn law_split_flattens(gs: Seq<Seq<Team>>, st: Map<u32, TeamStats>, h: Map<u32, H2HRecord>, depth: int)
    requires
        depth <= 10,
    ensures
        model_teams(combine(slots_spec(gs, st, h, depth))) == results_teams(gs, st, h, depth),
        (combine(slots_spec(gs, st, h, depth)) is Resolved)
            == (forall|i: int| 0 <= i < gs.len() ==> #[trigger] group_result(gs[i], st, h, depth) is Resolved),
{
    lemma_split_slots(gs, st, h, depth);
    lemma_combine(slots_spec(gs, st, h, depth));
}

/// Whether the clubs come in order of point difference, largest first.
pub open spec fn diff_sorted(ts: Seq<Team>, st: Map<u32, TeamStats>) -> bool {
    forall|i: int, j: int| 0 <= i < j < ts.len() ==> stat(st, #[trigger] ts[i]).diff_reg >= stat(st, #[trigger] ts[j]).diff_reg
}

/// Every club of the slots for the first `n` point-difference groups has
/// the point difference of one of those groups, and they come in order.
proof fn lemma_diff_slots_sorted(teams: Seq<Team>, st: Map<u32, TeamStats>, n: int)
    requires
        0 <= n <= groups_desc(diff_items(teams, st)).len(),
    ensures
        diff_sorted(slots_teams(diff_group_slots(groups_desc(diff_items(teams, st)).take(n), st)), st),
        forall|p: int| 0 <= p < slots_teams(diff_group_slots(groups_desc(diff_items(teams, st)).take(n), st)).len()
            ==> exists|i: int| 0 <= i < n && stat(st, #[trigger] slots_teams(diff_group_slots(groups_desc(diff_items(teams, st)).take(n), st))[p]).diff_reg as i128
                == keys_desc(diff_items(teams, st))[i],
    decreases n,
{
    let di = diff_items(teams, st);
    let dgs = groups_desc(di);
    let ks = keys_desc(di);
    lemma_groups(di);
    if n == 0 {
        assert(dgs.take(0) == Seq::<Seq<Team>>::empty());
        assert(slots_teams(Seq::<SlotModel>::empty()) == Seq::<Team>::empty());
    } else {
        lemma_diff_slots_sorted(teams, st, n - 1);
        let pre = dgs.take(n);
        assert(pre.drop_last() == dgs.take(n - 1));
        assert(pre.last() == dgs[n - 1]);
        let g = dgs[n - 1];
        let prev = diff_group_slots(dgs.take(n - 1), st);
        let part = if any_level(dgs.take(n - 1), st) {
            resolved_slots(g)
        } else {
            points_slots(groups_desc(pf_items(g, st)), st)
        };
        assert(diff_group_slots(pre, st) == prev + part);
        lemma_slots_teams_add(prev, part);
        let a = slots_teams(prev);
        let b = slots_teams(part);
        // Every club of the part lies in the group, so has its difference.
        assert forall|q: int| 0 <= q < b.len() implies stat(st, #[trigger] b[q]).diff_reg as i128 == ks[n - 1] by {
            let x = b[q];
            assert(b.contains(x));
            if any_level(dgs.take(n - 1), st) {
                lemma_resolved_slots_teams(g);
                assert(g[q] == x);
            } else {
                let pi = pf_items(g, st);
                let pgs = groups_desc(pi);
                lemma_groups(pi);
                assert forall|i: int| 0 <= i < pgs.len() implies #[trigger] pgs[i].len() > 0 by {}
                lemma_points_slots(pgs, st);
                assert(concat_all(pgs)[q] == x);
                assert(concat_all(pgs).contains(x));
                lemma_concat_member(pgs, x);
                let (m, i) = choose|m: int, i: int| 0 <= m < pgs.len() && 0 <= i < pgs[m].len() && #[trigger] pgs[m][i] == x;
                lemma_group_member(pi, m, i);
                lemma_pf_item(g, st, x, keys_desc(pi)[m]);
            }
            assert(g.contains(x));
            let gj = choose|j: int| 0 <= j < g.len() && g[j] == x;
            lemma_group_member(di, n - 1, gj);
            lemma_diff_item(teams, st, x, ks[n - 1]);
        }
        let ab = a + b;
        assert(slots_teams(diff_group_slots(pre, st)) == ab);
        assert forall|i: int, j: int| 0 <= i < j < ab.len() implies stat(st, #[trigger] ab[i]).diff_reg >= stat(st, #[trigger] ab[j]).diff_reg by {
            if j < a.len() {
                assert(ab[i] == a[i] && ab[j] == a[j]);
            } else if i >= a.len() {
                assert(ab[i] == b[i - a.len()] && ab[j] == b[j - a.len()]);
            } else {
                assert(ab[i] == a[i] && ab[j] == b[j - a.len()]);
                let m = choose|m: int| 0 <= m < n - 1 && stat(st, #[trigger] a[i]).diff_reg as i128 == ks[m];
                assert(ks[m] > ks[n - 1]);
            }
        }
        assert forall|p: int| 0 <= p < ab.len() implies exists|i: int| 0 <= i < n && stat(st, #[trigger] ab[p]).diff_reg as i128 == ks[i] by {
            if p < a.len() {
                assert(ab[p] == a[p]);
                let m = choose|m: int| 0 <= m < n - 1 && stat(st, #[trigger] a[p]).diff_reg as i128 == ks[m];
            } else {
                assert(ab[p] == b[p - a.len()]);
            }
        }
    }
}

/// Breaking a tie on the table lists the clubs by point difference, largest
/// first.
pub proof fn law_global_by_difference(teams: Seq<Team>, st: Map<u32, TeamStats>)
    ensures
        diff_sorted(model_teams(global_spec(teams, st)), st),
{
    let dgs = groups_desc(diff_items(teams, st));
    lemma_diff_slots_sorted(teams, st, dgs.len() as int);
    assert(dgs.take(dgs.len() as int) == dgs);
    lemma_combine(diff_group_slots(dgs, st));
}

/// Two clubs that the rules can order are ordered the same way whichever of
/// them is named first.
pub proof fn law_two_clubs_symmetric(a: Team, b: Team, st: Map<u32, TeamStats>, h: Map<u32, H2HRecord>)
    ensures
        tie_spec(seq![a, b], st, h) is Resolved ==> tie_spec(seq![b, a], st, h) == tie_spec(seq![a, b], st, h),
{
    lemma_pair_code(a, b, b, a);
    assert(seq![a, b][0] == a && seq![a, b][1] == b);
    assert(seq![b, a][0] == b && seq![b, a][1] == a);
    assert(complete_of(h, a, b) == complete_of(h, b, a));
}

/// A group of three or more clubs goes to its head-to-head mini-league only
/// when every two of its clubs have met twice: if any two have not, the
/// result is a single open tie holding the whole group, with the note that
/// lists the pairs that have not and the mini-table.
pub proof fn law_unmet_pair_keeps_group_tied(teams: Seq<Team>, st: Map<u32, TeamStats>, h: Map<u32, H2HRecord>, i: int, j: int)
    requires
        teams.len() >= 3,
        0 <= i < j < teams.len(),
        !complete_of(h, teams[i], teams[j]),
    ensures
        tie_spec(teams, st, h) == TieModel::Unresolved(seq![SlotModel::Tied(teams, incomplete_note(teams, st, h))]),
{
    assert(!all_met(teams, h));
}

proof fn lemma_select_absent(items: Seq<(Team, i128)>, k: i128)
    requires
        forall|p: int| 0 <= p < items.len() ==> #[trigger] items[p].1 != k,
    ensures
        select_key(items, k).len() == 0,
    decreases items.len(),
{
    if items.len() > 0 {
        let init = items.drop_last();
        assert forall|p: int| 0 <= p < init.len() implies #[trigger] init[p].1 != k by {
            assert(init[p] == items[p]);
        }
        lemma_select_absent(init, k);
        assert(items[items.len() - 1].1 != k);
    }
}

/// With keys that differ, each key selects at most one club.
proof fn lemma_select_single(items: Seq<(Team, i128)>, k: i128)
    requires
        forall|p: int, q: int| 0 <= p < q < items.len() ==> #[trigger] items[p].1 != #[trigger] items[q].1,
    ensures
        select_key(items, k).len() <= 1,
    decreases items.len(),
{
    if items.len() > 0 {
        let init = items.drop_last();
        let n = items.len() - 1;
        assert forall|p: int, q: int| 0 <= p < q < init.len() implies #[trigger] init[p].1 != #[trigger] init[q].1 by {
            assert(init[p] == items[p] && init[q] == items[q]);
        }
        lemma_select_single(init, k);
        if items[n].1 == k {
            assert forall|p: int| 0 <= p < init.len() implies #[trigger] init[p].1 != k by {
                assert(init[p] == items[p]);
                assert(items[p].1 != items[n].1);
            }
            lemma_select_absent(init, k);
        }
    }
}

proof fn lemma_concat_singletons(gs: Seq<Seq<Team>>)
    requires
        forall|m: int| 0 <= m < gs.len() ==> #[trigger] gs[m].len() == 1,
    ensures
        concat_all(gs) == Seq::new(gs.len(), |m: int| gs[m][0]),
    decreases gs.len(),
{
    if gs.len() > 0 {
        let init = gs.drop_last();
        assert forall|m: int| 0 <= m < init.len() implies #[trigger] init[m].len() == 1 by {
            assert(init[m] == gs[m]);
        }
        lemma_concat_singletons(init);
        assert(gs[gs.len() - 1].len() == 1);
        assert(concat_all(gs) =~= Seq::new(gs.len(), |m: int| gs[m][0]));
    }
}

proof fn lemma_slots_singletons(gs: Seq<Seq<Team>>, st: Map<u32, TeamStats>, h: Map<u32, H2HRecord>, depth: int)
    requires
        depth <= 10,
        forall|m: int| 0 <= m < gs.len() ==> #[trigger] gs[m].len() == 1,
    ensures
        slots_spec(gs, st, h, depth) == Seq::new(gs.len(), |m: int| SlotModel::Resolved(gs[m][0])),
    decreases gs.len(),
{
    if gs.len() > 0 {
        let init = gs.drop_last();
        assert forall|m: int| 0 <= m < init.len() implies #[trigger] init[m].len() == 1 by {
            assert(init[m] == gs[m]);
        }
        lemma_slots_singletons(init, st, h, depth);
        assert(gs[gs.len() - 1].len() == 1);
        assert(slots_spec(gs, st, h, depth) =~= Seq::new(gs.len(), |m: int| SlotModel::Resolved(gs[m][0])));
    }
}

proof fn lemma_wins_total_bound(teams: Seq<Team>, h: Map<u32, H2HRecord>, t: Team)
    ensures
        0 <= wins_total(teams, h, t) <= teams.len() * 0xffff_ffff,
    decreases teams.len(),
{
    if teams.len() > 0 {
        lemma_wins_total_bound(teams.drop_last(), h, t);
    }
}

/// When every two clubs of a group of three or more have met twice and the
/// clubs' wins in their mini-league all differ, the tie is broken: the
/// group comes out as an ordering of its clubs by mini-league wins, most
/// first.
pub proof fn law_mini_league_orders_by_wins(teams: Seq<Team>, st: Map<u32, TeamStats>, h: Map<u32, H2HRecord>)
    requires
        3 <= teams.len() <= 20,
        forall|i: int, j: int| 0 <= i < j < teams.len() ==> complete_of(h, #[trigger] teams[i], #[trigger] teams[j]),
        forall|i: int, j: int| 0 <= i < j < teams.len()
            ==> wins_total(teams, h, #[trigger] teams[i]) != wins_total(teams, h, #[trigger] teams[j]),
    ensures
        tie_spec(teams, st, h) is Resolved,
        model_teams(tie_spec(teams, st, h)).to_multiset() == teams.to_multiset(),
        forall|a: int, b: int| 0 <= a < b < model_teams(tie_spec(teams, st, h)).len()
            ==> wins_total(teams, h, #[trigger] model_teams(tie_spec(teams, st, h))[a])
                > wins_total(teams, h, #[trigger] model_teams(tie_spec(teams, st, h))[b]),
{
    let items = wins_items(teams, h);
    let wg = groups_desc(items);
    let ks = keys_desc(items);
    assert(all_met(teams, h));
    lemma_groups(items);
    lemma_teams_of(items);
    assert(teams_of(items) =~= teams);
    assert forall|t: Team| 0 <= #[trigger] wins_total(teams, h, t) <= 20 * 0xffff_ffff by {
        lemma_wins_total_bound(teams, h, t);
    }
    assert forall|p: int, q: int| 0 <= p < q < items.len() implies #[trigger] items[p].1 != #[trigger] items[q].1 by {
        assert(wins_total(teams, h, teams[p]) != wins_total(teams, h, teams[q]));
    }
    assert forall|m: int| 0 <= m < wg.len() implies #[trigger] wg[m].len() == 1 by {
        lemma_select_single(items, ks[m]);
    }
    lemma_concat_singletons(wg);
    let o = Seq::new(wg.len(), |m: int| wg[m][0]);
    assert(concat_all(wg) == o);
    assert(o.len() == teams.len()) by {
        assert(o.to_multiset().len() == teams.to_multiset().len());
    }
    assert(wg.len() > 1);
    lemma_slots_singletons(wg, st, h, 0);
    let ss = slots_spec(wg, st, h, 0);
    assert(forall|m: int| 0 <= m < ss.len() ==> #[trigger] ss[m] is Resolved);
    assert(ss.map_values(|s: SlotModel| s->Resolved_0) =~= o);
    assert(tie_spec(teams, st, h) == TieModel::Resolved(o));
    assert forall|a: int, b: int| 0 <= a < b < o.len() implies wins_total(teams, h, #[trigger] o[a]) > wins_total(teams, h, #[trigger] o[b]) by {
        lemma_group_member(items, a, 0);
        lemma_group_member(items, b, 0);
        let pa = choose|p: int| 0 <= p < items.len() && #[trigger] items[p] == (o[a], ks[a]);
        let pb = choose|p: int| 0 <= p < items.len() && #[trigger] items[p] == (o[b], ks[b]);
        assert(items[pa].0 == teams[pa]);
        assert(items[pb].0 == teams[pb]);
        assert(ks[a] > ks[b]);
    }
}

/// Whether one club goes above another when the two are level on wins:
/// if they have met twice, by more wins in their series, then by a better
/// point difference in it; if not, by a better overall point difference,
/// then by more points scored.
pub open spec fn goes_above(x: Team, y: Team, st: Map<u32, TeamStats>, h: Map<u32, H2HRecord>) -> bool {
    if complete_of(h, x, y) {
        wins_of(h, x, y) > wins_of(h, y, x)
            || (wins_of(h, x, y) == wins_of(h, y, x) && diff_of(h, x, y) > diff_of(h, y, x))
    } else {
        stat(st, x).diff_reg > stat(st, y).diff_reg
            || (stat(st, x).diff_reg == stat(st, y).diff_reg && stat(st, x).pf_reg > stat(st, y).pf_reg)
    }
}

/// Two clubs level on wins: the one that goes above the other comes first,
/// and when neither does the tie stays open, holding both.
pub proof fn law_two_clubs_order(a: Team, b: Team, st: Map<u32, TeamStats>, h: Map<u32, H2HRecord>)
    ensures
        goes_above(a, b, st, h) ==> tie_spec(seq![a, b], st, h) == TieModel::Resolved(seq![a, b]),
        goes_above(b, a, st, h) ==> tie_spec(seq![a, b], st, h) == TieModel::Resolved(seq![b, a]),
        !goes_above(a, b, st, h) && !goes_above(b, a, st, h) ==> (tie_spec(seq![a, b], st, h) is Unresolved
            && model_teams(tie_spec(seq![a, b], st, h)) == seq![a, b]),
{
    lemma_pair_code(a, b, b, a);
    assert(complete_of(h, a, b) == complete_of(h, b, a));
    assert(seq![a, b][0] == a && seq![a, b][1] == b);
    lemma_two_teams(a, b, st, h);
    if !goes_above(a, b, st, h) && !goes_above(b, a, st, h) {
        let m = tie_spec(seq![a, b], st, h);
        match m {
            TieModel::Unresolved(ss) => {
                assert(ss.len() == 1);
                assert(ss.drop_last() == Seq::<SlotModel>::empty());
                assert(slots_teams(ss.drop_last()) == Seq::<Team>::empty());
                assert(slots_teams(ss) =~= seq![a, b]);
            },
            TieModel::Resolved(_) => {},
        }
    }
}

} // verus!
