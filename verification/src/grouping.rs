//! Grouping of clubs by an integer key, in descending order of the key,
//! each group keeping the clubs in the order in which they were given.
//! This is what every step of the table and of the tie-break does: split the
//! clubs by wins, by head-to-head results or by point difference.

use vstd::prelude::*;
use crate::team::Team;

verus! {

broadcast use vstd::seq_lib::group_to_multiset_ensures, vstd::multiset::group_multiset_axioms;

/// The clubs of the keyed items, in order.
pub open spec fn teams_of(items: Seq<(Team, i128)>) -> Seq<Team>
    decreases items.len(),
{
    if items.len() == 0 {
        seq![]
    } else {
        teams_of(items.drop_last()).push(items.last().0)
    }
}

/// The largest key of the items (0 when there is none).
pub open spec fn max_key(items: Seq<(Team, i128)>) -> i128
    decreases items.len(),
{
    if items.len() == 0 {
        0
    } else if items.len() == 1 {
        items[0].1
    } else {
        let m = max_key(items.drop_last());
        if items.last().1 > m { items.last().1 } else { m }
    }
}

/// The clubs whose key is `k`, in order.
pub open spec fn select_key(items: Seq<(Team, i128)>, k: i128) -> Seq<Team>
    decreases items.len(),
{
    if items.len() == 0 {
        seq![]
    } else if items.last().1 == k {
        select_key(items.drop_last(), k).push(items.last().0)
    } else {
        select_key(items.drop_last(), k)
    }
}

/// The items whose key is not `k`, in order.
pub open spec fn drop_key(items: Seq<(Team, i128)>, k: i128) -> Seq<(Team, i128)>
    decreases items.len(),
{
    if items.len() == 0 {
        seq![]
    } else if items.last().1 == k {
        drop_key(items.drop_last(), k)
    } else {
        drop_key(items.drop_last(), k).push(items.last())
    }
}

/// Whether `(t, k)` is one of the items.
pub open spec fn has_item(items: Seq<(Team, i128)>, t: Team, k: i128) -> bool {
    exists|p: int| 0 <= p < items.len() && #[trigger] items[p] == (t, k)
}

/// Whether some item has key `k`.
pub open spec fn has_key(items: Seq<(Team, i128)>, k: i128) -> bool {
    exists|p: int| 0 <= p < items.len() && #[trigger] items[p].1 == k
}

/// The groups of clubs with equal keys, the largest key first; each group
/// keeps the order of the items.
pub open spec fn groups_desc(items: Seq<(Team, i128)>) -> Seq<Seq<Team>>
    decreases items.len(),
{
    if items.len() == 0 {
        seq![]
    } else {
        let m = max_key(items);
        proof {
            lemma_drop_max_shorter(items);
        }
        seq![select_key(items, m)] + groups_desc(drop_key(items, m))
    }
}

/// The distinct keys of the items, the largest first.
pub open spec fn keys_desc(items: Seq<(Team, i128)>) -> Seq<i128>
    decreases items.len(),
{
    if items.len() == 0 {
        seq![]
    } else {
        let m = max_key(items);
        proof {
            lemma_drop_max_shorter(items);
        }
        seq![m] + keys_desc(drop_key(items, m))
    }
}

/// The concatenation of the groups, in order.
pub open spec fn concat_all(gs: Seq<Seq<Team>>) -> Seq<Team>
    decreases gs.len(),
{
    if gs.len() == 0 {
        seq![]
    } else {
        concat_all(gs.drop_last()) + gs.last()
    }
}

/// The views of a vector of vectors.
pub open spec fn views(gs: Seq<Vec<Team>>) -> Seq<Seq<Team>> {
    gs.map_values(|g: Vec<Team>| g@)
}

pub proof fn lemma_teams_of(items: Seq<(Team, i128)>)
    ensures
        teams_of(items).len() == items.len(),
        forall|i: int| 0 <= i < items.len() ==> #[trigger] teams_of(items)[i] == items[i].0,
    decreases items.len(),
{
    if items.len() > 0 {
        lemma_teams_of(items.drop_last());
    }
}

pub proof fn lemma_max_key(items: Seq<(Team, i128)>)
    requires
        items.len() > 0,
    ensures
        has_key(items, max_key(items)),
        forall|p: int| 0 <= p < items.len() ==> #[trigger] items[p].1 <= max_key(items),
    decreases items.len(),
{
    if items.len() > 1 {
        let s = items.drop_last();
        lemma_max_key(s);
        let w = choose|p: int| 0 <= p < s.len() && #[trigger] s[p].1 == max_key(s);
        if items.last().1 > max_key(s) {
            assert(items[items.len() - 1].1 == max_key(items));
        } else {
            assert(items[w].1 == max_key(items));
        }
        assert forall|p: int| 0 <= p < items.len() implies #[trigger] items[p].1 <= max_key(items) by {
            if p < items.len() - 1 {
                assert(items[p] == s[p]);
            }
        }
    } else {
        assert(items[0].1 == max_key(items));
    }
}

/// Selecting a key and dropping it split the items.
pub proof fn lemma_split(items: Seq<(Team, i128)>, k: i128)
    ensures
        select_key(items, k).len() + drop_key(items, k).len() == items.len(),
        select_key(items, k).to_multiset().add(teams_of(drop_key(items, k)).to_multiset())
            == teams_of(items).to_multiset(),
        has_key(items, k) ==> select_key(items, k).len() > 0,
        forall|j: int| 0 <= j < select_key(items, k).len()
            ==> has_item(items, #[trigger] select_key(items, k)[j], k),
        forall|j: int| 0 <= j < drop_key(items, k).len()
            ==> #[trigger] drop_key(items, k)[j].1 != k
                && has_item(items, drop_key(items, k)[j].0, drop_key(items, k)[j].1),
        forall|k2: i128| k2 != k ==> #[trigger] select_key(drop_key(items, k), k2) == select_key(items, k2),
        forall|k2: i128| k2 != k && has_key(items, k2) ==> #[trigger] has_key(drop_key(items, k), k2),
    decreases items.len(),
{
    if items.len() > 0 {
        let s = items.drop_last();
        let x = items.last();
        lemma_split(s, k);
        assert(teams_of(items) == teams_of(s).push(x.0));
        let sel = select_key(items, k);
        let dr = drop_key(items, k);
        if x.1 == k {
            assert(teams_of(dr) == teams_of(drop_key(s, k)));
        } else {
            assert(dr.drop_last() == drop_key(s, k));
            assert(teams_of(dr) == teams_of(drop_key(s, k)).push(x.0));
        }
        assert forall|j: int| 0 <= j < sel.len() implies has_item(items, #[trigger] sel[j], k) by {
            if j < select_key(s, k).len() {
                assert(sel[j] == select_key(s, k)[j]);
                let p = choose|p: int| 0 <= p < s.len() && #[trigger] s[p] == (select_key(s, k)[j], k);
                assert(items[p] == s[p]);
            } else {
                assert(items[items.len() - 1] == (sel[j], k));
            }
        }
        assert forall|j: int| 0 <= j < dr.len() implies #[trigger] dr[j].1 != k && has_item(items, dr[j].0, dr[j].1) by {
            if j < drop_key(s, k).len() {
                assert(dr[j] == drop_key(s, k)[j]);
                let p = choose|p: int| 0 <= p < s.len() && #[trigger] s[p] == (drop_key(s, k)[j].0, drop_key(s, k)[j].1);
                assert(items[p] == s[p]);
            } else {
                assert(items[items.len() - 1] == (dr[j].0, dr[j].1));
            }
        }
        assert forall|k2: i128| k2 != k implies #[trigger] select_key(drop_key(items, k), k2) == select_key(items, k2) by {
            assert(select_key(drop_key(s, k), k2) == select_key(s, k2));
            if x.1 != k {
                assert(drop_key(items, k).drop_last() == drop_key(s, k));
            }
        }
        assert forall|k2: i128| k2 != k && has_key(items, k2) implies #[trigger] has_key(drop_key(items, k), k2) by {
            let p = choose|p: int| 0 <= p < items.len() && #[trigger] items[p].1 == k2;
            if p < items.len() - 1 {
                assert(s[p].1 == k2);
                assert(has_key(s, k2));
                assert(has_key(drop_key(s, k), k2));
                let q = choose|q: int| 0 <= q < drop_key(s, k).len() && #[trigger] drop_key(s, k)[q].1 == k2;
                assert(dr[q] == drop_key(s, k)[q]);
            } else {
                assert(dr[dr.len() - 1].1 == k2);
            }
        }
        if has_key(items, k) {
            let p = choose|p: int| 0 <= p < items.len() && #[trigger] items[p].1 == k;
            if p < items.len() - 1 {
                assert(s[p].1 == k);
            }
        }
    } else {
        assert(teams_of(items) == Seq::<Team>::empty());
    }
}

pub proof fn lemma_drop_max_shorter(items: Seq<(Team, i128)>)
    requires
        items.len() > 0,
    ensures
        drop_key(items, max_key(items)).len() < items.len(),
{
    lemma_max_key(items);
    lemma_split(items, max_key(items));
}

/// The groups are the selections of the keys, every group is non-empty, the
/// keys fall strictly, every key of the items has a group, and together the
/// groups hold exactly the clubs of the items.
pub proof fn lemma_groups(items: Seq<(Team, i128)>)
    ensures
        groups_desc(items).len() == keys_desc(items).len(),
        forall|i: int| 0 <= i < groups_desc(items).len()
            ==> #[trigger] groups_desc(items)[i] == select_key(items, keys_desc(items)[i]),
        forall|i: int| 0 <= i < groups_desc(items).len() ==> #[trigger] groups_desc(items)[i].len() > 0,
        forall|i: int| 0 <= i < keys_desc(items).len() ==> has_key(items, #[trigger] keys_desc(items)[i]),
        forall|i: int, j: int| 0 <= i < j < keys_desc(items).len()
            ==> #[trigger] keys_desc(items)[i] > #[trigger] keys_desc(items)[j],
        forall|k: i128| has_key(items, k) ==> #[trigger] keys_desc(items).contains(k),
        concat_all(groups_desc(items)).to_multiset() == teams_of(items).to_multiset(),
    decreases items.len(),
{
    if items.len() > 0 {
        let m = max_key(items);
        let rest = drop_key(items, m);
        lemma_max_key(items);
        lemma_split(items, m);
        lemma_groups(rest);
        let gs = groups_desc(items);
        let ks = keys_desc(items);
        let gr = groups_desc(rest);
        let kr = keys_desc(rest);
        assert(gs == seq![select_key(items, m)] + gr);
        assert(ks == seq![m] + kr);
        assert forall|i: int| 0 <= i < gs.len() implies #[trigger] gs[i] == select_key(items, ks[i]) by {
            if i > 0 {
                assert(gs[i] == gr[i - 1]);
                assert(ks[i] == kr[i - 1]);
                let q = choose|q: int| 0 <= q < rest.len() && #[trigger] rest[q].1 == kr[i - 1];
                assert(rest[q].1 != m);
            }
        }
        assert forall|i: int| 0 <= i < gs.len() implies #[trigger] gs[i].len() > 0 by {
            if i > 0 {
                assert(gs[i] == gr[i - 1]);
            }
        }
        assert forall|i: int| 0 <= i < ks.len() implies has_key(items, #[trigger] ks[i]) by {
            if i > 0 {
                assert(ks[i] == kr[i - 1]);
                let q = choose|q: int| 0 <= q < rest.len() && #[trigger] rest[q].1 == kr[i - 1];
                let p = choose|p: int| 0 <= p < items.len() && #[trigger] items[p] == (rest[q].0, rest[q].1);
                assert(items[p].1 == ks[i]);
            }
        }
        assert forall|i: int, j: int| 0 <= i < j < ks.len() implies #[trigger] ks[i] > #[trigger] ks[j] by {
            assert(ks[j] == kr[j - 1]);
            let q = choose|q: int| 0 <= q < rest.len() && #[trigger] rest[q].1 == kr[j - 1];
            let p = choose|p: int| 0 <= p < items.len() && #[trigger] items[p] == (rest[q].0, rest[q].1);
            assert(items[p].1 <= m);
            if i > 0 {
                assert(ks[i] == kr[i - 1]);
            }
        }
        assert forall|k: i128| has_key(items, k) implies #[trigger] ks.contains(k) by {
            if k == m {
                assert(ks[0] == m);
            } else {
                assert(has_key(rest, k));
                assert(kr.contains(k));
                let j = choose|j: int| 0 <= j < kr.len() && kr[j] == k;
                assert(ks[j + 1] == k);
                assert(ks.contains(k));
            }
        }
        lemma_concat_prepend(select_key(items, m), gr);
        vstd::seq_lib::lemma_multiset_commutative(select_key(items, m), concat_all(gr));
    } else {
        assert(concat_all(groups_desc(items)) == Seq::<Team>::empty());
        assert(teams_of(items) == Seq::<Team>::empty());
    }
}

pub proof fn lemma_concat_prepend(g: Seq<Team>, gs: Seq<Seq<Team>>)
    ensures
        concat_all(seq![g] + gs) == g + concat_all(gs),
    decreases gs.len(),
{
    if gs.len() == 0 {
        assert(seq![g] + gs == seq![g]);
        assert(seq![g].drop_last() == Seq::<Seq<Team>>::empty());
        assert(concat_all(seq![g]) == concat_all(Seq::<Seq<Team>>::empty()) + g);
        assert(Seq::<Team>::empty() + g == g);
        assert(g + Seq::<Team>::empty() == g);
    } else {
        lemma_concat_prepend(g, gs.drop_last());
        let s = seq![g] + gs;
        assert(s.drop_last() == seq![g] + gs.drop_last());
        assert(s.last() == gs.last());
        assert(concat_all(s) == concat_all(s.drop_last()) + s.last());
        assert(concat_all(gs) == concat_all(gs.drop_last()) + gs.last());
        assert(g + concat_all(gs.drop_last()) + gs.last() == g + (concat_all(gs.drop_last()) + gs.last()));
    }
}

pub proof fn lemma_concat_append(a: Seq<Seq<Team>>, b: Seq<Seq<Team>>)
    ensures
        concat_all(a + b) == concat_all(a) + concat_all(b),
    decreases b.len(),
{
    if b.len() == 0 {
        assert(a + b == a);
    } else {
        lemma_concat_append(a, b.drop_last());
        assert((a + b).drop_last() == a + b.drop_last());
    }
}

/// Every member of a group is an item with the group's key.
pub proof fn lemma_group_member(items: Seq<(Team, i128)>, i: int, j: int)
    requires
        0 <= i < groups_desc(items).len(),
        0 <= j < groups_desc(items)[i].len(),
    ensures
        has_item(items, groups_desc(items)[i][j], keys_desc(items)[i]),
{
    lemma_groups(items);
    lemma_split(items, keys_desc(items)[i]);
}

/// A club of the concatenation is a member of one of the groups.
pub proof fn lemma_concat_member(gs: Seq<Seq<Team>>, x: Team)
    requires
        concat_all(gs).contains(x),
    ensures
        exists|m: int, i: int| 0 <= m < gs.len() && 0 <= i < gs[m].len() && #[trigger] gs[m][i] == x,
    decreases gs.len(),
{
    if gs.len() > 0 {
        let a = concat_all(gs.drop_last());
        let b = gs.last();
        let p = choose|p: int| 0 <= p < concat_all(gs).len() && concat_all(gs)[p] == x;
        if p < a.len() {
            assert(a[p] == x);
            assert(a.contains(x));
            lemma_concat_member(gs.drop_last(), x);
            let (m, i) = choose|m: int, i: int| 0 <= m < gs.drop_last().len() && 0 <= i < gs.drop_last()[m].len()
                && #[trigger] gs.drop_last()[m][i] == x;
            assert(gs[m][i] == x);
        } else {
            assert(b[p - a.len()] == x);
            assert(gs[gs.len() - 1][p - a.len()] == x);
        }
    } else {
        assert(concat_all(gs).len() == 0);
    }
}

/// Each group is part of the concatenation.
pub proof fn lemma_group_in_concat(gs: Seq<Seq<Team>>, m: int)
    requires
        0 <= m < gs.len(),
    ensures
        gs[m].to_multiset().subset_of(concat_all(gs).to_multiset()),
    decreases gs.len(),
{
    let a = concat_all(gs.drop_last());
    let b = gs.last();
    vstd::seq_lib::lemma_multiset_commutative(a, b);
    if m < gs.len() - 1 {
        lemma_group_in_concat(gs.drop_last(), m);
        assert(gs.drop_last()[m] == gs[m]);
    }
}


/// The largest key of the items.
fn max_key_exec(items: &Vec<(Team, i128)>) -> (m: i128)
    requires
        items.len() > 0,
    ensures
        m == max_key(items@),
{
    let mut m = items[0].1;
    let mut i: usize = 1;
    while i < items.len()
        invariant
            1 <= i <= items.len(),
            m == max_key(items@.take(i as int)),
        decreases items.len() - i,
    {
        assert(items@.take(i + 1).drop_last() == items@.take(i as int));
        if items[i].1 > m {
            m = items[i].1;
        }
        i = i + 1;
    }
    assert(items@.take(items.len() as int) == items@);
    m
}

/// The clubs with key `k`, and the items with another key.
fn split_key(items: &Vec<(Team, i128)>, k: i128) -> (r: (Vec<Team>, Vec<(Team, i128)>))
    ensures
        r.0@ == select_key(items@, k),
        r.1@ == drop_key(items@, k),
{
    let mut sel: Vec<Team> = Vec::new();
    let mut rest: Vec<(Team, i128)> = Vec::new();
    for i in 0..items.len()
        invariant
            sel@ == select_key(items@.take(i as int), k),
            rest@ == drop_key(items@.take(i as int), k),
    {
        assert(items@.take(i + 1).drop_last() == items@.take(i as int));
        let x = items[i];
        if x.1 == k {
            sel.push(x.0);
        } else {
            rest.push(x);
        }
    }
    assert(items@.take(items.len() as int) == items@);
    (sel, rest)
}

/// The groups of clubs with equal keys, the largest key first, each group in
/// the order of the items.
pub fn group_desc(items: &Vec<(Team, i128)>) -> (gs: Vec<Vec<Team>>)
    ensures
        views(gs@) == groups_desc(items@),
{
    let mut gs: Vec<Vec<Team>> = Vec::new();
    let mut rest: Vec<(Team, i128)> = Vec::new();
    for i in 0..items.len()
        invariant
            rest@ == items@.take(i as int),
    {
        rest.push(items[i]);
    }
    assert(rest@ == items@);
    while rest.len() > 0
        invariant
            views(gs@) + groups_desc(rest@) == groups_desc(items@),
        decreases rest.len(),
    {
        let m = max_key_exec(&rest);
        proof {
            lemma_drop_max_shorter(rest@);
        }
        let (sel, next) = split_key(&rest, m);
        let ghost old_gs = gs@;
        gs.push(sel);
        assert(views(gs@) == views(old_gs).push(sel@));
        assert(groups_desc(rest@) == seq![sel@] + groups_desc(next@));
        assert(views(gs@) + groups_desc(next@) == views(old_gs) + groups_desc(rest@));
        rest = next;
    }
    assert(views(gs@) + Seq::<Seq<Team>>::empty() == views(gs@));
    gs
}

/// The clubs sorted by key, the largest first, clubs with equal keys keeping
/// the order of the items (a stable sort).
pub fn sort_desc(items: &Vec<(Team, i128)>) -> (v: Vec<Team>)
    ensures
        v@ == concat_all(groups_desc(items@)),
{
    let gs = group_desc(items);
    let mut v: Vec<Team> = Vec::new();
    for i in 0..gs.len()
        invariant
            views(gs@) == groups_desc(items@),
            v@ == concat_all(views(gs@).take(i as int)),
    {
        assert(views(gs@).take(i + 1).drop_last() == views(gs@).take(i as int));
        let g = &gs[i];
        let ghost before = v@;
        for j in 0..g.len()
            invariant
                v@ == before + g@.take(j as int),
        {
            v.push(g[j]);
            assert(g@.take(j + 1) == g@.take(j as int).push(g@[j as int]));
        }
        assert(g@.take(g.len() as int) == g@);
        assert(views(gs@)[i as int] == g@);
    }
    assert(views(gs@).take(gs.len() as int) == views(gs@));
    v
}

} // verus!
