//! The order in which the chosen results are applied does not matter:
//! swapping two neighbouring results, where both orders keep every count in
//! range, gives the same final table and series, and so the same scenario
//! table.

use vstd::prelude::*;
use crate::team::Team;
use crate::types::{TeamStats, H2HRecord, RemainingGame, GameOutcome};
use crate::h2h::{
    after_game, game_fits, pair_code, key_of, game_credit, series_or_new, credited, lemma_pair_code,
};
use crate::tiebreak::stats_key;
use crate::scenario::{
    after_result, result_fits, winner_loser, credit_win, credit_loss, win_fits, loss_fits, applied, outcomes_fit, scenario_table,
    stats_table, lemma_fit_prefix,
};

verus! {

/// A line after one result: credited a win if it is the winner's, then a
/// loss if it is the loser's.
pub open spec fn credit_line(s: TeamStats, k: u32, w: Team, l: Team) -> TeamStats {
    let s1 = if k == stats_key(w) { credit_win(s) } else { s };
    if k == stats_key(l) { credit_loss(s1) } else { s1 }
}

proof fn lemma_after_result_lines(st: Map<u32, TeamStats>, w: Team, l: Team)
    ensures
        after_result(st, w, l).dom() == st.dom(),
        forall|k: u32| #[trigger] st.contains_key(k) ==> after_result(st, w, l)[k] == credit_line(st[k], k, w, l),
{
    assert(after_result(st, w, l).dom() =~= st.dom());
}

/// Whether crediting the result to the line keeps it in range.
pub open spec fn line_fits(s: TeamStats, k: u32, w: Team, l: Team) -> bool {
    let s1 = if k == stats_key(w) { credit_win(s) } else { s };
    &&& k == stats_key(w) ==> win_fits(s)
    &&& k == stats_key(l) ==> loss_fits(s1)
}

proof fn lemma_result_fits_lines(st: Map<u32, TeamStats>, w: Team, l: Team)
    requires
        result_fits(st, w, l),
    ensures
        forall|k: u32| #[trigger] st.contains_key(k) ==> line_fits(st[k], k, w, l),
{
}

proof fn lemma_line_commute(s: TeamStats, k: u32, w1: Team, l1: Team, w2: Team, l2: Team)
    requires
        line_fits(s, k, w1, l1),
        line_fits(credit_line(s, k, w1, l1), k, w2, l2),
        line_fits(s, k, w2, l2),
        line_fits(credit_line(s, k, w2, l2), k, w1, l1),
    ensures
        credit_line(credit_line(s, k, w1, l1), k, w2, l2) == credit_line(credit_line(s, k, w2, l2), k, w1, l1),
{
}

/// Crediting two results to the table in either order gives the same table,
/// where both orders keep the lines in range.
proof fn lemma_results_commute(st: Map<u32, TeamStats>, w1: Team, l1: Team, w2: Team, l2: Team)
    requires
        result_fits(st, w1, l1),
        result_fits(after_result(st, w1, l1), w2, l2),
        result_fits(st, w2, l2),
        result_fits(after_result(st, w2, l2), w1, l1),
    ensures
        after_result(after_result(st, w1, l1), w2, l2) == after_result(after_result(st, w2, l2), w1, l1),
{
    let s1 = after_result(st, w1, l1);
    let s2 = after_result(st, w2, l2);
    lemma_after_result_lines(st, w1, l1);
    lemma_after_result_lines(st, w2, l2);
    lemma_after_result_lines(s1, w2, l2);
    lemma_after_result_lines(s2, w1, l1);
    lemma_result_fits_lines(st, w1, l1);
    lemma_result_fits_lines(st, w2, l2);
    lemma_result_fits_lines(s1, w2, l2);
    lemma_result_fits_lines(s2, w1, l1);
    let a = after_result(s1, w2, l2);
    let b = after_result(s2, w1, l1);
    assert forall|k: u32| #[trigger] a.contains_key(k) implies a[k] == b[k] by {
        assert(st.contains_key(k));
        assert(s1.contains_key(k) && s2.contains_key(k));
        lemma_line_commute(st[k], k, w1, l1, w2, l2);
    }
    assert(a =~= b);
}

/// Whether crediting a win and a margin to a series keeps it in range.
pub open spec fn credit_fits(rec: H2HRecord, first: Team, winner: Team, margin: int) -> bool {
    &&& margin <= i32::MAX
    &&& rec.games_played + 1 <= u32::MAX
    &&& if first == winner {
        &&& rec.wins_a + 1 <= u32::MAX
        &&& i32::MIN <= rec.diff_a + margin <= i32::MAX
        &&& i32::MIN <= rec.diff_b - margin <= i32::MAX
    } else {
        &&& rec.wins_b + 1 <= u32::MAX
        &&& i32::MIN <= rec.diff_b + margin <= i32::MAX
        &&& i32::MIN <= rec.diff_a - margin <= i32::MAX
    }
}

proof fn lemma_credited_commute(rec: H2HRecord, first: Team, w1: Team, m1: int, w2: Team, m2: int)
    requires
        credit_fits(rec, first, w1, m1),
        credit_fits(credited(rec, first, w1, m1), first, w2, m2),
        credit_fits(rec, first, w2, m2),
        credit_fits(credited(rec, first, w2, m2), first, w1, m1),
    ensures
        credited(credited(rec, first, w1, m1), first, w2, m2) == credited(credited(rec, first, w2, m2), first, w1, m1),
{
}

proof fn lemma_fits_credit(h: Map<u32, H2HRecord>, g: RemainingGame, o: GameOutcome)
    requires
        game_fits(h, g, o),
    ensures
        credit_fits(series_or_new(h, g.home, g.away), key_of(g.home, g.away).0, game_credit(g, o).0, game_credit(g, o).1),
        after_game(h, g, o) == h.insert(pair_code(g.home, g.away),
            credited(series_or_new(h, g.home, g.away), key_of(g.home, g.away).0, game_credit(g, o).0, game_credit(g, o).1)),
{
}

#[verifier::spinoff_prover]
#[verifier::rlimit(80)]
proof fn lemma_games_commute_same(h: Map<u32, H2HRecord>, g1: RemainingGame, o1: GameOutcome, g2: RemainingGame, o2: GameOutcome)
    requires
        pair_code(g1.home, g1.away) == pair_code(g2.home, g2.away),
        key_of(g1.home, g1.away) == key_of(g2.home, g2.away),
        game_fits(h, g1, o1),
        game_fits(after_game(h, g1, o1), g2, o2),
        game_fits(h, g2, o2),
        game_fits(after_game(h, g2, o2), g1, o1),
    ensures
        after_game(after_game(h, g1, o1), g2, o2) == after_game(after_game(h, g2, o2), g1, o1),
{
    let c = pair_code(g1.home, g1.away);
    let first = key_of(g1.home, g1.away).0;
    let w1 = game_credit(g1, o1).0;
    let m1 = game_credit(g1, o1).1;
    let w2 = game_credit(g2, o2).0;
    let m2 = game_credit(g2, o2).1;
    let rec = series_or_new(h, g1.home, g1.away);
    let h1 = after_game(h, g1, o1);
    let h2 = after_game(h, g2, o2);
    lemma_fits_credit(h, g1, o1);
    lemma_fits_credit(h, g2, o2);
    lemma_fits_credit(h1, g2, o2);
    lemma_fits_credit(h2, g1, o1);
    assert(series_or_new(h, g2.home, g2.away) == rec);
    assert(h1 == h.insert(c, credited(rec, first, w1, m1)));
    assert(h2 == h.insert(c, credited(rec, first, w2, m2)));
    assert(series_or_new(h1, g2.home, g2.away) == credited(rec, first, w1, m1));
    assert(series_or_new(h2, g1.home, g1.away) == credited(rec, first, w2, m2));
    lemma_credited_commute(rec, first, w1, m1, w2, m2);
    let a = after_game(h1, g2, o2);
    let b = after_game(h2, g1, o1);
    assert(a == h.insert(c, credited(credited(rec, first, w1, m1), first, w2, m2)));
    assert(b == h.insert(c, credited(credited(rec, first, w2, m2), first, w1, m1)));
    assert(a =~= b);
}

#[verifier::spinoff_prover]
proof fn lemma_games_commute_apart(h: Map<u32, H2HRecord>, g1: RemainingGame, o1: GameOutcome, g2: RemainingGame, o2: GameOutcome)
    requires
        pair_code(g1.home, g1.away) != pair_code(g2.home, g2.away),
    ensures
        after_game(after_game(h, g1, o1), g2, o2) == after_game(after_game(h, g2, o2), g1, o1),
{
    let c1 = pair_code(g1.home, g1.away);
    let c2 = pair_code(g2.home, g2.away);
    let h1 = after_game(h, g1, o1);
    let h2 = after_game(h, g2, o2);
    assert(series_or_new(h1, g2.home, g2.away) == series_or_new(h, g2.home, g2.away));
    assert(series_or_new(h2, g1.home, g1.away) == series_or_new(h, g1.home, g1.away));
    let a = after_game(h1, g2, o2);
    let b = after_game(h2, g1, o1);
    assert(a =~= b);
}

/// Crediting two games to the series in either order gives the same
/// series, where both orders keep the counts in range.
proof fn lemma_games_commute(h: Map<u32, H2HRecord>, g1: RemainingGame, o1: GameOutcome, g2: RemainingGame, o2: GameOutcome)
    requires
        game_fits(h, g1, o1),
        game_fits(after_game(h, g1, o1), g2, o2),
        game_fits(h, g2, o2),
        game_fits(after_game(h, g2, o2), g1, o1),
    ensures
        after_game(after_game(h, g1, o1), g2, o2) == after_game(after_game(h, g2, o2), g1, o1),
{
    lemma_pair_code(g1.home, g1.away, g2.home, g2.away);
    if pair_code(g1.home, g1.away) == pair_code(g2.home, g2.away) {
        lemma_games_commute_same(h, g1, o1, g2, o2);
    } else {
        lemma_games_commute_apart(h, g1, o1, g2, o2);
    }
}

proof fn lemma_applied_suffix(
    p1: Seq<(usize, GameOutcome)>,
    p2: Seq<(usize, GameOutcome)>,
    b: Seq<(usize, GameOutcome)>,
    games: Seq<RemainingGame>,
    st0: Map<u32, TeamStats>,
    h0: Map<u32, H2HRecord>,
)
    requires
        applied(p1, games, st0, h0) == applied(p2, games, st0, h0),
    ensures
        applied(p1 + b, games, st0, h0) == applied(p2 + b, games, st0, h0),
    decreases b.len(),
{
    if b.len() == 0 {
        assert(p1 + b == p1);
        assert(p2 + b == p2);
    } else {
        lemma_applied_suffix(p1, p2, b.drop_last(), games, st0, h0);
        assert((p1 + b).drop_last() == p1 + b.drop_last());
        assert((p2 + b).drop_last() == p2 + b.drop_last());
        assert((p1 + b).last() == b.last());
        assert((p2 + b).last() == b.last());
    }
}

proof fn lemma_swap_step(
    a: Seq<(usize, GameOutcome)>,
    x: (usize, GameOutcome),
    y: (usize, GameOutcome),
    games: Seq<RemainingGame>,
    st0: Map<u32, TeamStats>,
    h0: Map<u32, H2HRecord>,
)
    requires
        outcomes_fit(a.push(x).push(y), games, st0, h0),
        outcomes_fit(a.push(y).push(x), games, st0, h0),
    ensures
        applied(a.push(x).push(y), games, st0, h0) == applied(a.push(y).push(x), games, st0, h0),
{
    let base = applied(a, games, st0, h0);
    assert(a.push(x).push(y).drop_last() == a.push(x));
    assert(a.push(y).push(x).drop_last() == a.push(y));
    assert(a.push(x).drop_last() == a);
    assert(a.push(y).drop_last() == a);
    let gx = games[x.0 as int];
    let gy = games[y.0 as int];
    let wlx = winner_loser(gx, x.1);
    let wly = winner_loser(gy, y.1);
    assert(outcomes_fit(a.push(x), games, st0, h0));
    assert(outcomes_fit(a.push(y), games, st0, h0));
    assert(a.push(x).last() == x);
    assert(a.push(y).last() == y);
    assert(a.push(x).push(y).last() == y);
    assert(a.push(y).push(x).last() == x);
    assert(result_fits(base.0, wlx.0, wlx.1));
    assert(result_fits(base.0, wly.0, wly.1));
    assert(game_fits(base.1, gx, x.1));
    assert(game_fits(base.1, gy, y.1));
    lemma_results_commute(base.0, wlx.0, wlx.1, wly.0, wly.1);
    lemma_games_commute(base.1, gx, x.1, gy, y.1);
}

/// Two neighbouring results may be applied in either order: where both
/// orders keep every count in range, the scenario tables are the same. Every
/// reordering of the results is a chain of such swaps, so the table does not
/// depend on the order of the results as long as each order along the chain
/// keeps the counts in range.
pub proof fn law_scenario_swap(
    a: Seq<(usize, GameOutcome)>,
    x: (usize, GameOutcome),
    y: (usize, GameOutcome),
    b: Seq<(usize, GameOutcome)>,
    games: Seq<RemainingGame>,
    base: Seq<TeamStats>,
    h0: Map<u32, H2HRecord>,
)
    requires
        outcomes_fit(a.push(x).push(y) + b, games, stats_table(base), h0),
        outcomes_fit(a.push(y).push(x) + b, games, stats_table(base), h0),
    ensures
        applied(a.push(x).push(y) + b, games, stats_table(base), h0)
            == applied(a.push(y).push(x) + b, games, stats_table(base), h0),
        scenario_table(a.push(x).push(y) + b, games, base, h0) == scenario_table(a.push(y).push(x) + b, games, base, h0),
{
    let st0 = stats_table(base);
    let p1 = a.push(x).push(y);
    let p2 = a.push(y).push(x);
    lemma_fit_prefix(p1 + b, games, st0, h0, p1.len() as int);
    lemma_fit_prefix(p2 + b, games, st0, h0, p2.len() as int);
    assert((p1 + b).take(p1.len() as int) == p1);
    assert((p2 + b).take(p2.len() as int) == p2);
    lemma_swap_step(a, x, y, games, st0, h0);
    lemma_applied_suffix(p1, p2, b, games, st0, h0);
}

/// Whether every ordering of the results keeps every count in range.
pub open spec fn every_order_fits(
    outs: Seq<(usize, GameOutcome)>,
    games: Seq<RemainingGame>,
    st0: Map<u32, TeamStats>,
    h0: Map<u32, H2HRecord>,
) -> bool {
    forall|r: Seq<(usize, GameOutcome)>| r.to_multiset() == outs.to_multiset() ==> #[trigger] outcomes_fit(r, games, st0, h0)
}

proof fn lemma_swap_applied(
    a: Seq<(usize, GameOutcome)>,
    x: (usize, GameOutcome),
    y: (usize, GameOutcome),
    b: Seq<(usize, GameOutcome)>,
    games: Seq<RemainingGame>,
    st0: Map<u32, TeamStats>,
    h0: Map<u32, H2HRecord>,
)
    requires
        outcomes_fit(a.push(x).push(y) + b, games, st0, h0),
        outcomes_fit(a.push(y).push(x) + b, games, st0, h0),
    ensures
        applied(a.push(x).push(y) + b, games, st0, h0) == applied(a.push(y).push(x) + b, games, st0, h0),
{
    let p1 = a.push(x).push(y);
    let p2 = a.push(y).push(x);
    lemma_fit_prefix(p1 + b, games, st0, h0, p1.len() as int);
    lemma_fit_prefix(p2 + b, games, st0, h0, p2.len() as int);
    assert((p1 + b).take(p1.len() as int) == p1);
    assert((p2 + b).take(p2.len() as int) == p2);
    lemma_swap_step(a, x, y, games, st0, h0);
    lemma_applied_suffix(p1, p2, b, games, st0, h0);
}

/// Moving a result past those after it to the end keeps the final table
/// and series, where every ordering keeps the counts in range.
proof fn lemma_move_to_end(
    a: Seq<(usize, GameOutcome)>,
    x: (usize, GameOutcome),
    b: Seq<(usize, GameOutcome)>,
    games: Seq<RemainingGame>,
    st0: Map<u32, TeamStats>,
    h0: Map<u32, H2HRecord>,
)
    requires
        every_order_fits(a.push(x) + b, games, st0, h0),
    ensures
        applied(a.push(x) + b, games, st0, h0) == applied(a + b.push(x), games, st0, h0),
    decreases b.len(),
{
    broadcast use vstd::seq_lib::group_to_multiset_ensures, vstd::seq_lib::lemma_multiset_commutative;
    if b.len() == 0 {
        assert(a.push(x) + b == a + b.push(x));
    } else {
        let y = b[0];
        let rest = b.drop_first();
        let l1 = a.push(x).push(y) + rest;
        let l2 = a.push(y).push(x) + rest;
        assert(a.push(x) + b == l1);
        let m = (a.push(x) + b).to_multiset();
        assert(l1.to_multiset() == m);
        assert(l2.to_multiset() =~= m);
        assert(outcomes_fit(l1, games, st0, h0));
        assert(outcomes_fit(l2, games, st0, h0));
        lemma_swap_applied(a, x, y, rest, games, st0, h0);
        let a2 = a.push(y);
        assert(a2.push(x) + rest == l2);
        assert forall|r: Seq<(usize, GameOutcome)>| r.to_multiset() == (a2.push(x) + rest).to_multiset()
            implies #[trigger] outcomes_fit(r, games, st0, h0) by {
            assert(r.to_multiset() == m);
        }
        lemma_move_to_end(a2, x, rest, games, st0, h0);
        assert(a2 + rest.push(x) == a + b.push(x));
    }
}

proof fn lemma_reorder(
    p: Seq<(usize, GameOutcome)>,
    q: Seq<(usize, GameOutcome)>,
    games: Seq<RemainingGame>,
    st0: Map<u32, TeamStats>,
    h0: Map<u32, H2HRecord>,
)
    requires
        p.to_multiset() == q.to_multiset(),
        every_order_fits(p, games, st0, h0),
    ensures
        applied(p, games, st0, h0) == applied(q, games, st0, h0),
    decreases p.len(),
{
    broadcast use vstd::seq_lib::group_to_multiset_ensures, vstd::seq_lib::lemma_multiset_commutative;
    if p.len() == 0 {
        p.to_multiset_ensures();
        q.to_multiset_ensures();
        assert(q.to_multiset().len() == 0);
        assert(p =~= q);
    } else {
        p.to_multiset_ensures();
        q.to_multiset_ensures();
        assert(q.len() == p.len());
        let x = q.last();
        let q1 = q.drop_last();
        assert(q == q1.push(x));
        assert(q.to_multiset().count(x) > 0);
        assert(p.to_multiset().count(x) > 0);
        assert(p.contains(x));
        let i = choose|i: int| 0 <= i < p.len() && p[i] == x;
        let a = p.take(i);
        let b = p.skip(i + 1);
        assert(p == a.push(x) + b);
        lemma_move_to_end(a, x, b, games, st0, h0);
        let p1 = a + b;
        assert(p1.push(x) == a + b.push(x));
        assert(p.to_multiset() =~= p1.to_multiset().insert(x));
        assert(q.to_multiset() =~= q1.to_multiset().insert(x));
        assert forall|y: (usize, GameOutcome)| p1.to_multiset().count(y) == q1.to_multiset().count(y) by {
            broadcast use vstd::multiset::group_multiset_axioms;
            assert(p.to_multiset().count(y) == q.to_multiset().count(y));
            assert(p.to_multiset() == p1.to_multiset().insert(x));
            assert(q.to_multiset() == q1.to_multiset().insert(x));
            if y == x {
                assert(p1.to_multiset().insert(x).count(y) == p1.to_multiset().count(y) + 1);
                assert(q1.to_multiset().insert(x).count(y) == q1.to_multiset().count(y) + 1);
            } else {
                assert(p1.to_multiset().insert(x).count(y) == p1.to_multiset().count(y));
                assert(q1.to_multiset().insert(x).count(y) == q1.to_multiset().count(y));
            }
        }
        assert(p1.to_multiset() =~= q1.to_multiset());
        assert forall|r: Seq<(usize, GameOutcome)>| r.to_multiset() == p1.to_multiset()
            implies #[trigger] outcomes_fit(r, games, st0, h0) by {
            assert(r.push(x).to_multiset() =~= p.to_multiset());
            assert(outcomes_fit(r.push(x), games, st0, h0));
            lemma_fit_prefix(r.push(x), games, st0, h0, r.len() as int);
            assert(r.push(x).take(r.len() as int) == r);
        }
        lemma_reorder(p1, q1, games, st0, h0);
        assert(p1.push(x).drop_last() == p1);
        assert(p1.push(x).last() == x);
    }
}

/// The scenario table does not depend on the order of the results: any
/// reordering of them gives the same table, where every ordering keeps
/// every count in range.
pub proof fn law_scenario_reorder(
    p: Seq<(usize, GameOutcome)>,
    q: Seq<(usize, GameOutcome)>,
    games: Seq<RemainingGame>,
    base: Seq<TeamStats>,
    h0: Map<u32, H2HRecord>,
)
    requires
        p.to_multiset() == q.to_multiset(),
        every_order_fits(p, games, stats_table(base), h0),
    ensures
        applied(p, games, stats_table(base), h0) == applied(q, games, stats_table(base), h0),
        scenario_table(p, games, base, h0) == scenario_table(q, games, base, h0),
{
    lemma_reorder(p, q, games, stats_table(base), h0);
}

} // verus!
