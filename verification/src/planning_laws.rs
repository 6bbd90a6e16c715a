//! What the planning of an enumeration keeps: the weights line up with the
//! options, the scenario numbers name every choice of options exactly once,
//! and a plan gives every game exactly one result in every scenario.

use vstd::prelude::*;
use vstd::arithmetic::div_mod::{lemma_fundamental_div_mod, lemma_fundamental_div_mod_converse};
use vstd::arithmetic::mul::{lemma_mul_is_associative, lemma_mul_strictly_positive};
use crate::team::{Team, RELEVANT_TEAMS, team_at, lemma_ord_index};
use crate::types::{RemainingGame, TeamStats, GameOutcome};
use crate::weights::{weight_parts, sum_parts, law_weights_sum_to_one};
use crate::scenario::winner_loser;
use crate::planning::{
    game_options, mixed_digits, radix_product, indices_where, all_indices, split_where,
    locked_results, free_games, home_wins_of, followed_results, ComboPlan, combo_plan_is,
    SimulationPlan, simulation_plan_is, locked_pick, option_views, plays_in, first_line,
    tie_candidates, can_tie, wins_from, games_left, wins_by_club, left_by_club, options_of, is_critical,
    followed_range, followed_wins, clamped_pick, GameSummary, summary_is,
};

verus! {

/// Every option of a game has a weight, and no weight is left without an
/// option.
pub proof fn law_weights_align_with_options(game: RemainingGame)
    ensures
        weight_parts(game).len() == game_options(game).len(),
{
}

// ---------------------------------------------------------------------------
// Numbering of the choices
// ---------------------------------------------------------------------------

/// Whether a choice names one option of each game: as many digits as
/// games, each below its game's number of options.
pub open spec fn choices_fit(radixes: Seq<usize>, digits: Seq<usize>) -> bool {
    &&& digits.len() == radixes.len()
    &&& forall|i: int| 0 <= i < digits.len() ==> #[trigger] digits[i] < radixes[i]
}

/// The number of a choice of options: the mixed-radix number whose lowest
/// digit is the first game's option.
pub open spec fn combo_number(radixes: Seq<usize>, digits: Seq<usize>) -> nat
    decreases radixes.len(),
{
    if radixes.len() == 0 || digits.len() == 0 {
        0
    } else {
        digits[0] as nat + radixes[0] as nat * combo_number(radixes.drop_first(), digits.drop_first())
    }
}

/// The product of the numbers of options, taken from the front.
#[verifier::spinoff_prover]
proof fn lemma_product_front(radixes: Seq<usize>)
    requires
        forall|i: int| 0 <= i < radixes.len() ==> #[trigger] radixes[i] > 0,
    ensures
        radix_product(radixes) >= 1,
        radixes.len() > 0 ==> radix_product(radixes) == radixes[0] * radix_product(radixes.drop_first()),
    decreases radixes.len(),
{
    if radixes.len() > 0 {
        let init = radixes.drop_last();
        assert forall|i: int| 0 <= i < init.len() implies #[trigger] init[i] > 0 by {
            assert(init[i] == radixes[i]);
        }
        lemma_product_front(init);
        lemma_mul_strictly_positive(radix_product(init), radixes.last() as int);
        if radixes.len() > 1 {
            let rest = radixes.drop_first();
            assert(rest.drop_last() == init.drop_first());
            assert(rest.last() == radixes.last());
            assert(init[0] == radixes[0]);
            lemma_mul_is_associative(radixes[0] as int, radix_product(init.drop_first()), radixes.last() as int);
        } else {
            assert(init.len() == 0);
            assert(radixes.drop_first().len() == 0);
        }
    }
}

/// Every scenario number below the count names a choice of one option per
/// game, and the choice's number is the scenario number again.
pub proof fn law_choice_numbering(radixes: Seq<usize>, combo: nat)
    requires
        forall|i: int| 0 <= i < radixes.len() ==> #[trigger] radixes[i] > 0,
        combo < radix_product(radixes),
    ensures
        choices_fit(radixes, mixed_digits(radixes, combo)),
        combo_number(radixes, mixed_digits(radixes, combo)) == combo,
    decreases radixes.len(),
{
    lemma_product_front(radixes);
    if radixes.len() == 0 {
        assert(combo == 0);
    } else {
        let r0 = radixes[0] as nat;
        let rest = radixes.drop_first();
        assert forall|i: int| 0 <= i < rest.len() implies #[trigger] rest[i] > 0 by {
            assert(rest[i] == radixes[i + 1]);
        }
        lemma_product_front(rest);
        let q = combo / r0;
        lemma_fundamental_div_mod(combo as int, r0 as int);
        assert(q < radix_product(rest)) by (nonlinear_arith)
            requires
                combo < r0 * radix_product(rest),
                combo == r0 * q + combo % r0,
                0 <= combo % r0,
                r0 > 0,
        {
            if q >= radix_product(rest) {
                assert(r0 * q >= r0 * radix_product(rest));
            }
        }
        law_choice_numbering(rest, q);
        let d = mixed_digits(radixes, combo);
        let tail = mixed_digits(rest, q);
        assert(d == seq![(combo % r0) as usize] + tail);
        assert(d.drop_first() == tail);
        assert forall|i: int| 0 <= i < d.len() implies #[trigger] d[i] < radixes[i] by {
            if i > 0 {
                assert(d[i] == tail[i - 1]);
                assert(tail[i - 1] < rest[i - 1]);
            }
        }
    }
}

/// Every choice of one option per game has a number below the count, and
/// that number names the same choice.
pub proof fn law_number_of_choice(radixes: Seq<usize>, digits: Seq<usize>)
    requires
        choices_fit(radixes, digits),
    ensures
        combo_number(radixes, digits) < radix_product(radixes),
        mixed_digits(radixes, combo_number(radixes, digits)) == digits,
    decreases radixes.len(),
{
    assert forall|i: int| 0 <= i < radixes.len() implies #[trigger] radixes[i] > 0 by {
        assert(digits[i] < radixes[i]);
    }
    lemma_product_front(radixes);
    if radixes.len() > 0 {
        let r0 = radixes[0] as nat;
        let rest = radixes.drop_first();
        let dr = digits.drop_first();
        assert forall|i: int| 0 <= i < dr.len() implies #[trigger] dr[i] < rest[i] by {
            assert(dr[i] == digits[i + 1]);
            assert(rest[i] == radixes[i + 1]);
        }
        law_number_of_choice(rest, dr);
        let n1 = combo_number(rest, dr);
        let n = combo_number(radixes, digits);
        let p1 = radix_product(rest);
        assert(n == digits[0] + r0 * n1);
        assert(n < r0 * p1) by (nonlinear_arith)
            requires
                n == digits[0] + r0 * n1,
                digits[0] < r0,
                n1 < p1,
        {
            assert(r0 * n1 <= r0 * (p1 - 1));
        }
        assert(r0 * n1 == n1 * r0) by (nonlinear_arith);
        lemma_fundamental_div_mod_converse(n as int, r0 as int, n1 as int, digits[0] as int);
        assert(n / r0 == n1);
        assert(n % r0 == digits[0]);
        assert(mixed_digits(radixes, n) == seq![(n % r0) as usize] + mixed_digits(rest, n / r0));
        assert(digits == seq![digits[0]] + dr);
    }
}

// ---------------------------------------------------------------------------
// Every game gets one result
// ---------------------------------------------------------------------------

/// The games that a list of results sets, in order.
pub open spec fn result_games(rs: Seq<(usize, GameOutcome)>) -> Seq<usize> {
    rs.map_values(|r: (usize, GameOutcome)| r.0)
}

proof fn lemma_result_games_add(a: Seq<(usize, GameOutcome)>, b: Seq<(usize, GameOutcome)>)
    ensures
        result_games(a + b) == result_games(a) + result_games(b),
{
    assert(result_games(a + b) =~= result_games(a) + result_games(b));
}

/// The games of a club and the other games are all the games, each once.
proof fn lemma_where_partition(games: Seq<RemainingGame>, t: Team, n: int)
    requires
        0 <= n < usize::MAX,
    ensures
        (indices_where(games, t, true, n) + indices_where(games, t, false, n)).to_multiset()
            == all_indices(n).to_multiset(),
    decreases n,
{
    broadcast use vstd::seq_lib::group_to_multiset_ensures, vstd::seq_lib::lemma_multiset_commutative;
    if n == 0 {
        assert(all_indices(0) =~= Seq::<usize>::empty());
        assert(indices_where(games, t, true, 0) + indices_where(games, t, false, 0) =~= Seq::<usize>::empty());
    } else {
        lemma_where_partition(games, t, n - 1);
        assert(all_indices(n) =~= all_indices(n - 1).push((n - 1) as usize));
        let a = indices_where(games, t, true, n - 1);
        let b = indices_where(games, t, false, n - 1);
        assert(all_indices(n).to_multiset() =~= (a + b).to_multiset().insert((n - 1) as usize));
        assert((indices_where(games, t, true, n) + indices_where(games, t, false, n)).to_multiset()
            =~= a.to_multiset().add(b.to_multiset()).insert((n - 1) as usize));
    }
}

/// The critical games and the others are the games they were split from.
proof fn lemma_split_partition(games: Seq<RemainingGame>, idx: Seq<usize>, cands: Seq<Team>, keep: bool)
    ensures
        (split_where(games, idx, cands, keep, true) + split_where(games, idx, cands, keep, false)).to_multiset()
            == idx.to_multiset(),
    decreases idx.len(),
{
    broadcast use vstd::seq_lib::group_to_multiset_ensures, vstd::seq_lib::lemma_multiset_commutative;
    if idx.len() == 0 {
        assert(split_where(games, idx, cands, keep, true) + split_where(games, idx, cands, keep, false)
            =~= Seq::<usize>::empty());
        assert(idx =~= Seq::<usize>::empty());
    } else {
        let init = idx.drop_last();
        lemma_split_partition(games, init, cands, keep);
        assert(idx =~= init.push(idx.last()));
        let a = split_where(games, init, cands, keep, true);
        let b = split_where(games, init, cands, keep, false);
        assert(idx.to_multiset() =~= (a + b).to_multiset().insert(idx.last()));
        assert((split_where(games, idx, cands, keep, true) + split_where(games, idx, cands, keep, false)).to_multiset()
            =~= a.to_multiset().add(b.to_multiset()).insert(idx.last()));
    }
}

/// The locked games and the free games are all the games, each once.
proof fn lemma_locked_partition(ov: Seq<Seq<GameOutcome>>, locked: Map<usize, usize>, n: int)
    requires
        0 <= n < usize::MAX,
    ensures
        (result_games(locked_results(ov, locked, n)) + free_games(locked, n)).to_multiset()
            == all_indices(n).to_multiset(),
    decreases n,
{
    broadcast use vstd::seq_lib::group_to_multiset_ensures, vstd::seq_lib::lemma_multiset_commutative;
    if n == 0 {
        assert(all_indices(0) =~= Seq::<usize>::empty());
        assert(result_games(locked_results(ov, locked, 0)) + free_games(locked, 0) =~= Seq::<usize>::empty());
    } else {
        lemma_locked_partition(ov, locked, n - 1);
        let i = (n - 1) as usize;
        assert(all_indices(n) =~= all_indices(n - 1).push(i));
        let a = result_games(locked_results(ov, locked, n - 1));
        let b = free_games(locked, n - 1);
        if locked.contains_key(i) {
            let prev = locked_results(ov, locked, n - 1);
            let r = (i, if locked[i] < ov[n - 1].len() { ov[n - 1][locked[i] as int] } else { ov[n - 1][0] });
            assert(result_games(prev.push(r)) =~= a.push(i));
        }
        assert(all_indices(n).to_multiset() =~= (a + b).to_multiset().insert(i));
        assert((result_games(locked_results(ov, locked, n)) + free_games(locked, n)).to_multiset()
            =~= a.to_multiset().add(b.to_multiset()).insert(i));
    }
}

/// In every scenario of the plan for one combination of the followed
/// club's results, each game gets exactly one result: the fixed results and
/// the enumerated games together name every game once.
pub proof fn law_combo_plan_covers_games(p: ComboPlan, games: Seq<RemainingGame>, base: Seq<TeamStats>, base_wins: u32, red_combo: u32)
    requires
        combo_plan_is(p, games, base, base_wins, red_combo),
        games.len() < usize::MAX,
    ensures
        (result_games(p.fixed@) + p.critical@).to_multiset() == all_indices(games.len() as int).to_multiset(),
{
    broadcast use vstd::seq_lib::lemma_multiset_commutative;
    let n = games.len() as int;
    let red = indices_where(games, Team::RED, true, n);
    let other = indices_where(games, Team::RED, false, n);
    let cands = p.can_tie@;
    let crit = split_where(games, other, cands, false, true);
    let rest = split_where(games, other, cands, false, false);
    let fr = followed_results(games, red, p.bits@);
    lemma_where_partition(games, Team::RED, n);
    lemma_split_partition(games, other, cands, false);
    lemma_result_games_add(home_wins_of(rest), fr);
    assert(result_games(home_wins_of(rest)) =~= rest);
    assert(result_games(fr) =~= red);
    assert((rest + red + crit).to_multiset() =~= (crit + rest).to_multiset().add(red.to_multiset()));
    assert((red + other).to_multiset() =~= (other + red).to_multiset());
}

/// In every scenario of a plan with some games locked, each game gets
/// exactly one result: the fixed results and the enumerated games together
/// name every game once.
pub proof fn law_simulation_plan_covers_games(
    p: SimulationPlan,
    games: Seq<RemainingGame>,
    base: Seq<TeamStats>,
    locked: Map<usize, usize>,
    base_wins: u32,
    simplify: bool,
)
    requires
        simulation_plan_is(p, games, base, locked, base_wins, simplify),
        games.len() < usize::MAX,
    ensures
        (result_games(p.fixed@) + p.critical@).to_multiset() == all_indices(games.len() as int).to_multiset(),
{
    broadcast use vstd::seq_lib::lemma_multiset_commutative;
    let n = games.len() as int;
    let ov = p.all_options@.map_values(|o: Vec<GameOutcome>| o@);
    let lp = locked_results(ov, locked, n);
    let free = free_games(locked, n);
    let cands = p.can_tie@;
    let crit = split_where(games, free, cands, true, true);
    let rest = split_where(games, free, cands, true, false);
    lemma_locked_partition(ov, locked, n);
    lemma_split_partition(games, free, cands, true);
    lemma_result_games_add(lp, home_wins_of(rest));
    assert(result_games(home_wins_of(rest)) =~= rest);
    let a = result_games(lp);
    assert((a + rest + crit).to_multiset() =~= a.to_multiset().add((crit + rest).to_multiset()));
}

// ---------------------------------------------------------------------------
// What a plan with locked games enumerates and how it weighs it
// ---------------------------------------------------------------------------

/// The wins a club takes from the locked games among the first `n` games:
/// a locked game counts when the club plays in it and wins with the option
/// locked for it (the first option when the choice is out of range).
pub open spec fn wins_when_locked(games: Seq<RemainingGame>, opts: Seq<Seq<GameOutcome>>, locked: Map<usize, usize>, t: Team, n: int) -> int
    decreases n,
{
    if n <= 0 {
        0
    } else {
        let i = (n - 1) as usize;
        let g = games[n - 1];
        wins_when_locked(games, opts, locked, t, n - 1)
            + if locked.contains_key(i) && plays_in(g, t) && winner_loser(g, locked_pick(opts[n - 1], locked[i])).0 == t { 1int } else { 0 }
    }
}

/// The games among the first `n` that are not locked and that a club plays.
pub open spec fn unlocked_games_of(games: Seq<RemainingGame>, locked: Map<usize, usize>, t: Team, n: int) -> int
    decreases n,
{
    if n <= 0 {
        0
    } else {
        unlocked_games_of(games, locked, t, n - 1)
            + if !locked.contains_key((n - 1) as usize) && plays_in(games[n - 1], t) { 1int } else { 0 }
    }
}

proof fn lemma_wins_when_locked(games: Seq<RemainingGame>, opts: Seq<Seq<GameOutcome>>, locked: Map<usize, usize>, t: Team, n: int)
    requires
        0 <= n < usize::MAX,
    ensures
        wins_from(games, locked_results(opts, locked, n), t) == wins_when_locked(games, opts, locked, t, n),
        0 <= wins_when_locked(games, opts, locked, t, n) <= n,
    decreases n,
{
    if n > 0 {
        lemma_wins_when_locked(games, opts, locked, t, n - 1);
        let i = (n - 1) as usize;
        assert(i as int == n - 1);
        let prev = locked_results(opts, locked, n - 1);
        if locked.contains_key(i) {
            let r = (i, locked_pick(opts[n - 1], locked[i]));
            assert(locked_results(opts, locked, n) == prev.push(r));
            assert(prev.push(r).drop_last() == prev);
        }
    }
}

proof fn lemma_unlocked_games(games: Seq<RemainingGame>, locked: Map<usize, usize>, t: Team, n: int)
    requires
        0 <= n < usize::MAX,
        n <= games.len(),
        forall|k: int| 0 <= k < games.len() ==> #[trigger] games[k].home != games[k].away,
    ensures
        games_left(games, free_games(locked, n), t) == unlocked_games_of(games, locked, t, n),
        0 <= unlocked_games_of(games, locked, t, n) <= n,
    decreases n,
{
    if n > 0 {
        lemma_unlocked_games(games, locked, t, n - 1);
        let i = (n - 1) as usize;
        assert(i as int == n - 1);
        assert(games[n - 1].home != games[n - 1].away);
        if !locked.contains_key(i) {
            assert(free_games(locked, n).drop_last() == free_games(locked, n - 1));
            assert(free_games(locked, n).last() == i);
        }
    }
}

/// The clubs that can end level with the followed club, in a plan with
/// some games locked, are the clubs of the group it is compared with, other
/// than itself, whose wins in the table plus the wins the locked results
/// give them, plus their games that are not locked, reach the followed
/// club's fewest wins, and whose wins in the table plus the locked wins do
/// not pass its most wins.
pub proof fn law_simulation_tie_candidates(
    p: SimulationPlan,
    games: Seq<RemainingGame>,
    base: Seq<TeamStats>,
    locked: Map<usize, usize>,
    base_wins: u32,
    simplify: bool,
    t: Team,
)
    requires
        simulation_plan_is(p, games, base, locked, base_wins, simplify),
        games.len() < 0x3fff_ffff,
        forall|k: int| 0 <= k < games.len() ==> #[trigger] games[k].home != games[k].away,
    ensures
        p.can_tie@.contains(t) <==> {
            let w = first_line(base, t)->Some_0.wins + wins_when_locked(games, option_views(p.all_options@), locked, t, games.len() as int);
            &&& t.is_relevant()
            &&& t != Team::RED
            &&& w + unlocked_games_of(games, locked, t, games.len() as int) >= p.red_min_wins
            &&& w <= p.red_max_wins
        },
{
    let n = games.len() as int;
    let ov = option_views(p.all_options@);
    let lp = locked_results(ov, locked, n);
    let free = free_games(locked, n);
    let extra = wins_by_club(games, lp);
    let left = left_by_club(games, free);
    lemma_ord_index(t, t);
    let k = t.ord_index() as int;
    lemma_wins_when_locked(games, ov, locked, t, n);
    lemma_unlocked_games(games, locked, t, n);
    assert(extra[k] == wins_from(games, lp, t));
    assert(left[k] == games_left(games, free, t));
    lemma_candidates_member(base, extra, left, p.red_min_wins, p.red_max_wins, 13, t);
}

/// A club is among the first `n` candidates exactly when it is among the
/// first `n` clubs of the group, is not the followed club, and can tie.
proof fn lemma_candidates_member(base: Seq<TeamStats>, extra: Seq<u32>, left: Seq<u32>, lo: u32, hi: u32, n: int, t: Team)
    requires
        0 <= n <= 13,
    ensures
        tie_candidates(base, extra, left, lo, hi, n).contains(t)
            <==> (t.ord_index() < n && t != Team::RED && can_tie(base, extra, left, lo, hi, t)),
    decreases n,
{
    if n > 0 {
        lemma_candidates_member(base, extra, left, lo, hi, n - 1, t);
        let u = RELEVANT_TEAMS@[n - 1];
        assert(u == team_at(n - 1));
        lemma_ord_index(u, t);
        assert(u.ord_index() == n - 1);
        let prev = tie_candidates(base, extra, left, lo, hi, n - 1);
        if u != Team::RED && can_tie(base, extra, left, lo, hi, u) {
            assert(tie_candidates(base, extra, left, lo, hi, n) == prev.push(u));
            assert(prev.push(u)[prev.len() as int] == u);
            if prev.push(u).contains(t) && t != u {
                let q = choose|q: int| 0 <= q < prev.push(u).len() && prev.push(u)[q] == t;
                assert(prev[q] == t);
            }
            if prev.contains(t) {
                let q = choose|q: int| 0 <= q < prev.len() && prev[q] == t;
                assert(prev.push(u)[q] == t);
            }
        }
    }
}

/// Every game a plan with locked games enumerates has one weight per
/// option, and its weights add up to the whole (1368); a game reduced to a
/// plain home or away win weighs both at one half.
pub proof fn law_simulation_weights(
    p: SimulationPlan,
    games: Seq<RemainingGame>,
    base: Seq<TeamStats>,
    locked: Map<usize, usize>,
    base_wins: u32,
    simplify: bool,
    i: int,
)
    requires
        simulation_plan_is(p, games, base, locked, base_wins, simplify),
        0 <= i < p.critical@.len(),
    ensures
        p.weights@[i]@.len() == p.critical_options@[i]@.len(),
        sum_parts(p.weights@[i]@) == 1368,
        p.critical_options@[i]@ == seq![GameOutcome::HomeWin, GameOutcome::AwayWin]
            && games[p.critical@[i] as int].h2h_info is Some
            ==> p.weights@[i]@ == seq![684u32, 684u32],
{
    let g = games[p.critical@[i] as int];
    let w = p.weights@[i]@;
    if p.simplified@[p.critical@[i] as int] {
        assert(w == seq![684u32, 684u32]);
        assert(w.drop_last().drop_last() == Seq::<u32>::empty());
        assert(sum_parts(w.drop_last()) == sum_parts(w.drop_last().drop_last()) + w[0]);
    } else {
        law_weights_sum_to_one(g);
        law_weights_align_with_options(g);
        assert(p.critical_options@[i]@ == game_options(g));
        if g.h2h_info is Some && game_options(g) == seq![GameOutcome::HomeWin, GameOutcome::AwayWin] {
            assert(game_options(g)[1] == GameOutcome::AwayWin);
        }
    }
}

proof fn lemma_push_contains<A>(s: Seq<A>, x: A, y: A)
    ensures
        s.push(x).contains(y) <==> (s.contains(y) || x == y),
{
    if s.push(x).contains(y) && x != y {
        let q = choose|q: int| 0 <= q < s.push(x).len() && s.push(x)[q] == y;
        assert(s[q] == y);
    }
    if s.contains(y) {
        let q = choose|q: int| 0 <= q < s.len() && s[q] == y;
        assert(s.push(x)[q] == y);
    }
    assert(s.push(x)[s.len() as int] == x);
}

/// A game is among the first `n` free games exactly when it is one of the
/// first `n` and is not locked.
proof fn lemma_free_member(locked: Map<usize, usize>, n: int, gi: usize)
    requires
        0 <= n < usize::MAX,
    ensures
        free_games(locked, n).contains(gi) <==> (gi < n && !locked.contains_key(gi)),
    decreases n,
{
    if n > 0 {
        lemma_free_member(locked, n - 1, gi);
        let i = (n - 1) as usize;
        assert(i as int == n - 1);
        if !locked.contains_key(i) {
            lemma_push_contains(free_games(locked, n - 1), i, gi);
        }
    }
}

/// A locked game among the first `n` is among the locked results, with the
/// option locked for it (the first option when the choice is out of range).
proof fn lemma_locked_member(opts: Seq<Seq<GameOutcome>>, locked: Map<usize, usize>, n: int, gi: usize)
    requires
        0 <= n < usize::MAX,
        gi < n,
        locked.contains_key(gi),
    ensures
        locked_results(opts, locked, n).contains((gi, locked_pick(opts[gi as int], locked[gi]))),
    decreases n,
{
    let i = (n - 1) as usize;
    assert(i as int == n - 1);
    if locked.contains_key(i) {
        let r = (i, locked_pick(opts[n - 1], locked[i]));
        if gi != i {
            lemma_locked_member(opts, locked, n - 1, gi);
        }
        lemma_push_contains(locked_results(opts, locked, n - 1), r, (gi, locked_pick(opts[gi as int], locked[gi])));
    } else {
        lemma_locked_member(opts, locked, n - 1, gi);
    }
}

/// A listed game is split to the wanted side exactly when its being
/// critical is what is wanted.
proof fn lemma_split_member(games: Seq<RemainingGame>, idx: Seq<usize>, cands: Seq<Team>, keep: bool, wanted: bool, gi: usize)
    ensures
        split_where(games, idx, cands, keep, wanted).contains(gi)
            <==> (idx.contains(gi) && is_critical(games[gi as int], cands, keep) == wanted),
    decreases idx.len(),
{
    if idx.len() > 0 {
        let init = idx.drop_last();
        lemma_split_member(games, init, cands, keep, wanted, gi);
        assert(idx == init.push(idx.last()));
        lemma_push_contains(init, idx.last(), gi);
        if is_critical(games[idx.last() as int], cands, keep) == wanted {
            lemma_push_contains(split_where(games, init, cands, keep, wanted), idx.last(), gi);
        }
    }
}

/// In a plan with some games locked, every locked game is fixed to the
/// option locked for it (the first option when the choice is out of range)
/// and is never enumerated; a game that is not locked is enumerated exactly
/// when the followed club plays in it or one of its clubs can end level
/// with the followed club, and is fixed to a home win otherwise.
pub proof fn law_simulation_locked_and_enumerated(
    p: SimulationPlan,
    games: Seq<RemainingGame>,
    base: Seq<TeamStats>,
    locked: Map<usize, usize>,
    base_wins: u32,
    simplify: bool,
    gi: usize,
)
    requires
        simulation_plan_is(p, games, base, locked, base_wins, simplify),
        games.len() < usize::MAX,
        gi < games.len(),
    ensures
        locked.contains_key(gi) ==> p.fixed@.contains((gi, locked_pick(p.all_options@[gi as int]@, locked[gi]))),
        locked.contains_key(gi) ==> !p.critical@.contains(gi),
        !locked.contains_key(gi) ==> (p.critical@.contains(gi) <==> (plays_in(games[gi as int], Team::RED)
            || p.can_tie@.contains(games[gi as int].home) || p.can_tie@.contains(games[gi as int].away))),
        !locked.contains_key(gi) && !p.critical@.contains(gi) ==> p.fixed@.contains((gi, GameOutcome::HomeWin)),
{
    let n = games.len() as int;
    let ov = option_views(p.all_options@);
    let lp = locked_results(ov, locked, n);
    let free = free_games(locked, n);
    let cands = p.can_tie@;
    let irrelevant = split_where(games, free, cands, true, false);
    lemma_free_member(locked, n, gi);
    lemma_split_member(games, free, cands, true, true, gi);
    lemma_split_member(games, free, cands, true, false, gi);
    if locked.contains_key(gi) {
        lemma_locked_member(ov, locked, n, gi);
        assert(ov[gi as int] == p.all_options@[gi as int]@);
        let r = (gi, locked_pick(ov[gi as int], locked[gi]));
        let q = choose|q: int| 0 <= q < lp.len() && lp[q] == r;
        assert(p.fixed@[q] == r);
    } else if !p.critical@.contains(gi) {
        let q = choose|q: int| 0 <= q < irrelevant.len() && irrelevant[q] == gi;
        assert(home_wins_of(irrelevant)[q] == (gi, GameOutcome::HomeWin));
        assert(p.fixed@[lp.len() + q] == (gi, GameOutcome::HomeWin));
    }
}

/// The followed club's games among the first `n` that are locked to an
/// option it wins with (the last option when the choice is out of range).
pub open spec fn followed_locked_wins(games: Seq<RemainingGame>, opts: Seq<Seq<GameOutcome>>, locked: Map<usize, usize>, n: int) -> int
    decreases n,
{
    if n <= 0 {
        0
    } else {
        let i = (n - 1) as usize;
        followed_locked_wins(games, opts, locked, n - 1)
            + if plays_in(games[n - 1], Team::RED) && locked.contains_key(i)
                && followed_wins(games[n - 1], clamped_pick(opts[n - 1], locked[i])) { 1int } else { 0 }
    }
}

/// The followed club's games among the first `n` that are not locked.
pub open spec fn followed_open_games(games: Seq<RemainingGame>, locked: Map<usize, usize>, n: int) -> int
    decreases n,
{
    if n <= 0 {
        0
    } else {
        followed_open_games(games, locked, n - 1)
            + if plays_in(games[n - 1], Team::RED) && !locked.contains_key((n - 1) as usize) { 1int } else { 0 }
    }
}

/// The range depends only on the first `k` games listed.
proof fn lemma_range_prefix(games: Seq<RemainingGame>, a: Seq<usize>, b: Seq<usize>, opts: Seq<Seq<GameOutcome>>,
    locked: Map<usize, usize>, bw: int, k: int)
    requires
        0 <= k <= a.len(),
        k <= b.len(),
        forall|j: int| 0 <= j < k ==> #[trigger] a[j] == b[j],
    ensures
        followed_range(games, a, opts, locked, bw, k) == followed_range(games, b, opts, locked, bw, k),
    decreases k,
{
    if k > 0 {
        lemma_range_prefix(games, a, b, opts, locked, bw, k - 1);
        assert(a[k - 1] == b[k - 1]);
    }
}

proof fn lemma_range_counts(games: Seq<RemainingGame>, opts: Seq<Seq<GameOutcome>>, locked: Map<usize, usize>, bw: int, n: int)
    requires
        0 <= n <= games.len(),
        n < usize::MAX,
    ensures
        ({
            let red = indices_where(games, Team::RED, true, n);
            let r = followed_range(games, red, opts, locked, bw, red.len() as int);
            &&& r.0 == bw + followed_locked_wins(games, opts, locked, n)
            &&& r.1 == r.0 + followed_open_games(games, locked, n)
        }),
    decreases n,
{
    if n > 0 {
        lemma_range_counts(games, opts, locked, bw, n - 1);
        let prev = indices_where(games, Team::RED, true, n - 1);
        let red = indices_where(games, Team::RED, true, n);
        let i = (n - 1) as usize;
        assert(i as int == n - 1);
        if plays_in(games[n - 1], Team::RED) {
            assert(red == prev.push(i));
            lemma_range_prefix(games, red, prev, opts, locked, bw, prev.len() as int);
            assert(red[red.len() - 1] == i);
        } else {
            assert(red == prev);
        }
    }
}

/// In a plan with some games locked, the followed club's fewest wins are
/// its wins so far plus its games locked to a win, and its most wins add
/// its games that are not locked.
pub proof fn law_simulation_followed_range(
    p: SimulationPlan,
    games: Seq<RemainingGame>,
    base: Seq<TeamStats>,
    locked: Map<usize, usize>,
    base_wins: u32,
    simplify: bool,
)
    requires
        simulation_plan_is(p, games, base, locked, base_wins, simplify),
        games.len() < usize::MAX,
    ensures
        p.red_min_wins == base_wins + followed_locked_wins(games, option_views(p.all_options@), locked, games.len() as int),
        p.red_max_wins == p.red_min_wins + followed_open_games(games, locked, games.len() as int),
{
    lemma_range_counts(games, option_views(p.all_options@), locked, base_wins as int, games.len() as int);
}

/// The games among the first `n` that a club plays and the followed club
/// does not.
pub open spec fn games_without_followed(games: Seq<RemainingGame>, t: Team, n: int) -> int
    decreases n,
{
    if n <= 0 {
        0
    } else {
        games_without_followed(games, t, n - 1)
            + if !plays_in(games[n - 1], Team::RED) && plays_in(games[n - 1], t) { 1int } else { 0 }
    }
}

proof fn lemma_games_without_followed(games: Seq<RemainingGame>, t: Team, n: int)
    requires
        0 <= n <= games.len(),
        n < usize::MAX,
        forall|k: int| 0 <= k < games.len() ==> #[trigger] games[k].home != games[k].away,
    ensures
        games_left(games, indices_where(games, Team::RED, false, n), t) == games_without_followed(games, t, n),
        0 <= games_without_followed(games, t, n) <= n,
    decreases n,
{
    if n > 0 {
        lemma_games_without_followed(games, t, n - 1);
        let i = (n - 1) as usize;
        assert(i as int == n - 1);
        assert(games[n - 1].home != games[n - 1].away);
        let prev = indices_where(games, Team::RED, false, n - 1);
        if !plays_in(games[n - 1], Team::RED) {
            assert(indices_where(games, Team::RED, false, n) == prev.push(i));
            assert(prev.push(i).drop_last() == prev);
        }
    }
}

/// In the plan for one combination of the followed club's results, the
/// clubs that can end level with it are the clubs of its group, other than
/// itself, whose wins in the table plus their games left that the followed
/// club does not play reach its total, and whose wins in the table do not
/// pass it.
pub proof fn law_combo_tie_candidates(
    p: ComboPlan,
    games: Seq<RemainingGame>,
    base: Seq<TeamStats>,
    base_wins: u32,
    red_combo: u32,
    t: Team,
)
    requires
        combo_plan_is(p, games, base, base_wins, red_combo),
        games.len() < 0x3fff_ffff,
        forall|k: int| 0 <= k < games.len() ==> #[trigger] games[k].home != games[k].away,
    ensures
        p.can_tie@.contains(t) <==> {
            let w = first_line(base, t)->Some_0.wins;
            &&& t.is_relevant()
            &&& t != Team::RED
            &&& w + games_without_followed(games, t, games.len() as int) >= p.red_total_wins
            &&& w <= p.red_total_wins
        },
{
    let n = games.len() as int;
    let other = indices_where(games, Team::RED, false, n);
    let extra = Seq::new(20, |i: int| 0u32);
    let left = left_by_club(games, other);
    lemma_ord_index(t, t);
    let k = t.ord_index() as int;
    lemma_games_without_followed(games, t, n);
    assert(left[k] == games_left(games, other, t));
    assert(extra[k] == 0);
    lemma_candidates_member(base, extra, left, p.red_total_wins, p.red_total_wins, 13, t);
}

/// The games among the first `n` that a club plays.
pub open spec fn games_of_club(games: Seq<RemainingGame>, t: Team, n: int) -> int
    decreases n,
{
    if n <= 0 {
        0
    } else {
        games_of_club(games, t, n - 1) + if plays_in(games[n - 1], t) { 1int } else { 0 }
    }
}

proof fn lemma_games_of_club(games: Seq<RemainingGame>, t: Team, n: int)
    requires
        0 <= n <= games.len(),
        n < usize::MAX,
        forall|k: int| 0 <= k < games.len() ==> #[trigger] games[k].home != games[k].away,
    ensures
        games_left(games, all_indices(n), t) == games_of_club(games, t, n),
        0 <= games_of_club(games, t, n) <= n,
    decreases n,
{
    if n > 0 {
        lemma_games_of_club(games, t, n - 1);
        assert(games[n - 1].home != games[n - 1].away);
        assert(all_indices(n).drop_last() =~= all_indices(n - 1));
        assert(all_indices(n).last() == (n - 1) as usize);
    }
}

/// Whether a club can end level with the followed club given its wins in
/// the table and all its games left: it belongs to the followed group, its
/// wins can reach `lo`, and they do not already pass `hi`.
pub open spec fn may_reach(games: Seq<RemainingGame>, base: Seq<TeamStats>, t: Team, lo: u32, hi: u32) -> bool {
    let w = first_line(base, t)->Some_0.wins;
    &&& t.is_relevant()
    &&& w + games_of_club(games, t, games.len() as int) >= lo
    &&& w <= hi
}

/// A game is reported as able to matter to the followed club exactly when
/// the followed club plays in it or one of its clubs, with all its games
/// left, can reach `lo` wins without already passing `hi`.
pub proof fn law_summary_relevance(sm: GameSummary, i: int, games: Seq<RemainingGame>, base: Seq<TeamStats>, lo: u32, hi: u32, simplify: bool)
    requires
        summary_is(sm, i, games, base, lo, hi, simplify),
        0 <= i < games.len(),
        games.len() < 0x3fff_ffff,
        forall|k: int| 0 <= k < games.len() ==> #[trigger] games[k].home != games[k].away,
    ensures
        sm.relevant == (plays_in(games[i], Team::RED) || may_reach(games, base, games[i].home, lo, hi)
            || may_reach(games, base, games[i].away, lo, hi)),
{
    let n = games.len() as int;
    let g = games[i];
    let left = left_by_club(games, all_indices(n));
    lemma_ord_index(g.home, g.away);
    lemma_ord_index(g.away, g.home);
    lemma_games_of_club(games, g.home, n);
    lemma_games_of_club(games, g.away, n);
    assert(left[g.home.ord_index() as int] == games_of_club(games, g.home, n));
    assert(left[g.away.ord_index() as int] == games_of_club(games, g.away, n));
}

/// In a plan with some games locked, a game's options are reduced to a
/// plain home or away win exactly when simplification is asked for and the
/// game completes a series whose clubs cannot end level: one club's wins in
/// the table plus all its games left stay below the other's wins. Every
/// other game keeps all its options.
pub proof fn law_simulation_simplified(
    p: SimulationPlan,
    games: Seq<RemainingGame>,
    base: Seq<TeamStats>,
    locked: Map<usize, usize>,
    base_wins: u32,
    simplify: bool,
    i: int,
)
    requires
        simulation_plan_is(p, games, base, locked, base_wins, simplify),
        0 <= i < games.len(),
        games.len() < 0x3fff_ffff,
        forall|k: int| 0 <= k < games.len() ==> #[trigger] games[k].home != games[k].away,
    ensures
        p.simplified@[i] == {
            let g = games[i];
            let wh = first_line(base, g.home)->Some_0.wins as int;
            let wa = first_line(base, g.away)->Some_0.wins as int;
            &&& simplify
            &&& g.h2h_info is Some
            &&& (wh + games_of_club(games, g.home, games.len() as int) < wa
                || wa + games_of_club(games, g.away, games.len() as int) < wh)
        },
        p.all_options@[i]@ == if p.simplified@[i] { seq![GameOutcome::HomeWin, GameOutcome::AwayWin] } else { game_options(games[i]) },
{
    let n = games.len() as int;
    let g = games[i];
    let left = left_by_club(games, all_indices(n));
    lemma_ord_index(g.home, g.away);
    lemma_ord_index(g.away, g.home);
    lemma_games_of_club(games, g.home, n);
    lemma_games_of_club(games, g.away, n);
    assert(left[g.home.ord_index() as int] == games_of_club(games, g.home, n));
    assert(left[g.away.ord_index() as int] == games_of_club(games, g.away, n));
    assert(option_views(p.all_options@)[i] == p.all_options@[i]@);
}

} // verus!
