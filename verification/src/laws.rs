//! Laws of the engine that span several functions: conservation of the
//! equity mass across all players, monotonicity of a player's rate in the
//! player's per-board standing, and idempotence of the exhaustive regime.

use vstd::arithmetic::div_mod::{lemma_div_is_ordered, lemma_fundamental_div_mod,
    lemma_mod_bound};
use vstd::prelude::*;

use crate::enumerate::exhaustive_tally;
use crate::enumerate::{rate_of, sum_seq, total_of};
use crate::evaluator::{alive_of, board_of, holes_of, rating_rsp_ok};
use crate::model::{CalculateRatingRsp, ReqModel};
use crate::showdown::{
    count_eq, is_best, lemma_count_eq_bounds, lemma_count_member, lemma_max_val_attained,
    lemma_max_val_ge, max_val, step_tally, Tally,
};

verus! {

/// A tally is sound when the two per-player accumulators cover the same
/// players and no count is negative.
pub open spec fn tally_nonneg(t: Tally) -> bool {
    &&& t.wins.len() == t.draws.len()
    &&& forall|i: int| 0 <= i < t.wins.len() ==> #[trigger] t.wins[i] >= 0
    &&& forall|i: int| 0 <= i < t.draws.len() ==> #[trigger] t.draws[i] >= 0
    &&& t.draw_boards >= 0
}

/// Every player's rate of a tally, in player order.
pub open spec fn rates_seq(t: Tally) -> Seq<int> {
    Seq::new(t.wins.len(), |i: int| rate_of(t, i))
}

/// Every player's rate numerator: full weight for a win, half for a tie.
pub open spec fn numer_seq(t: Tally) -> Seq<int> {
    Seq::new(t.wins.len(), |i: int| t.wins[i] * 10000 + t.draws[i] * 5000)
}

/// The numerators sum to the weighted sum of the accumulators.
proof fn lemma_sum_numer_upto(t: Tally, k: int)
    requires
        t.wins.len() == t.draws.len(),
        0 <= k <= t.wins.len(),
    ensures
        sum_seq(numer_seq(t).subrange(0, k)) == 10000 * sum_seq(t.wins.subrange(0, k)) + 5000
            * sum_seq(t.draws.subrange(0, k)),
    decreases k,
{
    if k > 0 {
        lemma_sum_numer_upto(t, k - 1);
        assert(numer_seq(t).subrange(0, k).drop_last() =~= numer_seq(t).subrange(0, k - 1));
        assert(numer_seq(t).subrange(0, k).last() == numer_seq(t)[k - 1]);
        assert(t.wins.subrange(0, k).drop_last() =~= t.wins.subrange(0, k - 1));
        assert(t.wins.subrange(0, k).last() == t.wins[k - 1]);
        assert(t.draws.subrange(0, k).drop_last() =~= t.draws.subrange(0, k - 1));
        assert(t.draws.subrange(0, k).last() == t.draws[k - 1]);
    }
}

/// Each rate floors its numerator over the total: summed over a prefix, the
/// total times the rate sum tracks the numerator sum to within one total
/// per player.
proof fn lemma_sum_rates_upto(t: Tally, k: int)
    requires
        tally_nonneg(t),
        total_of(t) > 0,
        0 <= k <= t.wins.len(),
    ensures
        total_of(t) * sum_seq(rates_seq(t).subrange(0, k)) <= sum_seq(numer_seq(t).subrange(0, k)),
        sum_seq(numer_seq(t).subrange(0, k)) <= total_of(t) * sum_seq(rates_seq(t).subrange(0, k))
            + k * (total_of(t) - 1),
    decreases k,
{
    let total = total_of(t);
    if k == 0 {
        assert(rates_seq(t).subrange(0, 0) =~= Seq::<int>::empty());
        assert(numer_seq(t).subrange(0, 0) =~= Seq::<int>::empty());
    } else {
        lemma_sum_rates_upto(t, k - 1);
        assert(rates_seq(t).subrange(0, k).drop_last() =~= rates_seq(t).subrange(0, k - 1));
        assert(rates_seq(t).subrange(0, k).last() == rates_seq(t)[k - 1]);
        assert(numer_seq(t).subrange(0, k).drop_last() =~= numer_seq(t).subrange(0, k - 1));
        assert(numer_seq(t).subrange(0, k).last() == numer_seq(t)[k - 1]);
        let nk = numer_seq(t)[k - 1];
        let rk = rates_seq(t)[k - 1];
        assert(rk == nk / total);
        lemma_fundamental_div_mod(nk, total);
        lemma_mod_bound(nk, total);
        assert(total * rk <= nk <= total * rk + (total - 1));
        let sr = sum_seq(rates_seq(t).subrange(0, k - 1));
        let sn = sum_seq(numer_seq(t).subrange(0, k - 1));
        assert(total * (sr + rk) == total * sr + total * rk) by (nonlinear_arith);
        assert((k - 1) * (total - 1) + (total - 1) == k * (total - 1)) by (nonlinear_arith);
    }
}

/// CONSERVATION OF EQUITY MASS. Whenever every tied board is tied between
/// exactly two players (so every tied board hands out two half weights),
/// the players' rates sum to the full scale of 10000, short only of what
/// per-player integer rounding discards: strictly more than 10000 minus
/// the number of players, and never more than 10000.
pub proof fn lemma_equity_mass_conservation(t: Tally)
    requires
        tally_nonneg(t),
        t.wins.len() >= 1,
        total_of(t) > 0,
        sum_seq(t.draws) == 2 * t.draw_boards,
    ensures
        sum_seq(rates_seq(t)) <= 10000,
        sum_seq(rates_seq(t)) > 10000 - t.wins.len(),
{
    let n = t.wins.len() as int;
    let total = total_of(t);
    lemma_sum_numer_upto(t, n);
    lemma_sum_rates_upto(t, n);
    assert(numer_seq(t).subrange(0, n) =~= numer_seq(t));
    assert(rates_seq(t).subrange(0, n) =~= rates_seq(t));
    assert(t.wins.subrange(0, n) =~= t.wins);
    assert(t.draws.subrange(0, n) =~= t.draws);
    let s = sum_seq(rates_seq(t));
    assert(sum_seq(numer_seq(t)) == 10000 * sum_seq(t.wins) + 5000 * sum_seq(t.draws));
    assert(5000 * (2 * t.draw_boards) == 10000 * t.draw_boards) by (nonlinear_arith);
    assert(10000 * sum_seq(t.wins) + 10000 * t.draw_boards == 10000 * total) by (nonlinear_arith)
        requires
            total == sum_seq(t.wins) + t.draw_boards,
    ;
    assert(total * s <= 10000 * total);
    assert(10000 * total <= total * s + n * (total - 1));
    assert(s <= 10000) by (nonlinear_arith)
        requires
            total > 0,
            total * s <= 10000 * total,
    ;
    assert(s > 10000 - n) by (nonlinear_arith)
        requires
            total > 0,
            n >= 1,
            10000 * total <= total * s + n * (total - 1),
    ;
}

/// One showdown step keeps every count a count.
proof fn lemma_step_tally_nonneg(t: Tally, s: Seq<u16>)
    requires
        tally_nonneg(t),
    ensures
        tally_nonneg(step_tally(t, s)),
        step_tally(t, s).wins.len() == t.wins.len(),
{
}

/// The zero tally is a sound tally.
proof fn lemma_zero_nonneg(n: int)
    requires
        0 <= n,
    ensures
        tally_nonneg(Tally::zero(n)),
        Tally::zero(n).wins.len() == n,
        Tally::zero(n).draws.len() == n,
{
}

/// Folding one-card completions keeps every count a count.
proof fn lemma_agg_singles_nonneg(
    holes: Seq<Seq<usize>>,
    base: Seq<usize>,
    alive: Seq<usize>,
    i: int,
    t: Tally,
)
    requires
        tally_nonneg(t),
    ensures
        tally_nonneg(crate::enumerate::agg_singles(holes, base, alive, i, t)),
        crate::enumerate::agg_singles(holes, base, alive, i, t).wins.len() == t.wins.len(),
    decreases alive.len() - i,
{
    if 0 <= i < alive.len() {
        lemma_step_tally_nonneg(
            t,
            crate::showdown::player_strengths(holes, seq![alive[i]] + base),
        );
        lemma_agg_singles_nonneg(
            holes,
            base,
            alive,
            i + 1,
            crate::enumerate::agg_board(holes, t, seq![alive[i]] + base),
        );
    }
}

/// Folding one first-pick row keeps every count a count.
proof fn lemma_agg_pairs_inner_nonneg(
    holes: Seq<Seq<usize>>,
    base: Seq<usize>,
    alive: Seq<usize>,
    i: int,
    j: int,
    t: Tally,
)
    requires
        tally_nonneg(t),
    ensures
        tally_nonneg(crate::enumerate::agg_pairs_inner(holes, base, alive, i, j, t)),
        crate::enumerate::agg_pairs_inner(holes, base, alive, i, j, t).wins.len() == t.wins.len(),
    decreases alive.len() - j,
{
    if 0 <= j < alive.len() {
        lemma_step_tally_nonneg(
            t,
            crate::showdown::player_strengths(holes, seq![alive[i], alive[j]] + base),
        );
        lemma_agg_pairs_inner_nonneg(
            holes,
            base,
            alive,
            i,
            j + 1,
            crate::enumerate::agg_board(holes, t, seq![alive[i], alive[j]] + base),
        );
    }
}

/// Folding every two-card completion keeps every count a count.
proof fn lemma_agg_pairs_nonneg(
    holes: Seq<Seq<usize>>,
    base: Seq<usize>,
    alive: Seq<usize>,
    i: int,
    t: Tally,
)
    requires
        tally_nonneg(t),
    ensures
        tally_nonneg(crate::enumerate::agg_pairs(holes, base, alive, i, t)),
        crate::enumerate::agg_pairs(holes, base, alive, i, t).wins.len() == t.wins.len(),
    decreases alive.len() - i,
{
    if 0 <= i < alive.len() {
        lemma_agg_pairs_inner_nonneg(holes, base, alive, i, i + 1, t);
        lemma_agg_pairs_nonneg(
            holes,
            base,
            alive,
            i + 1,
            crate::enumerate::agg_pairs_inner(holes, base, alive, i, i + 1, t),
        );
    }
}

/// The exhaustive tally of a request is a sound tally over its players.
pub proof fn lemma_exhaustive_tally_nonneg(
    holes: Seq<Seq<usize>>,
    base: Seq<usize>,
    alive: Seq<usize>,
    remain: int,
)
    requires
        holes.len() >= 1,
    ensures
        tally_nonneg(crate::enumerate::exhaustive_tally(holes, base, alive, remain)),
        crate::enumerate::exhaustive_tally(holes, base, alive, remain).wins.len() == holes.len(),
{
    let z = Tally::zero(holes.len() as int);
    lemma_zero_nonneg(holes.len() as int);
    if remain <= 0 {
        lemma_step_tally_nonneg(z, crate::showdown::player_strengths(holes, base));
    } else if remain == 1 {
        lemma_agg_singles_nonneg(holes, base, alive, 0, z);
    } else {
        lemma_agg_pairs_nonneg(holes, base, alive, 0, z);
    }
}

/// CONSERVATION OF EQUITY MASS, AT THE REQUEST. For a valid request whose
/// board the exhaustive regime completes (at most two cards to come, enough
/// cards alive to come), whenever every tied board of the walk is tied
/// between exactly two players, the players' rates sum to 10000 up to
/// per-player rounding.
pub proof fn lemma_request_mass_conservation(m: ReqModel)
    requires
        m.codes_well_formed(),
        m.valid(),
        m.remain() <= 2,
        alive_of(m).len() >= m.remain(),
        sum_seq(exhaustive_tally(holes_of(m), board_of(m), alive_of(m), m.remain()).draws) == 2
            * exhaustive_tally(holes_of(m), board_of(m), alive_of(m), m.remain()).draw_boards,
    ensures
        sum_seq(rates_seq(exhaustive_tally(holes_of(m), board_of(m), alive_of(m), m.remain())))
            <= 10000,
        sum_seq(rates_seq(exhaustive_tally(holes_of(m), board_of(m), alive_of(m), m.remain())))
            > 10000 - m.players.len(),
{
    let holes = holes_of(m);
    let base = board_of(m);
    let alive = alive_of(m);
    let remain = m.remain();
    let t = exhaustive_tally(holes, base, alive, remain);
    let z = Tally::zero(holes.len() as int);
    lemma_exhaustive_tally_nonneg(holes, base, alive, remain);
    crate::evaluator::lemma_zero_tally(holes.len() as int);
    lemma_zero_nonneg(holes.len() as int);
    if remain <= 0 {
        crate::enumerate::lemma_step_total(z, crate::showdown::player_strengths(holes, base));
        assert(total_of(t) == 1);
    } else if remain == 1 {
        crate::enumerate::lemma_agg_singles_total(holes, base, alive, 0, z);
        assert(total_of(t) == alive.len());
    } else {
        crate::enumerate::lemma_agg_pairs_total(holes, base, alive, 0, z);
        crate::enumerate::lemma_pairs_from_bounds(alive.len() as int, 0);
        assert(total_of(t) == crate::enumerate::pairs_from(alive.len() as int, 0) >= 1);
    }
    lemma_equity_mass_conservation(t);
}

/// OUTS COME ONLY FROM UNUSED CARDS. No card named anywhere in a valid
/// request — a hole card, a dealt card or a dead card — can stand in any
/// player's out-list.
pub proof fn lemma_outs_unused(m: ReqModel, p: int)
    requires
        m.codes_well_formed(),
        m.valid(),
    ensures
        forall|c: usize|
            #[trigger] crate::evaluator::outs_of(m, p).contains(c) ==> !crate::evaluator::parsed_codes(
                m,
            ).contains(c),
{
    let holes = holes_of(m);
    let base = board_of(m);
    let alive = alive_of(m);
    let n = alive.len() as int;
    crate::evaluator::lemma_parsed_codes_distinct(m);
    crate::cards::lemma_alive_upto_props(crate::evaluator::used_mask(m), 52);
    crate::outs::lemma_outs_upto_alive(holes, base, alive, p, n);
    let w = crate::outs::outs_wins_upto(holes, base, alive, p, n);
    let d = crate::outs::outs_draws_upto(holes, base, alive, p, n);
    assert forall|c: usize|
        #[trigger] crate::evaluator::outs_of(m, p).contains(c) implies !crate::evaluator::parsed_codes(
        m,
    ).contains(c) by {
        let x = choose|x: int|
            0 <= x < crate::evaluator::outs_of(m, p).len() && crate::evaluator::outs_of(m, p)[x]
                == c;
        assert(alive.contains(c)) by {
            if x < w.len() {
                assert(crate::evaluator::outs_of(m, p)[x] == w[x]);
            } else {
                assert(crate::evaluator::outs_of(m, p)[x] == d[x - w.len()]);
            }
        }
        let k = choose|k: int| 0 <= k < alive.len() && alive[k] == c;
        assert(crate::cards::card_mask(c as int) & crate::evaluator::used_mask(m) == 0);
        crate::hand::lemma_mask_contains(crate::evaluator::parsed_codes(m), c as int);
    }
}

/// ONE LIST PER FATE. For any player of a valid request, no card stands in
/// both the outright-win part and the tie part of the out-list.
pub proof fn lemma_outs_win_draw_disjoint(m: ReqModel, p: int)
    requires
        m.codes_well_formed(),
        m.valid(),
    ensures
        forall|c: usize|
            !(crate::outs::outs_wins_upto(
                holes_of(m),
                board_of(m),
                alive_of(m),
                p,
                alive_of(m).len() as int,
            ).contains(c) && #[trigger] crate::outs::outs_draws_upto(
                holes_of(m),
                board_of(m),
                alive_of(m),
                p,
                alive_of(m).len() as int,
            ).contains(c)),
{
    crate::cards::lemma_alive_upto_props(crate::evaluator::used_mask(m), 52);
    let alive = alive_of(m);
    assert(crate::hand::distinct_seq(alive)) by {
        assert forall|k1: int, k2: int|
            0 <= k1 < k2 < alive.len() implies alive[k1] != alive[k2] by {}
    }
    crate::outs::lemma_outs_lists_disjoint(holes_of(m), board_of(m), alive, p);
}

/// A player's weight on one board: 2 for an outright win, 1 for a tie, 0
/// for a loss.
pub open spec fn weight_of(s: Seq<u16>, p: int) -> int {
    if is_best(s, p) {
        if count_eq(s, max_val(s)) == 1 {
            2
        } else {
            1
        }
    } else {
        0
    }
}

/// Exactly one entry equal to `v` makes the count one.
proof fn lemma_count_eq_unique(s: Seq<u16>, v: u16, p: int)
    requires
        0 <= p < s.len(),
        s[p] == v,
        forall|q: int| 0 <= q < s.len() && q != p ==> s[q] != v,
    ensures
        count_eq(s, v) == 1,
    decreases s.len(),
{
    lemma_count_eq_bounds(s.drop_last(), v);
    if p == s.len() - 1 {
        assert(count_eq(s.drop_last(), v) == 0) by {
            lemma_count_none(s.drop_last(), v);
        }
    } else {
        assert(s.drop_last()[p] == s[p]);
        lemma_count_eq_unique(s.drop_last(), v, p);
    }
}

/// No entry equal to `v` makes the count zero.
proof fn lemma_count_none(s: Seq<u16>, v: u16)
    requires
        forall|q: int| 0 <= q < s.len() ==> s[q] != v,
    ensures
        count_eq(s, v) == 0,
    decreases s.len(),
{
    if s.len() > 0 {
        lemma_count_none(s.drop_last(), v);
    }
}

/// Attained upper bounds are the maximum.
proof fn lemma_max_val_eq(s: Seq<u16>, p: int)
    requires
        0 <= p < s.len(),
        forall|q: int| 0 <= q < s.len() ==> s[q] <= s[p],
    ensures
        max_val(s) == s[p],
{
    lemma_max_val_ge(s, p);
    lemma_max_val_attained(s);
    let i = choose|i: int| is_best(s, i);
}

/// Weakening one player's strength on a board, everyone else unchanged,
/// never raises that player's weight on the board.
pub proof fn lemma_weight_monotone(s1: Seq<u16>, s2: Seq<u16>, p: int)
    requires
        s1.len() == s2.len(),
        0 <= p < s1.len(),
        forall|q: int| 0 <= q < s1.len() && q != p ==> s2[q] == s1[q],
        s2[p] <= s1[p],
    ensures
        weight_of(s2, p) <= weight_of(s1, p),
{
    if is_best(s2, p) {
        let c2 = count_eq(s2, max_val(s2));
        lemma_count_member(s2, max_val(s2), p);
        assert forall|q: int| 0 <= q < s1.len() implies s1[q] <= s1[p] by {
            if q != p {
                lemma_max_val_ge(s2, q);
            }
        }
        lemma_max_val_eq(s1, p);
        assert(is_best(s1, p));
        if c2 == 1 {
            assert forall|q: int| 0 <= q < s1.len() && q != p implies s1[q] != s1[p] by {
                if s1[q] == s1[p] {
                    assert(s2[q] == s1[q]);
                    lemma_max_val_ge(s2, q);
                    assert(s2[q] <= max_val(s2) == s2[p] <= s1[p]);
                    assert(s2[q] == max_val(s2));
                    lemma_count_member_two(s2, max_val(s2), p, q);
                }
            }
            lemma_count_eq_unique(s1, s1[p], p);
            assert(weight_of(s1, p) == 2);
        } else {
            assert(weight_of(s1, p) >= 1);
        }
    }
}

/// Two distinct entries equal to `v` make the count at least two.
proof fn lemma_count_member_two(s: Seq<u16>, v: u16, p: int, q: int)
    requires
        0 <= p < s.len(),
        0 <= q < s.len(),
        p != q,
        s[p] == v,
        s[q] == v,
    ensures
        count_eq(s, v) >= 2,
    decreases s.len(),
{
    if p == s.len() - 1 || q == s.len() - 1 {
        let other = if p == s.len() - 1 {
            q
        } else {
            p
        };
        assert(s.drop_last()[other] == s[other]);
        lemma_count_member(s.drop_last(), v, other);
    } else {
        assert(s.drop_last()[p] == s[p]);
        assert(s.drop_last()[q] == s[q]);
        lemma_count_member_two(s.drop_last(), v, p, q);
    }
}

/// The tally of a list of boards' strengths, folded from the zero tally.
pub open spec fn tally_steps(ss: Seq<Seq<u16>>, k: int, t: Tally) -> Tally
    decreases ss.len() - k,
{
    if k < 0 || k >= ss.len() {
        t
    } else {
        tally_steps(ss, k + 1, step_tally(t, ss[k]))
    }
}

/// One step adds the board's weight to twice the wins plus the draws.
proof fn lemma_step_weight(t: Tally, s: Seq<u16>, p: int)
    requires
        0 <= p < t.wins.len(),
        t.wins.len() == t.draws.len() == s.len(),
    ensures
        2 * step_tally(t, s).wins[p] + step_tally(t, s).draws[p] == 2 * t.wins[p] + t.draws[p]
            + weight_of(s, p),
        step_tally(t, s).wins.len() == t.wins.len(),
        step_tally(t, s).draws.len() == t.draws.len(),
{
    if is_best(s, p) {
        lemma_count_member(s, max_val(s), p);
    }
}

/// The per-player weight sum of the boards from position `k` on.
pub open spec fn weight_sum(ss: Seq<Seq<u16>>, k: int, p: int) -> int
    decreases ss.len() - k,
{
    if k < 0 || k >= ss.len() {
        0
    } else {
        weight_of(ss[k], p) + weight_sum(ss, k + 1, p)
    }
}

/// Folded over a board list, twice the wins plus the draws is the weight sum.
proof fn lemma_tally_steps_weight(ss: Seq<Seq<u16>>, k: int, t: Tally, p: int, n: int)
    requires
        0 <= k <= ss.len(),
        0 <= p < n,
        t.wins.len() == t.draws.len() == n,
        forall|b: int| 0 <= b < ss.len() ==> (#[trigger] ss[b]).len() == n,
    ensures
        tally_steps(ss, k, t).wins.len() == n,
        tally_steps(ss, k, t).draws.len() == n,
        2 * tally_steps(ss, k, t).wins[p] + tally_steps(ss, k, t).draws[p] == 2 * t.wins[p]
            + t.draws[p] + weight_sum(ss, k, p),
    decreases ss.len() - k,
{
    if k < ss.len() {
        lemma_step_weight(t, ss[k], p);
        lemma_tally_steps_weight(ss, k + 1, step_tally(t, ss[k]), p, n);
    }
}

/// Folding a board list raises the total by one per board.
proof fn lemma_tally_steps_total(ss: Seq<Seq<u16>>, k: int, t: Tally, n: int)
    requires
        0 <= k <= ss.len(),
        n >= 1,
        t.wins.len() == t.draws.len() == n,
        forall|b: int| 0 <= b < ss.len() ==> (#[trigger] ss[b]).len() == n,
    ensures
        tally_steps(ss, k, t).wins.len() == n,
        tally_steps(ss, k, t).draws.len() == n,
        total_of(tally_steps(ss, k, t)) == total_of(t) + (ss.len() - k),
    decreases ss.len() - k,
{
    if k < ss.len() {
        crate::enumerate::lemma_step_total(t, ss[k]);
        lemma_tally_steps_total(ss, k + 1, step_tally(t, ss[k]), n);
    }
}

/// Pointwise weaker boards give a weight sum no larger.
proof fn lemma_weight_sum_monotone(ss1: Seq<Seq<u16>>, ss2: Seq<Seq<u16>>, k: int, p: int, n: int)
    requires
        0 <= k <= ss1.len(),
        ss1.len() == ss2.len(),
        0 <= p < n,
        forall|b: int| 0 <= b < ss1.len() ==> (#[trigger] ss1[b]).len() == n,
        forall|b: int| 0 <= b < ss2.len() ==> (#[trigger] ss2[b]).len() == n,
        forall|b: int, q: int|
            0 <= b < ss1.len() && 0 <= q < n && q != p ==> #[trigger] ss2[b][q] == ss1[b][q],
        forall|b: int| 0 <= b < ss1.len() ==> (#[trigger] ss2[b])[p] <= ss1[b][p],
    ensures
        weight_sum(ss2, k, p) <= weight_sum(ss1, k, p),
    decreases ss1.len() - k,
{
    if k < ss1.len() {
        lemma_weight_monotone(ss1[k], ss2[k], p);
        lemma_weight_sum_monotone(ss1, ss2, k + 1, p, n);
    }
}

/// MONOTONICITY. Take the same list of boards twice, each board given as
/// the players' strengths at its showdown; in the second run one player is
/// weakened on some boards (never strengthened) while every other player's
/// strength is unchanged everywhere. Then that player's rate in the second
/// run is at most the rate in the first.
pub proof fn lemma_rate_monotone(ss1: Seq<Seq<u16>>, ss2: Seq<Seq<u16>>, p: int, n: int)
    requires
        ss1.len() == ss2.len(),
        ss1.len() >= 1,
        0 <= p < n,
        n >= 1,
        forall|b: int| 0 <= b < ss1.len() ==> (#[trigger] ss1[b]).len() == n,
        forall|b: int| 0 <= b < ss2.len() ==> (#[trigger] ss2[b]).len() == n,
        forall|b: int, q: int|
            0 <= b < ss1.len() && 0 <= q < n && q != p ==> #[trigger] ss2[b][q] == ss1[b][q],
        forall|b: int| 0 <= b < ss1.len() ==> (#[trigger] ss2[b])[p] <= ss1[b][p],
    ensures
        rate_of(tally_steps(ss2, 0, Tally::zero(n)), p) <= rate_of(
            tally_steps(ss1, 0, Tally::zero(n)),
            p,
        ),
{
    let z = Tally::zero(n);
    let t1 = tally_steps(ss1, 0, z);
    let t2 = tally_steps(ss2, 0, z);
    lemma_tally_steps_weight(ss1, 0, z, p, n);
    lemma_tally_steps_weight(ss2, 0, z, p, n);
    lemma_tally_steps_total(ss1, 0, z, n);
    lemma_tally_steps_total(ss2, 0, z, n);
    crate::evaluator::lemma_zero_tally(n);
    lemma_weight_sum_monotone(ss1, ss2, 0, p, n);
    let total = total_of(t1);
    assert(total == ss1.len());
    assert(total_of(t2) == total);
    assert(2 * t2.wins[p] + t2.draws[p] <= 2 * t1.wins[p] + t1.draws[p]);
    let n1 = t1.wins[p] * 10000 + t1.draws[p] * 5000;
    let n2 = t2.wins[p] * 10000 + t2.draws[p] * 5000;
    let w1 = t1.wins[p];
    let d1 = t1.draws[p];
    let w2 = t2.wins[p];
    let d2 = t2.draws[p];
    assert(w1 * 10000 + d1 * 5000 == 5000 * (2 * w1 + d1)) by (nonlinear_arith);
    assert(w2 * 10000 + d2 * 5000 == 5000 * (2 * w2 + d2)) by (nonlinear_arith);
    assert(n2 <= n1) by (nonlinear_arith)
        requires
            n1 == 5000 * (2 * w1 + d1),
            n2 == 5000 * (2 * w2 + d2),
            2 * w2 + d2 <= 2 * w1 + d1,
    ;
    lemma_div_is_ordered(n2, n1, total);
}

/// IDEMPOTENCE OF THE EXHAUSTIVE REGIME. Any two responses that meet the
/// equity contract for the same valid request with at most two cards to
/// come carry identical rates: the exhaustive answer is a function of the
/// request alone, with no random part.
pub proof fn lemma_exhaustive_idempotent(
    m: ReqModel,
    r1: CalculateRatingRsp,
    r2: CalculateRatingRsp,
)
    requires
        m.valid(),
        m.remain() <= 2,
        rating_rsp_ok(m, r1),
        rating_rsp_ok(m, r2),
    ensures
        r1.clients_rate@.len() == r2.clients_rate@.len(),
        forall|i: int|
            0 <= i < r1.clients_rate@.len() ==> (#[trigger] r1.clients_rate@[i]).rate
                == r2.clients_rate@[i].rate && r1.clients_rate@[i].uid@
                == r2.clients_rate@[i].uid@,
{
}

} // verus!
