//! Board enumeration and aggregation: folds of the per-board showdown over
//! a list of boards, over every one-card completion, and over every
//! two-card completion in lexicographic order; the backtracking cursor
//! transition; and the random completion draw of the sampling regime.

use vstd::prelude::*;

use crate::cards::{card_mask, valid_card};
use crate::eval::random_below;
use crate::hand::{all_valid, distinct_seq, Hand};
use crate::showdown::{
    count_eq, is_best, lemma_max_val_attained, max_val, player_strengths, step_tally, Tally,
};

verus! {

/// The sum of a sequence of integers.
pub open spec fn sum_seq(s: Seq<int>) -> int
    decreases s.len(),
{
    if s.len() == 0 {
        0
    } else {
        sum_seq(s.drop_last()) + s.last()
    }
}

/// A sum of nonnegative entries is at least any single entry and nonnegative.
pub proof fn lemma_sum_seq_nonneg(s: Seq<int>)
    requires
        forall|i: int| 0 <= i < s.len() ==> #[trigger] s[i] >= 0,
    ensures
        sum_seq(s) >= 0,
        forall|i: int| 0 <= i < s.len() ==> #[trigger] s[i] <= sum_seq(s),
    decreases s.len(),
{
    if s.len() > 0 {
        assert(forall|i: int| 0 <= i < s.drop_last().len() ==> #[trigger] s.drop_last()[i] >= 0);
        lemma_sum_seq_nonneg(s.drop_last());
        assert forall|i: int| 0 <= i < s.len() implies #[trigger] s[i] <= sum_seq(s) by {
            if i < s.len() - 1 {
                assert(s.drop_last()[i] == s[i]);
            }
        }
    }
}

/// A prefix of nonnegative entries sums to no more than the whole.
pub proof fn lemma_sum_seq_prefix(s: Seq<int>, n: int)
    requires
        0 <= n <= s.len(),
        forall|i: int| 0 <= i < s.len() ==> #[trigger] s[i] >= 0,
    ensures
        sum_seq(s.subrange(0, n)) <= sum_seq(s),
    decreases s.len() - n,
{
    if n == s.len() {
        assert(s.subrange(0, n) =~= s);
    } else {
        lemma_sum_seq_prefix(s, n + 1);
        assert(s.subrange(0, n + 1).drop_last() =~= s.subrange(0, n));
        assert(s.subrange(0, n + 1).last() == s[n]);
    }
}

/// The denominator of every rate: boards won outright by anyone, plus
/// boards tied by two or more players, each tied board counted once.
pub open spec fn total_of(t: Tally) -> int {
    sum_seq(t.wins) + t.draw_boards
}

/// Sums of a prefix with the best-player indicator added pointwise.
proof fn lemma_sum_add_ind_upto(a: Seq<int>, s: Seq<u16>, k: int)
    requires
        a.len() == s.len(),
        0 <= k <= a.len(),
    ensures
        sum_seq(
            Seq::new(
                k as nat,
                |i: int| a[i] + if is_best(s, i) {
                    1int
                } else {
                    0int
                },
            ),
        ) == sum_seq(a.subrange(0, k)) + count_eq(s.subrange(0, k), max_val(s)),
    decreases k,
{
    if k > 0 {
        lemma_sum_add_ind_upto(a, s, k - 1);
        let f = |i: int| a[i] + if is_best(s, i) {
            1int
        } else {
            0int
        };
        assert(Seq::new(k as nat, f).drop_last() =~= Seq::new((k - 1) as nat, f));
        assert(Seq::new(k as nat, f).last() == f(k - 1));
        assert(a.subrange(0, k).drop_last() =~= a.subrange(0, k - 1));
        assert(a.subrange(0, k).last() == a[k - 1]);
        assert(s.subrange(0, k).drop_last() =~= s.subrange(0, k - 1));
        assert(s.subrange(0, k).last() == s[k - 1]);
        assert(is_best(s, k - 1) == (s[k - 1] == max_val(s)));
    }
}

/// Counting a value over a prefix of the whole equals counting it whole.
proof fn lemma_count_eq_full(s: Seq<u16>)
    ensures
        count_eq(s.subrange(0, s.len() as int), max_val(s)) == count_eq(s, max_val(s)),
{
    assert(s.subrange(0, s.len() as int) =~= s);
}

/// One board folded in raises the total by exactly one: either one player
/// wins it outright, or the board counts once as tied.
pub proof fn lemma_step_total(t: Tally, s: Seq<u16>)
    requires
        t.wins.len() == s.len(),
        s.len() > 0,
    ensures
        total_of(step_tally(t, s)) == total_of(t) + 1,
        step_tally(t, s).wins.len() == t.wins.len(),
        step_tally(t, s).draws.len() == t.draws.len(),
{
    let m = max_val(s);
    let c = count_eq(s, m);
    lemma_max_val_attained(s);
    let ts = step_tally(t, s);
    if c > 1 {
        assert(ts.wins =~= t.wins);
        assert(ts.draw_boards == t.draw_boards + 1);
    } else {
        assert(c == 1);
        lemma_sum_add_ind_upto(t.wins, s, s.len() as int);
        lemma_count_eq_full(s);
        assert(ts.wins =~= Seq::new(
            s.len(),
            |i: int| t.wins[i] + if is_best(s, i) {
                1int
            } else {
                0int
            },
        ));
        assert(t.wins.subrange(0, t.wins.len() as int) =~= t.wins);
        assert(sum_seq(ts.wins) == sum_seq(t.wins) + 1);
    }
}

/// One board's showdown folded into a tally.
pub open spec fn agg_board(holes: Seq<Seq<usize>>, t: Tally, board: Seq<usize>) -> Tally {
    step_tally(t, player_strengths(holes, board))
}

/// The fold of a list of boards into a tally, first board first.
pub open spec fn agg_list(holes: Seq<Seq<usize>>, boards: Seq<Seq<usize>>, k: int, t: Tally) -> Tally
    decreases boards.len() - k,
{
    if k < 0 || k >= boards.len() {
        t
    } else {
        agg_list(holes, boards, k + 1, agg_board(holes, t, boards[k]))
    }
}

/// Extending the board list folds the new board in last.
pub proof fn lemma_agg_list_push(
    holes: Seq<Seq<usize>>,
    boards: Seq<Seq<usize>>,
    b: Seq<usize>,
    k: int,
    t: Tally,
)
    requires
        0 <= k <= boards.len(),
    ensures
        agg_list(holes, boards.push(b), k, t) == agg_board(
            holes,
            agg_list(holes, boards, k, t),
            b,
        ),
    decreases boards.len() - k,
{
    if k == boards.len() {
        assert(boards.push(b)[k] == b);
        assert(agg_list(holes, boards, k, t) == t);
        assert(agg_list(holes, boards.push(b), k + 1, agg_board(holes, t, b)) == agg_board(
            holes,
            t,
            b,
        ));
    } else {
        assert(boards.push(b)[k] == boards[k]);
        lemma_agg_list_push(holes, boards, b, k + 1, agg_board(holes, t, boards[k]));
    }
}

/// Folding a list of boards raises the total by the number of boards.
pub proof fn lemma_agg_list_total(holes: Seq<Seq<usize>>, boards: Seq<Seq<usize>>, k: int, t: Tally)
    requires
        0 <= k <= boards.len(),
        t.wins.len() == holes.len(),
        t.draws.len() == holes.len(),
        holes.len() > 0,
    ensures
        total_of(agg_list(holes, boards, k, t)) == total_of(t) + (boards.len() - k),
        agg_list(holes, boards, k, t).wins.len() == holes.len(),
        agg_list(holes, boards, k, t).draws.len() == holes.len(),
    decreases boards.len() - k,
{
    if k < boards.len() {
        lemma_step_total(t, player_strengths(holes, boards[k]));
        lemma_agg_list_total(holes, boards, k + 1, agg_board(holes, t, boards[k]));
    }
}

/// Every one-card completion of the board, folded in alive order from
/// position `i` on.
pub open spec fn agg_singles(
    holes: Seq<Seq<usize>>,
    base: Seq<usize>,
    alive: Seq<usize>,
    i: int,
    t: Tally,
) -> Tally
    decreases alive.len() - i,
{
    if i < 0 || i >= alive.len() {
        t
    } else {
        agg_singles(holes, base, alive, i + 1, agg_board(holes, t, seq![alive[i]] + base))
    }
}

/// Folding the one-card completions raises the total by their number.
pub proof fn lemma_agg_singles_total(
    holes: Seq<Seq<usize>>,
    base: Seq<usize>,
    alive: Seq<usize>,
    i: int,
    t: Tally,
)
    requires
        0 <= i <= alive.len(),
        t.wins.len() == holes.len(),
        t.draws.len() == holes.len(),
        holes.len() > 0,
    ensures
        total_of(agg_singles(holes, base, alive, i, t)) == total_of(t) + (alive.len() - i),
        agg_singles(holes, base, alive, i, t).wins.len() == holes.len(),
        agg_singles(holes, base, alive, i, t).draws.len() == holes.len(),
    decreases alive.len() - i,
{
    if i < alive.len() {
        lemma_step_total(t, player_strengths(holes, seq![alive[i]] + base));
        lemma_agg_singles_total(holes, base, alive, i + 1, agg_board(holes, t, seq![alive[i]] + base));
    }
}

/// The two-card completions whose first pick sits at position `i`, second
/// pick walking from position `j` on.
pub open spec fn agg_pairs_inner(
    holes: Seq<Seq<usize>>,
    base: Seq<usize>,
    alive: Seq<usize>,
    i: int,
    j: int,
    t: Tally,
) -> Tally
    decreases alive.len() - j,
{
    if j < 0 || j >= alive.len() {
        t
    } else {
        agg_pairs_inner(
            holes,
            base,
            alive,
            i,
            j + 1,
            agg_board(holes, t, seq![alive[i], alive[j]] + base),
        )
    }
}

/// Every two-card completion in lexicographic order of alive positions,
/// first pick walking from position `i` on.
pub open spec fn agg_pairs(
    holes: Seq<Seq<usize>>,
    base: Seq<usize>,
    alive: Seq<usize>,
    i: int,
    t: Tally,
) -> Tally
    decreases alive.len() - i,
{
    if i < 0 || i >= alive.len() {
        t
    } else {
        agg_pairs(holes, base, alive, i + 1, agg_pairs_inner(holes, base, alive, i, i + 1, t))
    }
}

/// How many two-card completions remain from first-pick position `i` on.
pub open spec fn pairs_from(n: int, i: int) -> int
    decreases n - i,
{
    if i < 0 || i >= n {
        0
    } else {
        (n - i - 1) + pairs_from(n, i + 1)
    }
}

/// The pair count is nonnegative, and positive when two picks fit.
pub proof fn lemma_pairs_from_bounds(n: int, i: int)
    requires
        0 <= i <= n,
    ensures
        0 <= pairs_from(n, i) <= (n - i) * n,
        n - i >= 2 ==> pairs_from(n, i) >= 1,
    decreases n - i,
{
    if i < n {
        lemma_pairs_from_bounds(n, i + 1);
        assert((n - i) * n == n + (n - i - 1) * n) by (nonlinear_arith);
        assert(n - i - 1 <= n);
    }
}

/// Folding one first-pick row raises the total by the row's length.
pub proof fn lemma_agg_pairs_inner_total(
    holes: Seq<Seq<usize>>,
    base: Seq<usize>,
    alive: Seq<usize>,
    i: int,
    j: int,
    t: Tally,
)
    requires
        0 <= j <= alive.len(),
        t.wins.len() == holes.len(),
        t.draws.len() == holes.len(),
        holes.len() > 0,
    ensures
        total_of(agg_pairs_inner(holes, base, alive, i, j, t)) == total_of(t) + (alive.len() - j),
        agg_pairs_inner(holes, base, alive, i, j, t).wins.len() == holes.len(),
        agg_pairs_inner(holes, base, alive, i, j, t).draws.len() == holes.len(),
    decreases alive.len() - j,
{
    if j < alive.len() {
        lemma_step_total(t, player_strengths(holes, seq![alive[i], alive[j]] + base));
        lemma_agg_pairs_inner_total(
            holes,
            base,
            alive,
            i,
            j + 1,
            agg_board(holes, t, seq![alive[i], alive[j]] + base),
        );
    }
}

/// Folding every two-card completion raises the total by the pair count.
pub proof fn lemma_agg_pairs_total(
    holes: Seq<Seq<usize>>,
    base: Seq<usize>,
    alive: Seq<usize>,
    i: int,
    t: Tally,
)
    requires
        0 <= i <= alive.len(),
        t.wins.len() == holes.len(),
        t.draws.len() == holes.len(),
        holes.len() > 0,
    ensures
        total_of(agg_pairs(holes, base, alive, i, t)) == total_of(t) + pairs_from(
            alive.len() as int,
            i,
        ),
        agg_pairs(holes, base, alive, i, t).wins.len() == holes.len(),
        agg_pairs(holes, base, alive, i, t).draws.len() == holes.len(),
    decreases alive.len() - i,
{
    if i < alive.len() {
        lemma_agg_pairs_inner_total(holes, base, alive, i, i + 1, t);
        lemma_agg_pairs_total(holes, base, alive, i + 1, agg_pairs_inner(holes, base, alive, i, i + 1, t));
    }
}

/// The exhaustive regime's tally: every `remain`-card completion of the
/// base board from the alive cards, each exactly once, in lexicographic
/// order of alive positions.
pub open spec fn exhaustive_tally(
    holes: Seq<Seq<usize>>,
    base: Seq<usize>,
    alive: Seq<usize>,
    remain: int,
) -> Tally {
    let z = Tally::zero(holes.len() as int);
    if remain <= 0 {
        agg_board(holes, z, base)
    } else if remain == 1 {
        agg_singles(holes, base, alive, 0, z)
    } else {
        agg_pairs(holes, base, alive, 0, z)
    }
}

/// A player's rate: a won board is worth the full scale, a tied board half,
/// normalized by the total of boards decided.
pub open spec fn rate_of(t: Tally, i: int) -> int {
    (t.wins[i] * 10000 + t.draws[i] * 5000) / total_of(t)
}

/// The position of the first unclaimed slot at or after `p`; `used.len()`
/// when every later slot is claimed.
pub open spec fn next_free(used: Seq<bool>, p: int) -> int
    decreases used.len() - p,
{
    if p < 0 {
        next_free(used, 0)
    } else if p >= used.len() {
        used.len() as int
    } else if !used[p] {
        p
    } else {
        next_free(used, p + 1)
    }
}

/// `next_free` lands on an unclaimed slot at or after `p`, or at the end.
pub proof fn lemma_next_free(used: Seq<bool>, p: int)
    requires
        0 <= p <= used.len(),
    ensures
        p <= next_free(used, p) <= used.len(),
        next_free(used, p) < used.len() ==> !used[next_free(used, p)],
        forall|q: int| p <= q < next_free(used, p) ==> used[q],
    decreases used.len() - p,
{
    if p < used.len() && used[p] {
        lemma_next_free(used, p + 1);
    }
}

/// Advances one cursor slot of the backtracking combination walk.
///
/// `alive_card_index[current_index]` is the slot's position in the alive
/// list, -1 when the slot is unset; `used_cards` claims positions held by
/// active slots. The slot advances to the next unclaimed position after its
/// own, or — when unset — after the previous slot's position (after -1 for
/// slot 0), claiming it. When no position is left the walk has finished if
/// this is slot 0; otherwise the slot resets and the walk backtracks.
/// Returns (finished, backtrack).
pub fn get_index(
    alive_card_index: &mut Vec<i32>,
    current_index: usize,
    alive_cards_len: i32,
    used_cards: &mut Vec<bool>,
    can_remove: &bool,
) -> (r: (bool, bool))
    requires
        current_index < old(alive_card_index)@.len(),
        old(used_cards)@.len() == alive_cards_len,
        0 <= alive_cards_len,
        -1 <= old(alive_card_index)@[current_index as int] < alive_cards_len,
        current_index > 0 ==> 0 <= old(alive_card_index)@[current_index as int - 1]
            < alive_cards_len,
    ensures
        ({
            let pos0 = old(alive_card_index)@[current_index as int];
            let used0 = if *can_remove && pos0 >= 0 {
                old(used_cards)@.update(pos0 as int, false)
            } else {
                old(used_cards)@
            };
            let start = if pos0 >= 0 {
                pos0 + 1
            } else if current_index == 0 {
                0int
            } else {
                old(alive_card_index)@[current_index as int - 1] + 1
            };
            let p = next_free(used0, start);
            let cursor1 = final(alive_card_index)@;
            let used1 = final(used_cards)@;
            if p < alive_cards_len {
                r == (false, false) && used1 == used0.update(p, true) && cursor1 == old(
                    alive_card_index,
                )@.update(current_index as int, p as i32)
            } else if current_index == 0 {
                r == (true, false) && used1 == used0 && cursor1 == old(alive_card_index)@
            } else {
                r == (false, true) && used1 == used0 && cursor1 == old(
                    alive_card_index,
                )@.update(current_index as int, -1i32)
            }
        }),
{
    let pos0 = alive_card_index[current_index];
    if *can_remove && pos0 >= 0 {
        used_cards[pos0 as usize] = false;
    }
    let start: i32 = if pos0 >= 0 {
        pos0 + 1
    } else if current_index == 0 {
        0
    } else {
        alive_card_index[current_index - 1] + 1
    };
    let ghost used0 = used_cards@;
    let mut p: i32 = start;
    proof {
        lemma_next_free(used0, start as int);
    }
    while p < alive_cards_len && used_cards[p as usize]
        invariant
            used_cards@ == used0,
            used0.len() == alive_cards_len,
            0 <= start <= p <= alive_cards_len,
            next_free(used0, start as int) == next_free(used0, p as int),
        decreases alive_cards_len - p,
    {
        p += 1;
        proof {
            lemma_next_free(used0, p as int);
        }
    }
    proof {
        lemma_next_free(used0, p as int);
        assert(next_free(used0, start as int) == p as int);
    }
    if p >= alive_cards_len {
        if current_index == 0 {
            (true, false)
        } else {
            alive_card_index[current_index] = -1;
            (false, true)
        }
    } else {
        alive_card_index[current_index] = p;
        used_cards[p as usize] = true;
        (false, false)
    }
}

/// A board completion drawn at random: `remain` distinct cards from the
/// alive list joined with the base board. Which cards are drawn is left
/// open; every outcome satisfies the stated shape.
pub fn draw_completion(base: &Hand, alive: &Vec<usize>, remain: usize) -> (h: Hand)
    requires
        base.wf(),
        all_valid(alive@),
        distinct_seq(alive@),
        forall|k: int| 0 <= k < alive@.len() ==> card_mask(#[trigger] alive@[k] as int) & base.mask
            == 0,
        remain <= alive@.len(),
    ensures
        h.wf(),
        h.cards@.len() == remain + base.cards@.len(),
        h.cards@.skip(remain as int) == base.cards@,
        forall|k: int| 0 <= k < remain ==> alive@.contains(#[trigger] h.cards@[k]),
{
    let mut scratch: Vec<usize> = Vec::new();
    let mut k: usize = 0;
    while k < alive.len()
        invariant
            k <= alive@.len(),
            scratch@ == alive@.subrange(0, k as int),
        decreases alive@.len() - k,
    {
        scratch.push(alive[k]);
        proof {
            assert(scratch@ =~= alive@.subrange(0, k + 1));
        }
        k += 1;
    }
    proof {
        assert(scratch@ =~= alive@);
    }
    let n = scratch.len();
    let mut picks = Hand::new();
    k = 0;
    while k < remain
        invariant
            remain <= n,
            n == scratch@.len(),
            base.wf(),
            all_valid(scratch@),
            distinct_seq(scratch@),
            forall|j: int|
                0 <= j < scratch@.len() ==> alive@.contains(#[trigger] scratch@[j]),
            forall|j: int|
                0 <= j < scratch@.len() ==> card_mask(#[trigger] scratch@[j] as int) & base.mask
                    == 0,
            k <= remain,
            picks.wf(),
            picks.cards@ == scratch@.subrange(0, k as int),
        decreases remain - k,
    {
        let r = k + random_below(n - k);
        let ghost s0 = scratch@;
        if r != k {
            let a = scratch[k];
            let b = scratch[r];
            scratch[k] = b;
            scratch[r] = a;
        }
        proof {
            let s = scratch@;
            if r != k {
                assert(s == s0.update(k as int, s0[r as int]).update(r as int, s0[k as int]));
                assert forall|x: int, y: int| 0 <= x < y < s.len() implies s[x] != s[y] by {
                    if x == k && y == r {
                    } else if x == k {
                        assert(s[x] == s0[r as int] && s[y] == s0[y]);
                    } else if y == r {
                        assert(s[x] == s0[x] && s[y] == s0[k as int]);
                    } else if x == r {
                        assert(s[x] == s0[k as int] && s[y] == s0[y]);
                    } else if y == k {
                        assert(s[x] == s0[x] && s[y] == s0[r as int]);
                    } else {
                        assert(s[x] == s0[x] && s[y] == s0[y]);
                    }
                }
                assert(s.subrange(0, k as int) =~= s0.subrange(0, k as int));
            } else {
                assert(s == s0);
            }
            assert(s.subrange(0, k as int) =~= picks.cards@);
            if picks.cards@.contains(s[k as int]) {
                let j = choose|j: int| 0 <= j < picks.cards@.len() && picks.cards@[j] == s[
                    k as int
                ];
                assert(s[j] == s[k as int]);
            }
        }
        let c = scratch[k];
        let picks2 = picks.add_card(c);
        proof {
            assert(picks2.cards@ =~= scratch@.subrange(0, k + 1));
        }
        picks = picks2;
        k += 1;
    }
    proof {
        assert forall|j: int|
            0 <= j < picks.cards@.len() implies card_mask(#[trigger] picks.cards@[j] as int)
            & base.mask == 0 by {
            assert(picks.cards@[j] == scratch@[j]);
        }
        crate::hand::lemma_mask_of_seq_disjoint(picks.cards@, base.mask);
        assert(picks.mask & base.mask == 0);
    }
    let h = picks.union(base);
    proof {
        assert(h.cards@.skip(remain as int) =~= base.cards@);
        assert forall|j: int| 0 <= j < remain implies alive@.contains(#[trigger] h.cards@[j]) by {
            assert(h.cards@[j] == picks.cards@[j]);
            assert(scratch@.contains(picks.cards@[j])) by {
                assert(picks.cards@[j] == scratch@.subrange(0, remain as int)[j]);
            }
        }
    }
    h
}

} // verus!
