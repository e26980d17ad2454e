//! Showdown for one completed board: every player's seven-card strength, the
//! set of players tied for the maximum, and the fold of one board's outcome
//! into per-player win and draw accumulators.

use vstd::prelude::*;

use crate::hand::{cards_strength, Hand};
use crate::model::CardsInfo;

verus! {

/// The maximum of a list of strengths; 0 for the empty list.
pub open spec fn max_val(s: Seq<u16>) -> u16
    decreases s.len(),
{
    if s.len() == 0 {
        0u16
    } else {
        let m = max_val(s.drop_last());
        if s.last() > m {
            s.last()
        } else {
            m
        }
    }
}

/// How many entries equal `v`.
pub open spec fn count_eq(s: Seq<u16>, v: u16) -> int
    decreases s.len(),
{
    if s.len() == 0 {
        0
    } else {
        count_eq(s.drop_last(), v) + if s.last() == v {
            1int
        } else {
            0int
        }
    }
}

/// Player `i` is tied for the best strength.
pub open spec fn is_best(s: Seq<u16>, i: int) -> bool {
    0 <= i < s.len() && s[i] == max_val(s)
}

/// No strength exceeds the maximum.
pub proof fn lemma_max_val_ge(s: Seq<u16>, i: int)
    requires
        0 <= i < s.len(),
    ensures
        s[i] <= max_val(s),
    decreases s.len(),
{
    if i < s.len() - 1 {
        lemma_max_val_ge(s.drop_last(), i);
    }
}

/// A nonempty list attains its maximum.
pub proof fn lemma_max_val_attained(s: Seq<u16>)
    requires
        s.len() > 0,
    ensures
        count_eq(s, max_val(s)) >= 1,
        exists|i: int| is_best(s, i),
    decreases s.len(),
{
    lemma_count_eq_bounds(s, max_val(s));
    if s.last() == max_val(s) {
        assert(is_best(s, s.len() - 1));
        assert(count_eq(s, max_val(s)) >= 1) by {
            lemma_count_member(s, max_val(s), s.len() - 1);
        }
    } else {
        assert(s.len() >= 2) by {
            if s.len() == 1 {
                assert(max_val(s.drop_last()) == 0);
            }
        }
        lemma_max_val_attained(s.drop_last());
        let i = choose|i: int| is_best(s.drop_last(), i);
        assert(s[i] == s.drop_last()[i]);
        assert(is_best(s, i));
        lemma_count_member(s, max_val(s), i);
    }
}

/// A list with an entry equal to `v` counts at least one.
pub proof fn lemma_count_member(s: Seq<u16>, v: u16, i: int)
    requires
        0 <= i < s.len(),
        s[i] == v,
    ensures
        count_eq(s, v) >= 1,
    decreases s.len(),
{
    lemma_count_eq_bounds(s.drop_last(), v);
    if i < s.len() - 1 {
        assert(s.drop_last()[i] == s[i]);
        lemma_count_member(s.drop_last(), v, i);
    }
}

/// Counts lie between 0 and the length.
pub proof fn lemma_count_eq_bounds(s: Seq<u16>, v: u16)
    ensures
        0 <= count_eq(s, v) <= s.len(),
    decreases s.len(),
{
    if s.len() > 0 {
        lemma_count_eq_bounds(s.drop_last(), v);
    }
}

/// Per-player accumulators over the boards seen so far: outright wins,
/// participations in a tied board, and how many boards were tied at all.
#[verifier::ext_equal]
pub struct Tally {
    /// Boards each player won outright.
    pub wins: Seq<int>,
    /// Boards each player was tied for best on.
    pub draws: Seq<int>,
    /// Boards with two or more players tied for best, each counted once.
    pub draw_boards: int,
}

impl Tally {
    /// The all-zero tally for `n` players.
    pub open spec fn zero(n: int) -> Tally {
        Tally {
            wins: Seq::new(n as nat, |i: int| 0int),
            draws: Seq::new(n as nat, |i: int| 0int),
            draw_boards: 0,
        }
    }
}

/// One board folded into the tally: a single best player takes a win; two or
/// more tied best players each take a draw, and the board counts once as a
/// tied board.
pub open spec fn step_tally(t: Tally, s: Seq<u16>) -> Tally {
    let c = count_eq(s, max_val(s));
    Tally {
        wins: Seq::new(
            t.wins.len(),
            |i: int| t.wins[i] + if c == 1 && is_best(s, i) {
                1int
            } else {
                0int
            },
        ),
        draws: Seq::new(
            t.draws.len(),
            |i: int| t.draws[i] + if c > 1 && is_best(s, i) {
                1int
            } else {
                0int
            },
        ),
        draw_boards: t.draw_boards + if c > 1 {
            1int
        } else {
            0int
        },
    }
}

/// The exec accumulators seen as a tally.
pub open spec fn tally_of(wins: Seq<u64>, draws: Seq<u64>, draw_boards: u64) -> Tally {
    Tally {
        wins: wins.map_values(|x: u64| x as int),
        draws: draws.map_values(|x: u64| x as int),
        draw_boards: draw_boards as int,
    }
}

/// Folds one board's showdown into the accumulators: the players tied for
/// the best strength win the board outright (one of them) or each draw it
/// (two or more, the board then counting once as a tied board).
pub fn add_to_win_count(
    strengths: &Vec<u16>,
    draw_count_by_uid: &mut Vec<u64>,
    draw_count: &mut u64,
    win_count_by_uid: &mut Vec<u64>,
) -> (r: ())
    requires
        strengths@.len() >= 1,
        old(draw_count_by_uid)@.len() == strengths@.len(),
        old(win_count_by_uid)@.len() == strengths@.len(),
        forall|i: int|
            0 <= i < strengths@.len() ==> #[trigger] old(win_count_by_uid)@[i] < u64::MAX,
        forall|i: int|
            0 <= i < strengths@.len() ==> #[trigger] old(draw_count_by_uid)@[i] < u64::MAX,
        *old(draw_count) < u64::MAX,
    ensures
        final(win_count_by_uid)@.len() == strengths@.len(),
        final(draw_count_by_uid)@.len() == strengths@.len(),
        tally_of(
            final(win_count_by_uid)@,
            final(draw_count_by_uid)@,
            *final(draw_count),
        ) == step_tally(
            tally_of(old(win_count_by_uid)@, old(draw_count_by_uid)@, *old(draw_count)),
            strengths@,
        ),
{
    let n = strengths.len();
    let mut max: u16 = 0;
    let mut k: usize = 0;
    while k < n
        invariant
            n == strengths@.len(),
            k <= n,
            max == max_val(strengths@.subrange(0, k as int)),
        decreases n - k,
    {
        proof {
            assert(strengths@.subrange(0, k + 1).drop_last() =~= strengths@.subrange(0, k as int));
            assert(strengths@.subrange(0, k + 1).last() == strengths@[k as int]);
        }
        if strengths[k] > max {
            max = strengths[k];
        }
        k += 1;
    }
    proof {
        assert(strengths@.subrange(0, n as int) =~= strengths@);
    }
    let mut cnt: usize = 0;
    k = 0;
    while k < n
        invariant
            n == strengths@.len(),
            k <= n,
            cnt <= k,
            cnt == count_eq(strengths@.subrange(0, k as int), max),
        decreases n - k,
    {
        proof {
            assert(strengths@.subrange(0, k + 1).drop_last() =~= strengths@.subrange(0, k as int));
            assert(strengths@.subrange(0, k + 1).last() == strengths@[k as int]);
        }
        if strengths[k] == max {
            cnt += 1;
        }
        k += 1;
    }
    let many = cnt > 1;
    let ghost t0 = tally_of(win_count_by_uid@, draw_count_by_uid@, *draw_count);
    if many {
        *draw_count = *draw_count + 1;
    }
    k = 0;
    while k < n
        invariant
            n == strengths@.len(),
            k <= n,
            max == max_val(strengths@),
            cnt == count_eq(strengths@, max),
            many == (cnt > 1),
            win_count_by_uid@.len() == n,
            draw_count_by_uid@.len() == n,
            t0.wins.len() == n,
            t0.draws.len() == n,
            *draw_count == t0.draw_boards + if many {
                1int
            } else {
                0int
            },
            forall|i: int|
                0 <= i < k ==> #[trigger] win_count_by_uid@[i] == t0.wins[i] + if !many && is_best(
                    strengths@,
                    i,
                ) {
                    1int
                } else {
                    0int
                },
            forall|i: int|
                0 <= i < k ==> #[trigger] draw_count_by_uid@[i] == t0.draws[i] + if many && is_best(
                    strengths@,
                    i,
                ) {
                    1int
                } else {
                    0int
                },
            forall|i: int| k <= i < n ==> #[trigger] win_count_by_uid@[i] == t0.wins[i],
            forall|i: int| k <= i < n ==> #[trigger] draw_count_by_uid@[i] == t0.draws[i],
            forall|i: int| k <= i < n ==> #[trigger] win_count_by_uid@[i] < u64::MAX,
            forall|i: int| k <= i < n ==> #[trigger] draw_count_by_uid@[i] < u64::MAX,
        decreases n - k,
    {
        if strengths[k] == max {
            if many {
                let c = draw_count_by_uid[k];
                assert(c < u64::MAX);
                draw_count_by_uid[k] = c + 1;
            } else {
                let c = win_count_by_uid[k];
                assert(c < u64::MAX);
                win_count_by_uid[k] = c + 1;
            }
        }
        k += 1;
    }
    proof {
        let t1 = tally_of(win_count_by_uid@, draw_count_by_uid@, *draw_count);
        let ts = step_tally(t0, strengths@);
        assert forall|i: int| 0 <= i < n implies t1.wins[i] == ts.wins[i] && t1.draws[i]
            == ts.draws[i] by {
            if is_best(strengths@, i) {
                lemma_count_member(strengths@, max, i);
            }
        }
        assert(t1.wins =~= ts.wins);
        assert(t1.draws =~= ts.draws);
    }
}

/// The maximum strength and how many players attain it.
pub fn max_and_count(strengths: &Vec<u16>) -> (r: (u16, usize))
    ensures
        r.0 == max_val(strengths@),
        r.1 == count_eq(strengths@, max_val(strengths@)),
{
    let n = strengths.len();
    let mut max: u16 = 0;
    let mut k: usize = 0;
    while k < n
        invariant
            n == strengths@.len(),
            k <= n,
            max == max_val(strengths@.subrange(0, k as int)),
        decreases n - k,
    {
        proof {
            assert(strengths@.subrange(0, k + 1).drop_last() =~= strengths@.subrange(0, k as int));
            assert(strengths@.subrange(0, k + 1).last() == strengths@[k as int]);
        }
        if strengths[k] > max {
            max = strengths[k];
        }
        k += 1;
    }
    proof {
        assert(strengths@.subrange(0, n as int) =~= strengths@);
    }
    let mut cnt: usize = 0;
    k = 0;
    while k < n
        invariant
            n == strengths@.len(),
            k <= n,
            cnt <= k,
            max == max_val(strengths@),
            cnt == count_eq(strengths@.subrange(0, k as int), max),
        decreases n - k,
    {
        proof {
            assert(strengths@.subrange(0, k + 1).drop_last() =~= strengths@.subrange(0, k as int));
            assert(strengths@.subrange(0, k + 1).last() == strengths@[k as int]);
        }
        if strengths[k] == max {
            cnt += 1;
        }
        k += 1;
    }
    proof {
        assert(strengths@.subrange(0, n as int) =~= strengths@);
    }
    (max, cnt)
}

/// The strengths of every player's hole cards joined with one board.
pub open spec fn player_strengths(holes: Seq<Seq<usize>>, board: Seq<usize>) -> Seq<u16> {
    Seq::new(holes.len(), |i: int| cards_strength(holes[i] + board))
}

/// Evaluates every player against one completed board.
pub fn board_strengths(user_cards: &Vec<CardsInfo>, board: &Hand) -> (r: Vec<u16>)
    requires
        board.wf(),
        forall|i: int| 0 <= i < user_cards@.len() ==> (#[trigger] user_cards@[i]).hands.wf(),
        forall|i: int| 0 <= i < user_cards@.len() ==> (#[trigger] user_cards@[i]).hands.cards@.len() == 2,
        forall|i: int|
            0 <= i < user_cards@.len() ==> (#[trigger] user_cards@[i]).hands.mask & board.mask == 0,
        board.cards@.len() <= 5,
    ensures
        r@.len() == user_cards@.len(),
        r@ == player_strengths(
            user_cards@.map_values(|u: CardsInfo| u.hands.cards@),
            board.cards@,
        ),
{
    let mut r: Vec<u16> = Vec::new();
    let mut k: usize = 0;
    while k < user_cards.len()
        invariant
            k <= user_cards@.len(),
            r@.len() == k,
            board.wf(),
            board.cards@.len() <= 5,
            forall|i: int| 0 <= i < user_cards@.len() ==> (#[trigger] user_cards@[i]).hands.wf(),
            forall|i: int|
                0 <= i < user_cards@.len() ==> (#[trigger] user_cards@[i]).hands.cards@.len() == 2,
            forall|i: int|
                0 <= i < user_cards@.len() ==> (#[trigger] user_cards@[i]).hands.mask & board.mask
                    == 0,
            forall|i: int|
                0 <= i < k ==> #[trigger] r@[i] == cards_strength(
                    user_cards@[i].hands.cards@ + board.cards@,
                ),
        decreases user_cards@.len() - k,
    {
        let combined = user_cards[k].hands.union(board);
        let s = combined.evaluate();
        r.push(s);
        k += 1;
    }
    proof {
        assert(r@ =~= player_strengths(
            user_cards@.map_values(|u: CardsInfo| u.hands.cards@),
            board.cards@,
        ));
    }
    r
}

} // verus!
