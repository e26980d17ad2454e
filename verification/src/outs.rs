//! Outs: for each player, the specific remaining cards that, dealt as the
//! next community card, leave the player outright best or tied for best.
//! Probing is one candidate card at a time against the dealt board, never a
//! full remaining street.

use vstd::prelude::*;

use crate::cards::card_mask;
use crate::evaluator::{hole_cards_of, parsed_codes, user_cards_match, lemma_hands_disjoint_from,
    board_of};
use crate::hand::{all_valid, distinct_seq, Hand};
use crate::model::{CardsInfo, ReqModel};
use crate::showdown::{count_eq, is_best, max_and_count, max_val, player_strengths};

verus! {

/// The cards among the first `k` alive cards whose dealing makes player `p`
/// the outright best, in alive order.
pub open spec fn outs_wins_upto(
    holes: Seq<Seq<usize>>,
    base: Seq<usize>,
    alive: Seq<usize>,
    p: int,
    k: int,
) -> Seq<usize>
    decreases k,
{
    if k <= 0 {
        Seq::empty()
    } else {
        let prefix = outs_wins_upto(holes, base, alive, p, k - 1);
        let s = player_strengths(holes, seq![alive[k - 1]] + base);
        if count_eq(s, max_val(s)) == 1 && is_best(s, p) {
            prefix.push(alive[k - 1])
        } else {
            prefix
        }
    }
}

/// The cards among the first `k` alive cards whose dealing leaves player
/// `p` tied for best with someone, in alive order.
pub open spec fn outs_draws_upto(
    holes: Seq<Seq<usize>>,
    base: Seq<usize>,
    alive: Seq<usize>,
    p: int,
    k: int,
) -> Seq<usize>
    decreases k,
{
    if k <= 0 {
        Seq::empty()
    } else {
        let prefix = outs_draws_upto(holes, base, alive, p, k - 1);
        let s = player_strengths(holes, seq![alive[k - 1]] + base);
        if count_eq(s, max_val(s)) > 1 && is_best(s, p) {
            prefix.push(alive[k - 1])
        } else {
            prefix
        }
    }
}

/// Dealing the card at alive position `j` makes player `p` the outright
/// best.
pub open spec fn is_win_card(
    holes: Seq<Seq<usize>>,
    base: Seq<usize>,
    alive: Seq<usize>,
    p: int,
    j: int,
) -> bool {
    let s = player_strengths(holes, seq![alive[j]] + base);
    count_eq(s, max_val(s)) == 1 && is_best(s, p)
}

/// Dealing the card at alive position `j` leaves player `p` tied for best.
pub open spec fn is_draw_card(
    holes: Seq<Seq<usize>>,
    base: Seq<usize>,
    alive: Seq<usize>,
    p: int,
    j: int,
) -> bool {
    let s = player_strengths(holes, seq![alive[j]] + base);
    count_eq(s, max_val(s)) > 1 && is_best(s, p)
}

/// Every listed out sits at an alive position whose card it is, with the
/// matching win or draw condition.
pub proof fn lemma_outs_positions(
    holes: Seq<Seq<usize>>,
    base: Seq<usize>,
    alive: Seq<usize>,
    p: int,
    k: int,
)
    requires
        0 <= k <= alive.len(),
    ensures
        forall|c: usize|
            #[trigger] outs_wins_upto(holes, base, alive, p, k).contains(c) ==> exists|j: int|
                0 <= j < k && alive[j] == c && #[trigger] is_win_card(holes, base, alive, p, j),
        forall|c: usize|
            #[trigger] outs_draws_upto(holes, base, alive, p, k).contains(c) ==> exists|j: int|
                0 <= j < k && alive[j] == c && #[trigger] is_draw_card(holes, base, alive, p, j),
    decreases k,
{
    if k > 0 {
        lemma_outs_positions(holes, base, alive, p, k - 1);
        let wprev = outs_wins_upto(holes, base, alive, p, k - 1);
        let w = outs_wins_upto(holes, base, alive, p, k);
        assert forall|c: usize| #[trigger] w.contains(c) implies exists|j: int|
            0 <= j < k && alive[j] == c && #[trigger] is_win_card(holes, base, alive, p, j) by {
            let x = choose|x: int| 0 <= x < w.len() && w[x] == c;
            if x < wprev.len() {
                assert(w[x] == wprev[x]);
                assert(wprev.contains(c));
                let j = choose|j: int|
                    0 <= j < k - 1 && alive[j] == c && #[trigger] is_win_card(
                        holes,
                        base,
                        alive,
                        p,
                        j,
                    );
                assert(is_win_card(holes, base, alive, p, j));
            } else {
                assert(w[x] == alive[k - 1]);
                assert(is_win_card(holes, base, alive, p, k - 1));
            }
        }
        let dprev = outs_draws_upto(holes, base, alive, p, k - 1);
        let d = outs_draws_upto(holes, base, alive, p, k);
        assert forall|c: usize| #[trigger] d.contains(c) implies exists|j: int|
            0 <= j < k && alive[j] == c && #[trigger] is_draw_card(holes, base, alive, p, j) by {
            let x = choose|x: int| 0 <= x < d.len() && d[x] == c;
            if x < dprev.len() {
                assert(d[x] == dprev[x]);
                assert(dprev.contains(c));
                let j = choose|j: int|
                    0 <= j < k - 1 && alive[j] == c && #[trigger] is_draw_card(
                        holes,
                        base,
                        alive,
                        p,
                        j,
                    );
                assert(is_draw_card(holes, base, alive, p, j));
            } else {
                assert(d[x] == alive[k - 1]);
                assert(is_draw_card(holes, base, alive, p, k - 1));
            }
        }
    }
}

/// No card stands in both of one player's lists: a card either wins the
/// board outright for the player or ties it, never both.
pub proof fn lemma_outs_lists_disjoint(
    holes: Seq<Seq<usize>>,
    base: Seq<usize>,
    alive: Seq<usize>,
    p: int,
)
    requires
        distinct_seq(alive),
    ensures
        forall|c: usize|
            !(outs_wins_upto(holes, base, alive, p, alive.len() as int).contains(c)
                && #[trigger] outs_draws_upto(holes, base, alive, p, alive.len() as int).contains(
                c,
            )),
{
    let n = alive.len() as int;
    lemma_outs_positions(holes, base, alive, p, n);
    let w = outs_wins_upto(holes, base, alive, p, n);
    let d = outs_draws_upto(holes, base, alive, p, n);
    assert forall|c: usize| !(w.contains(c) && #[trigger] d.contains(c)) by {
        if w.contains(c) && d.contains(c) {
            let j1 = choose|j1: int|
                0 <= j1 < n && alive[j1] == c && #[trigger] is_win_card(
                    holes,
                    base,
                    alive,
                    p,
                    j1,
                );
            let j2 = choose|j2: int|
                0 <= j2 < n && alive[j2] == c && #[trigger] is_draw_card(
                    holes,
                    base,
                    alive,
                    p,
                    j2,
                );
            assert(alive[j1] == alive[j2]);
            assert(j1 == j2);
        }
    }
}

/// Every out is an alive card.
pub proof fn lemma_outs_upto_alive(
    holes: Seq<Seq<usize>>,
    base: Seq<usize>,
    alive: Seq<usize>,
    p: int,
    k: int,
)
    requires
        0 <= k <= alive.len(),
    ensures
        forall|x: int|
            0 <= x < outs_wins_upto(holes, base, alive, p, k).len() ==> alive.contains(
                #[trigger] outs_wins_upto(holes, base, alive, p, k)[x],
            ),
        forall|x: int|
            0 <= x < outs_draws_upto(holes, base, alive, p, k).len() ==> alive.contains(
                #[trigger] outs_draws_upto(holes, base, alive, p, k)[x],
            ),
    decreases k,
{
    if k > 0 {
        lemma_outs_upto_alive(holes, base, alive, p, k - 1);
        assert(alive.contains(alive[k - 1]));
        let wprev = outs_wins_upto(holes, base, alive, p, k - 1);
        let w = outs_wins_upto(holes, base, alive, p, k);
        assert forall|x: int| 0 <= x < w.len() implies alive.contains(#[trigger] w[x]) by {
            if x < wprev.len() {
                assert(w[x] == wprev[x]);
            } else {
                assert(w[x] == alive[k - 1]);
            }
        }
        let dprev = outs_draws_upto(holes, base, alive, p, k - 1);
        let d = outs_draws_upto(holes, base, alive, p, k);
        assert forall|x: int| 0 <= x < d.len() implies alive.contains(#[trigger] d[x]) by {
            if x < dprev.len() {
                assert(d[x] == dprev[x]);
            } else {
                assert(d[x] == alive[k - 1]);
            }
        }
    }
}

/// One player's probe over every alive card: the cards that win the board
/// for the player outright, and the cards that tie it.
pub fn player_outs(
    user_cards: &Vec<CardsInfo>,
    board: &Hand,
    alive: &Vec<usize>,
    p: usize,
    Ghost(m): Ghost<ReqModel>,
) -> (r: (Vec<usize>, Vec<usize>))
    requires
        m.codes_well_formed(),
        m.valid(),
        user_cards_match(m, user_cards@),
        board.wf(),
        board.cards@ == board_of(m),
        m.deal.len() <= 4,
        all_valid(alive@),
        distinct_seq(alive@),
        forall|k: int|
            0 <= k < alive@.len() ==> card_mask(#[trigger] alive@[k] as int) & board.mask == 0,
        forall|k: int| 0 <= k < alive@.len() ==> !parsed_codes(m).contains(#[trigger] alive@[k]),
        all_valid(parsed_codes(m)),
        distinct_seq(parsed_codes(m)),
        parsed_codes(m).len() == m.all_codes().len(),
        forall|i: int|
            0 <= i < m.players.len() ==> #[trigger] hole_cards_of(m, i) == seq![
                parsed_codes(m)[2 * i],
                parsed_codes(m)[2 * i + 1],
            ],
        forall|j: int|
            0 <= j < m.deal.len() ==> #[trigger] board_of(m)[j] == parsed_codes(m)[2
                * m.players.len() + j],
        user_cards@.len() == m.players.len() >= 2,
        p < user_cards@.len(),
    ensures
        r.0@ == outs_wins_upto(
            crate::evaluator::holes_of(m),
            board_of(m),
            alive@,
            p as int,
            alive@.len() as int,
        ),
        r.1@ == outs_draws_upto(
            crate::evaluator::holes_of(m),
            board_of(m),
            alive@,
            p as int,
            alive@.len() as int,
        ),
        all_valid(r.0@),
        all_valid(r.1@),
{
    let ghost holes = crate::evaluator::holes_of(m);
    let ghost base = board_of(m);
    let n = user_cards.len();
    let mut wins: Vec<usize> = Vec::new();
    let mut draws: Vec<usize> = Vec::new();
    let mut k: usize = 0;
    while k < alive.len()
        invariant
            m.codes_well_formed(),
            m.valid(),
            user_cards_match(m, user_cards@),
            board.wf(),
            board.cards@ == board_of(m),
            m.deal.len() <= 4,
            all_valid(alive@),
            distinct_seq(alive@),
            forall|x: int|
                0 <= x < alive@.len() ==> card_mask(#[trigger] alive@[x] as int) & board.mask == 0,
            forall|x: int| 0 <= x < alive@.len() ==> !parsed_codes(m).contains(#[trigger] alive@[x]),
            all_valid(parsed_codes(m)),
            distinct_seq(parsed_codes(m)),
            parsed_codes(m).len() == m.all_codes().len(),
            forall|i: int|
                0 <= i < m.players.len() ==> #[trigger] hole_cards_of(m, i) == seq![
                    parsed_codes(m)[2 * i],
                    parsed_codes(m)[2 * i + 1],
                ],
            forall|j: int|
                0 <= j < m.deal.len() ==> #[trigger] board_of(m)[j] == parsed_codes(m)[2
                    * m.players.len() + j],
            holes == crate::evaluator::holes_of(m),
            base == board_of(m),
            n == user_cards@.len() == m.players.len() >= 2,
            p < n,
            k <= alive@.len(),
            wins@ == outs_wins_upto(holes, base, alive@, p as int, k as int),
            draws@ == outs_draws_upto(holes, base, alive@, p as int, k as int),
            all_valid(wins@),
            all_valid(draws@),
        decreases alive@.len() - k,
    {
        let picked = alive[k];
        let single = Hand::new().add_card(picked);
        proof {
            let cm = card_mask(picked as int);
            assert((0u64 | cm) == cm) by (bit_vector);
        }
        let new_board = single.union(board);
        proof {
            assert(new_board.cards@ =~= seq![picked] + base);
            assert forall|x: int|
                0 <= x < new_board.cards@.len() implies !parsed_codes(m).contains(
                #[trigger] new_board.cards@[x],
            ) || board_of(m).contains(new_board.cards@[x]) by {
                if x > 0 {
                    assert(new_board.cards@[x] == base[x - 1]);
                    assert(board_of(m).contains(new_board.cards@[x]));
                }
            }
            lemma_hands_disjoint_from(m, user_cards@, new_board.cards@);
        }
        let strengths = crate::showdown::board_strengths(user_cards, &new_board);
        proof {
            assert(strengths@ == player_strengths(holes, seq![alive@[k as int]] + base)) by {
                assert(user_cards@.map_values(|u: CardsInfo| u.hands.cards@) =~= holes);
            }
        }
        let (max, cnt) = max_and_count(&strengths);
        if strengths[p] == max {
            proof {
                crate::showdown::lemma_count_member(strengths@, max, p as int);
            }
            if cnt == 1 {
                wins.push(picked);
            } else {
                draws.push(picked);
            }
        }
        proof {
            let s = player_strengths(holes, seq![alive@[k as int]] + base);
            assert(is_best(s, p as int) == (strengths@[p as int] == max_val(s)));
        }
        k += 1;
    }
    proof {
        assert(alive@.len() as int == alive@.len());
    }
    (wins, draws)
}

} // verus!
