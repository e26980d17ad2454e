//! The two outside calls the engine rests on: the perfect-hash hand-strength
//! evaluator of `rs_poker`, and a random number from `rand`. Each stands
//! behind one trusted wrapper; everything around them is verified.

use rand::Rng;
use vstd::prelude::*;

verus! {

/// What the `rs_poker` evaluator returns for a list of cards, given as
/// (rank index, suit index in `rs_poker`'s numbering) pairs: the hand
/// category (0 high card .. 8 straight flush) and the tie-break detail
/// within the category. A function of the cards alone.
pub uninterp spec fn rank_of(cards: Seq<(u8, u8)>) -> (u8, u16);

/// Relies on rs_poker's `Rankable` for `Vec<Card>`: the best five-card rank
/// of the given cards, deterministic in the cards, returned as the category
/// (`Rank::category()`, nine variants) and the tie-break detail within the
/// category (`Rank::value_bits()`, the low twelve bits of the packed score).
/// A hand is strictly stronger exactly when its (category, detail) pair is
/// lexicographically greater.
#[verifier::external_body]
pub(crate) fn rank_cards(cards: &Vec<(u8, u8)>) -> (r: (u8, u16))
    requires
        2 <= cards@.len() <= 7,
        forall|k: int| 0 <= k < cards@.len() ==> (#[trigger] cards@[k]).0 < 13 && cards@[k].1 < 4,
        forall|k1: int, k2: int| 0 <= k1 < k2 < cards@.len() ==> cards@[k1] != cards@[k2],
    ensures
        r == rank_of(cards@),
        r.0 <= 8,
        r.1 < 4096,
{
    let cs: Vec<rs_poker::core::Card> = cards
        .iter()
        .map(
            |c: &(u8, u8)|
                rs_poker::core::Card::new(
                    rs_poker::core::Value::from_u8(c.0),
                    rs_poker::core::Suit::from_u8(c.1),
                ),
        )
        .collect();
    let rank = rs_poker::core::Rankable::rank(&cs);
    (rank.category() as u8, rank.value_bits())
}

/// The strength of a list of cards as one comparable number: the category in
/// the high bits, the tie-break detail in the low twelve.
pub open spec fn strength_of(cards: Seq<(u8, u8)>) -> u16 {
    (rank_of(cards).0 * 4096 + rank_of(cards).1) as u16
}

/// Evaluates a list of cards to its strength; strictly greater means
/// strictly stronger, equal means exactly equal hand strength.
pub fn evaluate_cards(cards: &Vec<(u8, u8)>) -> (s: u16)
    requires
        2 <= cards@.len() <= 7,
        forall|k: int| 0 <= k < cards@.len() ==> (#[trigger] cards@[k]).0 < 13 && cards@[k].1 < 4,
        forall|k1: int, k2: int| 0 <= k1 < k2 < cards@.len() ==> cards@[k1] != cards@[k2],
    ensures
        s == strength_of(cards@),
{
    let r = rank_cards(cards);
    (r.0 as u16) * 4096 + r.1
}

/// Relies on rand's `Rng::gen_range` over `0..n`: a number below `n`.
/// Nothing more is promised of it; callers must hold for every outcome.
#[verifier::external_body]
pub(crate) fn random_below(n: usize) -> (r: usize)
    requires
        n > 0,
    ensures
        r < n,
{
    rand::thread_rng().gen_range(0..n)
}

} // verus!
