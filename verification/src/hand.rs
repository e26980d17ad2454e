//! A hand is an accumulation of distinct cards: the list of their indices
//! plus the bitwise union of their masks, so membership and overlap tests
//! are one AND. Each union produces a new value; hands are never mutated.

use vstd::prelude::*;

use crate::cards::{card_mask, card_rank, card_suit, lemma_card_masks_disjoint,
    lemma_card_mask_nonzero, mask_of_card, valid_card};
use crate::eval::{evaluate_cards, strength_of};

verus! {

/// The bitwise union of the masks of a list of cards.
pub open spec fn mask_of_seq(cards: Seq<usize>) -> u64
    decreases cards.len(),
{
    if cards.len() == 0 {
        0u64
    } else {
        mask_of_seq(cards.drop_last()) | card_mask(cards.last() as int)
    }
}

/// All entries are card indices.
pub open spec fn all_valid(cards: Seq<usize>) -> bool {
    forall|k: int| 0 <= k < cards.len() ==> valid_card(#[trigger] cards[k] as int)
}

/// No entry repeats.
pub open spec fn distinct_seq(cards: Seq<usize>) -> bool {
    forall|k1: int, k2: int| 0 <= k1 < k2 < cards.len() ==> cards[k1] != cards[k2]
}

/// A card's bit is set in the union mask exactly when the card is listed.
pub proof fn lemma_mask_contains(cards: Seq<usize>, c: int)
    requires
        all_valid(cards),
        valid_card(c),
    ensures
        (card_mask(c) & mask_of_seq(cards) != 0) == cards.contains(c as usize),
    decreases cards.len(),
{
    if cards.len() == 0 {
        let m = card_mask(c);
        assert(m & 0 == 0) by (bit_vector);
        assert(!cards.contains(c as usize));
    } else {
        let prefix = cards.drop_last();
        let last = cards.last() as int;
        lemma_mask_contains(prefix, c);
        let a = card_mask(c);
        let b = mask_of_seq(prefix);
        let d = card_mask(last);
        assert((a & (b | d) != 0) == (a & b != 0 || a & d != 0)) by (bit_vector);
        if c == last {
            lemma_card_mask_nonzero(c);
            assert(a & d == d) by (bit_vector)
                requires
                    a == d,
            ;
            assert(cards.contains(c as usize));
        } else {
            lemma_card_masks_disjoint(c, last);
            assert(cards.contains(c as usize) == prefix.contains(c as usize)) by {
                if cards.contains(c as usize) {
                    let k = choose|k: int| 0 <= k < cards.len() && cards[k] == c as usize;
                    assert(k < cards.len() - 1);
                    assert(prefix[k] == c as usize);
                }
                if prefix.contains(c as usize) {
                    let k = choose|k: int| 0 <= k < prefix.len() && prefix[k] == c as usize;
                    assert(cards[k] == c as usize);
                }
            }
        }
    }
}

/// The union mask of a concatenation is the union of the two masks.
pub proof fn lemma_mask_of_seq_add(s1: Seq<usize>, s2: Seq<usize>)
    ensures
        mask_of_seq(s1 + s2) == mask_of_seq(s1) | mask_of_seq(s2),
    decreases s2.len(),
{
    if s2.len() == 0 {
        assert(s1 + s2 =~= s1);
        let a = mask_of_seq(s1);
        assert(a | 0 == a) by (bit_vector);
    } else {
        lemma_mask_of_seq_add(s1, s2.drop_last());
        assert((s1 + s2).drop_last() =~= s1 + s2.drop_last());
        assert((s1 + s2).last() == s2.last());
        let a = mask_of_seq(s1);
        let b = mask_of_seq(s2.drop_last());
        let d = card_mask(s2.last() as int);
        assert((a | b) | d == a | (b | d)) by (bit_vector);
    }
}

/// Masks of card lists that share no card are disjoint.
pub proof fn lemma_masks_disjoint(s1: Seq<usize>, s2: Seq<usize>)
    requires
        all_valid(s1),
        all_valid(s2),
        forall|k: int| 0 <= k < s2.len() ==> !s1.contains(#[trigger] s2[k]),
    ensures
        mask_of_seq(s1) & mask_of_seq(s2) == 0,
    decreases s2.len(),
{
    let a = mask_of_seq(s1);
    if s2.len() == 0 {
        assert(a & 0 == 0) by (bit_vector);
    } else {
        assert(all_valid(s2.drop_last()));
        assert(forall|k: int|
            0 <= k < s2.drop_last().len() ==> !s1.contains(#[trigger] s2.drop_last()[k]));
        lemma_masks_disjoint(s1, s2.drop_last());
        let b = mask_of_seq(s2.drop_last());
        let last = s2.last() as int;
        let d = card_mask(last);
        assert(s2.contains(s2.last()));
        assert(!s1.contains(s2.last()));
        lemma_mask_contains(s1, last);
        assert(d & a == 0);
        assert(d & a == 0 ==> a & d == 0) by (bit_vector);
        assert(a & b == 0 && a & d == 0 ==> a & (b | d) == 0) by (bit_vector);
    }
}

/// A union mask stays disjoint from a mask its cards all avoid.
pub proof fn lemma_mask_of_seq_disjoint(s: Seq<usize>, bm: u64)
    requires
        all_valid(s),
        forall|k: int| 0 <= k < s.len() ==> card_mask(#[trigger] s[k] as int) & bm == 0,
    ensures
        mask_of_seq(s) & bm == 0,
    decreases s.len(),
{
    if s.len() == 0 {
        assert(0u64 & bm == 0) by (bit_vector);
    } else {
        lemma_mask_of_seq_disjoint(s.drop_last(), bm);
        let a = mask_of_seq(s.drop_last());
        let d = card_mask(s.last() as int);
        assert(s[s.len() - 1] == s.last());
        assert(a & bm == 0 && d & bm == 0 ==> (a | d) & bm == 0) by (bit_vector);
    }
}

/// An accumulation of distinct cards: their indices and the union of their
/// masks, kept consistent by `wf`.
pub struct Hand {
    /// The cards of the hand, in the order they were added.
    pub cards: Vec<usize>,
    /// The bitwise union of the cards' masks.
    pub mask: u64,
}

impl Hand {
    /// Consistency: every entry is a card, none repeats, and the mask is the
    /// union of the entries' masks.
    pub open spec fn wf(&self) -> bool {
        all_valid(self.cards@) && distinct_seq(self.cards@) && self.mask == mask_of_seq(
            self.cards@,
        )
    }

    /// The strength of this hand's cards under the outside evaluator.
    pub open spec fn spec_strength(&self) -> u16 {
        strength_of(eval_pairs_of(self.cards@))
    }

    /// The empty hand.
    pub fn new() -> (h: Hand)
        ensures
            h.wf(),
            h.cards@ =~= Seq::<usize>::empty(),
            h.mask == 0,
    {
        Hand { cards: Vec::new(), mask: 0 }
    }

    /// A new hand with one more card.
    pub fn add_card(&self, c: usize) -> (h: Hand)
        requires
            self.wf(),
            valid_card(c as int),
            !self.cards@.contains(c),
        ensures
            h.wf(),
            h.cards@ == self.cards@.push(c),
            h.mask == self.mask | card_mask(c as int),
    {
        let mut cards = self.cards.clone();
        cards.push(c);
        let m = mask_of_card(c);
        proof {
            assert(cards@.drop_last() =~= self.cards@);
            assert forall|k1: int, k2: int|
                0 <= k1 < k2 < cards@.len() implies cards@[k1] != cards@[k2] by {
                if k2 == cards@.len() - 1 {
                    assert(self.cards@[k1] != c) by {
                        if self.cards@[k1] == c {
                            assert(self.cards@.contains(c));
                        }
                    }
                }
            }
        }
        Hand { cards, mask: self.mask | m }
    }

    /// The union of two hands that share no card.
    pub fn union(&self, other: &Hand) -> (h: Hand)
        requires
            self.wf(),
            other.wf(),
            self.mask & other.mask == 0,
        ensures
            h.wf(),
            h.cards@ == self.cards@ + other.cards@,
            h.mask == self.mask | other.mask,
    {
        let mut cards = self.cards.clone();
        let mut k: usize = 0;
        while k < other.cards.len()
            invariant
                k <= other.cards@.len(),
                cards@ == self.cards@ + other.cards@.subrange(0, k as int),
            decreases other.cards@.len() - k,
        {
            cards.push(other.cards[k]);
            proof {
                assert(cards@ =~= self.cards@ + other.cards@.subrange(0, k + 1 as int));
            }
            k += 1;
        }
        proof {
            assert(cards@ =~= self.cards@ + other.cards@);
            lemma_mask_of_seq_add(self.cards@, other.cards@);
            assert forall|k1: int, k2: int|
                0 <= k1 < k2 < cards@.len() implies cards@[k1] != cards@[k2] by {
                let n1 = self.cards@.len() as int;
                if k1 < n1 && k2 >= n1 {
                    let a = cards@[k1] as int;
                    let b = cards@[k2] as int;
                    if a == b {
                        lemma_mask_contains(self.cards@, a);
                        lemma_mask_contains(other.cards@, b);
                        assert(self.cards@.contains(cards@[k1]));
                        assert(other.cards@.contains(cards@[k2]));
                        lemma_one_bit_not_in_both(a, self.mask, other.mask);
                    }
                }
            }
        }
        Hand { cards, mask: self.mask | other.mask }
    }

    /// Whether the hand holds the card.
    pub fn contains(&self, c: usize) -> (r: bool)
        requires
            self.wf(),
            valid_card(c as int),
        ensures
            r == self.cards@.contains(c),
    {
        let m = mask_of_card(c);
        proof {
            lemma_mask_contains(self.cards@, c as int);
        }
        m & self.mask != 0
    }

    /// The union mask of the hand's cards.
    pub fn get_mask(&self) -> (m: u64)
        ensures
            m == self.mask,
    {
        self.mask
    }

    /// How many cards the hand holds.
    pub fn len(&self) -> (n: usize)
        ensures
            n == self.cards@.len(),
    {
        self.cards.len()
    }

    /// The hand's strength under the outside evaluator: strictly greater
    /// means strictly stronger; ties denote exactly equal strength.
    pub fn evaluate(&self) -> (s: u16)
        requires
            self.wf(),
            2 <= self.cards@.len() <= 7,
        ensures
            s == self.spec_strength(),
    {
        let pairs = to_eval_pairs(&self.cards);
        proof {
            lemma_eval_pairs_distinct(self.cards@);
        }
        evaluate_cards(&pairs)
    }
}

/// A card's mask bit cannot lie in two disjoint masks at once.
pub proof fn lemma_one_bit_not_in_both(c: int, m1: u64, m2: u64)
    requires
        valid_card(c),
        m1 & m2 == 0,
    ensures
        !(card_mask(c) & m1 != 0 && card_mask(c) & m2 != 0),
{
    let sh = crate::cards::card_shift(c) as u64;
    assert(0 <= crate::cards::card_shift(c) < 64);
    assert(!(sh < 64 && (1u64 << sh) & m1 != 0 && (1u64 << sh) & m2 != 0 && m1 & m2 == 0))
        by (bit_vector);
}

/// The (rank, suit) pair of a card in the outside evaluator's numbering:
/// its suits are spade, club, heart, diamond in that order.
pub open spec fn eval_pair_of(c: int) -> (u8, u8) {
    (card_rank(c) as u8, eval_suit_of(card_suit(c)) as u8)
}

/// This library's suit index translated to the outside evaluator's.
pub open spec fn eval_suit_of(s: int) -> int {
    if s == 0 {
        0
    } else if s == 1 {
        2
    } else if s == 2 {
        1
    } else {
        3
    }
}

/// The evaluator-facing pairs of a list of cards.
pub open spec fn eval_pairs_of(cards: Seq<usize>) -> Seq<(u8, u8)> {
    cards.map_values(|c: usize| eval_pair_of(c as int))
}

/// Distinct cards map to distinct evaluator pairs.
pub proof fn lemma_eval_pairs_distinct(cards: Seq<usize>)
    requires
        all_valid(cards),
        distinct_seq(cards),
    ensures
        forall|k1: int, k2: int|
            0 <= k1 < k2 < eval_pairs_of(cards).len() ==> eval_pairs_of(cards)[k1]
                != eval_pairs_of(cards)[k2],
{
    assert forall|k1: int, k2: int|
        0 <= k1 < k2 < eval_pairs_of(cards).len() implies eval_pairs_of(cards)[k1]
        != eval_pairs_of(cards)[k2] by {
        let a = cards[k1] as int;
        let b = cards[k2] as int;
        assert(a == card_rank(a) * 4 + card_suit(a));
        assert(b == card_rank(b) * 4 + card_suit(b));
    }
}

/// The strength of a list of cards as the outside evaluator sees it.
pub open spec fn cards_strength(cards: Seq<usize>) -> u16 {
    strength_of(eval_pairs_of(cards))
}

/// Converts cards to the evaluator's (rank, suit) pairs.
pub fn to_eval_pairs(cards: &Vec<usize>) -> (pairs: Vec<(u8, u8)>)
    requires
        all_valid(cards@),
    ensures
        pairs@ == eval_pairs_of(cards@),
        forall|k: int| 0 <= k < pairs@.len() ==> (#[trigger] pairs@[k]).0 < 13 && pairs@[k].1 < 4,
{
    let mut pairs: Vec<(u8, u8)> = Vec::new();
    let mut k: usize = 0;
    while k < cards.len()
        invariant
            k <= cards@.len(),
            all_valid(cards@),
            pairs@ == eval_pairs_of(cards@.subrange(0, k as int)),
            forall|j: int| 0 <= j < pairs@.len() ==> (#[trigger] pairs@[j]).0 < 13 && pairs@[j].1 < 4,
        decreases cards@.len() - k,
    {
        let c = cards[k];
        let rank = (c / 4) as u8;
        let s = c % 4;
        let suit: u8 = if s == 0 {
            0
        } else if s == 1 {
            2
        } else if s == 2 {
            1
        } else {
            3
        };
        pairs.push((rank, suit));
        proof {
            assert(pairs@ =~= eval_pairs_of(cards@.subrange(0, k + 1 as int)));
        }
        k += 1;
    }
    proof {
        assert(cards@.subrange(0, cards@.len() as int) =~= cards@);
    }
    pairs
}

} // verus!
