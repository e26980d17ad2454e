//! Card representation: each of the 52 cards is a small integer index with a
//! disjoint 64-bit mask, so that "do these hands share a card" is one bitwise
//! AND. Index `i` encodes rank `i / 4` (deuce first, ace last) and suit
//! `i % 4` (spade, heart, club, diamond). The external text form of a card is
//! a two-character code: a rank character (`2`-`9`, `T`, `J`, `Q`, `K`, `A`)
//! followed by a suit character (`s`, `h`, `c`, `d`), case-sensitive.

use vstd::prelude::*;

verus! {

/// Number of card ranks (deuce through ace).
pub const NUMBER_OF_RANKS: usize = 13;

/// Number of cards in the deck.
pub const NUMBER_OF_CARDS: usize = 52;

/// A card index denotes one of the 52 cards.
pub open spec fn valid_card(i: int) -> bool {
    0 <= i < 52
}

/// Rank of a card index: 0 is the deuce, 12 the ace.
pub open spec fn card_rank(i: int) -> int {
    i / 4
}

/// Suit of a card index: 0 spade, 1 heart, 2 club, 3 diamond.
pub open spec fn card_suit(i: int) -> int {
    i % 4
}

/// Each suit owns one 16-bit lane of the card mask word.
pub open spec fn suit_offset(s: int) -> int {
    if s == 0 {
        3
    } else if s == 1 {
        2
    } else if s == 2 {
        0
    } else {
        1
    }
}

/// Bit position of a card's mask bit: the rank selects the bit inside the
/// 16-bit lane that the suit owns.
pub open spec fn card_shift(i: int) -> int {
    card_rank(i) + 16 * suit_offset(card_suit(i))
}

/// The disjoint one-bit mask of a card.
pub open spec fn card_mask(i: int) -> u64 {
    1u64 << (card_shift(i) as u64)
}

/// Bit positions of distinct cards differ.
pub proof fn lemma_card_shift_injective(i: int, j: int)
    requires
        valid_card(i),
        valid_card(j),
        i != j,
    ensures
        card_shift(i) != card_shift(j),
{
    assert(card_rank(i) < 16 && card_rank(j) < 16);
    assert(i == card_rank(i) * 4 + card_suit(i));
    assert(j == card_rank(j) * 4 + card_suit(j));
}

/// Masks of distinct cards share no bit.
pub proof fn lemma_card_masks_disjoint(i: int, j: int)
    requires
        valid_card(i),
        valid_card(j),
        i != j,
    ensures
        card_mask(i) & card_mask(j) == 0,
{
    lemma_card_shift_injective(i, j);
    let a = card_shift(i) as u64;
    let b = card_shift(j) as u64;
    assert(0 <= card_shift(i) < 64);
    assert(0 <= card_shift(j) < 64);
    assert(a < 64 && b < 64 && a != b ==> (1u64 << a) & (1u64 << b) == 0) by (bit_vector);
}

/// A card's mask bit is never zero.
pub proof fn lemma_card_mask_nonzero(i: int)
    requires
        valid_card(i),
    ensures
        card_mask(i) != 0,
{
    let a = card_shift(i) as u64;
    assert(0 <= card_shift(i) < 64);
    assert(a < 64 ==> (1u64 << a) != 0) by (bit_vector);
}

/// Computes the mask bit of one card.
pub fn mask_of_card(i: usize) -> (m: u64)
    requires
        valid_card(i as int),
    ensures
        m == card_mask(i as int),
{
    let rank: usize = i / 4;
    let suit: usize = i % 4;
    let off: usize = if suit == 0 {
        3
    } else if suit == 1 {
        2
    } else if suit == 2 {
        0
    } else {
        1
    };
    let shift: usize = rank + 16 * off;
    assert(shift < 64);
    1u64 << (shift as u64)
}

/// The cards below `n` whose mask bit is clear in `mask`, ascending.
pub open spec fn alive_upto(mask: u64, n: int) -> Seq<usize>
    decreases n,
{
    if n <= 0 {
        Seq::empty()
    } else {
        let prefix = alive_upto(mask, n - 1);
        if card_mask(n - 1) & mask == 0 {
            prefix.push((n - 1) as usize)
        } else {
            prefix
        }
    }
}

/// The full list of cards whose mask bit is clear in `mask`: the remaining
/// (undrawn) cards, ascending by card index.
pub open spec fn alive_cards(mask: u64) -> Seq<usize> {
    alive_upto(mask, 52)
}

/// Shape of `alive_upto`: every entry is a card below `n` whose mask bit is
/// clear, the entries ascend, and every such card appears.
pub proof fn lemma_alive_upto_props(mask: u64, n: int)
    requires
        0 <= n <= 52,
    ensures
        forall|k: int|
            0 <= k < alive_upto(mask, n).len() ==> valid_card(
                #[trigger] alive_upto(mask, n)[k] as int,
            ) && alive_upto(mask, n)[k] < n && card_mask(alive_upto(mask, n)[k] as int) & mask == 0,
        forall|k1: int, k2: int|
            0 <= k1 < k2 < alive_upto(mask, n).len() ==> alive_upto(mask, n)[k1] < alive_upto(
                mask,
                n,
            )[k2],
        forall|c: int|
            0 <= c < n && card_mask(c) & mask == 0 ==> alive_upto(mask, n).contains(c as usize),
    decreases n,
{
    if n > 0 {
        lemma_alive_upto_props(mask, n - 1);
        let prefix = alive_upto(mask, n - 1);
        let s = alive_upto(mask, n);
        if card_mask(n - 1) & mask == 0 {
            assert(s[s.len() - 1] == (n - 1) as usize);
            assert forall|c: int|
                0 <= c < n && card_mask(c) & mask == 0 implies s.contains(c as usize) by {
                if c < n - 1 {
                    let k = choose|k: int| 0 <= k < prefix.len() && prefix[k] == c as usize;
                    assert(s[k] == c as usize);
                } else {
                    assert(s[s.len() - 1] == c as usize);
                }
            }
        } else {
            assert forall|c: int|
                0 <= c < n && card_mask(c) & mask == 0 implies s.contains(c as usize) by {
                let k = choose|k: int| 0 <= k < prefix.len() && prefix[k] == c as usize;
                assert(s[k] == c as usize);
            }
        }
    }
}

/// There are never more alive cards than cards.
pub proof fn lemma_alive_upto_len(mask: u64, n: int)
    requires
        0 <= n,
    ensures
        alive_upto(mask, n).len() <= n,
    decreases n,
{
    if n > 0 {
        lemma_alive_upto_len(mask, n - 1);
    }
}

/// The ordered list of card indices whose mask bit is clear in `mask`.
pub fn compute_alive_cards(mask: u64) -> (alive: Vec<usize>)
    ensures
        alive@ == alive_cards(mask),
{
    let mut alive: Vec<usize> = Vec::new();
    let mut i: usize = 0;
    while i < NUMBER_OF_CARDS
        invariant
            i <= 52,
            alive@ == alive_upto(mask, i as int),
        decreases 52 - i,
    {
        let m = mask_of_card(i);
        if m & mask == 0 {
            alive.push(i);
        }
        i += 1;
    }
    alive
}

/// Rank index of a rank character; -1 when the character is no rank.
pub open spec fn rank_of_char(c: char) -> int {
    if c == '2' {
        0
    } else if c == '3' {
        1
    } else if c == '4' {
        2
    } else if c == '5' {
        3
    } else if c == '6' {
        4
    } else if c == '7' {
        5
    } else if c == '8' {
        6
    } else if c == '9' {
        7
    } else if c == 'T' {
        8
    } else if c == 'J' {
        9
    } else if c == 'Q' {
        10
    } else if c == 'K' {
        11
    } else if c == 'A' {
        12
    } else {
        -1
    }
}

/// Suit index of a suit character; -1 when the character is no suit.
pub open spec fn suit_of_char(c: char) -> int {
    if c == 's' {
        0
    } else if c == 'h' {
        1
    } else if c == 'c' {
        2
    } else if c == 'd' {
        3
    } else {
        -1
    }
}

/// Card index of a two-character code; -1 when the code is unrecognized.
pub open spec fn parse_card_spec(s: Seq<char>) -> int {
    if s.len() == 2 && rank_of_char(s[0]) >= 0 && suit_of_char(s[1]) >= 0 {
        rank_of_char(s[0]) * 4 + suit_of_char(s[1])
    } else {
        -1
    }
}

/// A recognized code denotes a card.
pub proof fn lemma_parse_card_valid(s: Seq<char>)
    requires
        parse_card_spec(s) >= 0,
    ensures
        valid_card(parse_card_spec(s)),
{
}

/// Distinct recognized codes denote distinct cards.
pub proof fn lemma_parse_card_injective(s1: Seq<char>, s2: Seq<char>)
    requires
        parse_card_spec(s1) >= 0,
        parse_card_spec(s2) >= 0,
        parse_card_spec(s1) == parse_card_spec(s2),
    ensures
        s1 =~= s2,
{
    let r1 = rank_of_char(s1[0]);
    let q1 = suit_of_char(s1[1]);
    let r2 = rank_of_char(s2[0]);
    let q2 = suit_of_char(s2[1]);
    assert(r1 * 4 + q1 == r2 * 4 + q2);
    assert(0 <= q1 < 4 && 0 <= q2 < 4);
    assert(r1 == r2 && q1 == q2);
    assert(s1[0] == s2[0]);
    assert(s1[1] == s2[1]);
}

/// Parses a two-character card code into a card index.
pub fn parse_card(code: &str) -> (r: Option<usize>)
    ensures
        parse_card_spec(code@) >= 0 ==> r == Some(parse_card_spec(code@) as usize),
        parse_card_spec(code@) < 0 ==> r is None,
{
    if code.unicode_len() != 2 {
        return None;
    }
    let c0 = code.get_char(0);
    let c1 = code.get_char(1);
    let rank: usize = if c0 == '2' {
        0
    } else if c0 == '3' {
        1
    } else if c0 == '4' {
        2
    } else if c0 == '5' {
        3
    } else if c0 == '6' {
        4
    } else if c0 == '7' {
        5
    } else if c0 == '8' {
        6
    } else if c0 == '9' {
        7
    } else if c0 == 'T' {
        8
    } else if c0 == 'J' {
        9
    } else if c0 == 'Q' {
        10
    } else if c0 == 'K' {
        11
    } else if c0 == 'A' {
        12
    } else {
        return None;
    };
    let suit: usize = if c1 == 's' {
        0
    } else if c1 == 'h' {
        1
    } else if c1 == 'c' {
        2
    } else if c1 == 'd' {
        3
    } else {
        return None;
    };
    Some(rank * 4 + suit)
}

/// Rank character of a rank index.
pub open spec fn rank_char_of(r: int) -> char {
    if r == 0 {
        '2'
    } else if r == 1 {
        '3'
    } else if r == 2 {
        '4'
    } else if r == 3 {
        '5'
    } else if r == 4 {
        '6'
    } else if r == 5 {
        '7'
    } else if r == 6 {
        '8'
    } else if r == 7 {
        '9'
    } else if r == 8 {
        'T'
    } else if r == 9 {
        'J'
    } else if r == 10 {
        'Q'
    } else if r == 11 {
        'K'
    } else {
        'A'
    }
}

/// Suit character of a suit index.
pub open spec fn suit_char_of(s: int) -> char {
    if s == 0 {
        's'
    } else if s == 1 {
        'h'
    } else if s == 2 {
        'c'
    } else {
        'd'
    }
}

/// The two-character code of a card index.
pub open spec fn card_code_spec(i: int) -> Seq<char> {
    seq![rank_char_of(card_rank(i)), suit_char_of(card_suit(i))]
}

/// Parsing a card's code gives the card back.
pub proof fn lemma_card_code_round_trip(i: int)
    requires
        valid_card(i),
    ensures
        parse_card_spec(card_code_spec(i)) == i,
{
    assert(i == card_rank(i) * 4 + card_suit(i));
}

/// Renders a card index as its two-character code.
pub fn card_code(i: usize) -> (s: String)
    requires
        valid_card(i as int),
    ensures
        s@ == card_code_spec(i as int),
{
    let rank: usize = i / 4;
    let suit: usize = i % 4;
    let rank_str: &str = if rank == 0 {
        "2"
    } else if rank == 1 {
        "3"
    } else if rank == 2 {
        "4"
    } else if rank == 3 {
        "5"
    } else if rank == 4 {
        "6"
    } else if rank == 5 {
        "7"
    } else if rank == 6 {
        "8"
    } else if rank == 7 {
        "9"
    } else if rank == 8 {
        "T"
    } else if rank == 9 {
        "J"
    } else if rank == 10 {
        "Q"
    } else if rank == 11 {
        "K"
    } else {
        "A"
    };
    let suit_str: &str = if suit == 0 {
        "s"
    } else if suit == 1 {
        "h"
    } else if suit == 2 {
        "c"
    } else {
        "d"
    };
    proof {
        reveal_strlit("2");
        reveal_strlit("3");
        reveal_strlit("4");
        reveal_strlit("5");
        reveal_strlit("6");
        reveal_strlit("7");
        reveal_strlit("8");
        reveal_strlit("9");
        reveal_strlit("T");
        reveal_strlit("J");
        reveal_strlit("Q");
        reveal_strlit("K");
        reveal_strlit("A");
        reveal_strlit("s");
        reveal_strlit("h");
        reveal_strlit("c");
        reveal_strlit("d");
        assert(rank_str@ =~= seq![rank_char_of(rank as int)]);
        assert(suit_str@ =~= seq![suit_char_of(suit as int)]);
    }
    let code = String::from_str(rank_str).concat(suit_str);
    proof {
        assert(code@ =~= card_code_spec(i as int));
    }
    code
}

} // verus!
