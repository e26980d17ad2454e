use holdem_equity::cards::{card_code, compute_alive_cards, mask_of_card, parse_card,
    NUMBER_OF_CARDS, NUMBER_OF_RANKS};
use holdem_equity::hand::Hand;

#[test]
fn deck_dimensions() {
    assert_eq!(NUMBER_OF_RANKS, 13);
    assert_eq!(NUMBER_OF_CARDS, 52);
}

#[test]
fn parse_card_known_codes() {
    assert_eq!(parse_card("2s"), Some(0));
    assert_eq!(parse_card("2h"), Some(1));
    assert_eq!(parse_card("2c"), Some(2));
    assert_eq!(parse_card("2d"), Some(3));
    assert_eq!(parse_card("Ts"), Some(32));
    assert_eq!(parse_card("As"), Some(48));
    assert_eq!(parse_card("Ad"), Some(51));
}

#[test]
fn parse_card_rejects_garbage() {
    assert_eq!(parse_card(""), None);
    assert_eq!(parse_card("A"), None);
    assert_eq!(parse_card("Asx"), None);
    assert_eq!(parse_card("Zz"), None);
    assert_eq!(parse_card("aS"), None);
    assert_eq!(parse_card("1s"), None);
    assert_eq!(parse_card("As "), None);
}

#[test]
fn card_codes_round_trip() {
    for i in 0..52usize {
        let code = card_code(i);
        assert_eq!(code.len(), 2);
        assert_eq!(parse_card(code.as_str()), Some(i));
    }
}

#[test]
fn card_masks_are_disjoint_bits() {
    let mut seen: u64 = 0;
    for i in 0..52usize {
        let m = mask_of_card(i);
        assert_eq!(m.count_ones(), 1);
        assert_eq!(seen & m, 0);
        seen |= m;
    }
    assert_eq!(mask_of_card(0), 1u64 << 48);
    assert_eq!(mask_of_card(2), 1u64);
}

#[test]
fn alive_cards_exclude_used_bits() {
    let all = compute_alive_cards(0);
    assert_eq!(all.len(), 52);
    for (i, c) in all.iter().enumerate() {
        assert_eq!(*c, i);
    }
    let without_two_of_spades = compute_alive_cards(mask_of_card(0));
    assert_eq!(without_two_of_spades.len(), 51);
    assert!(!without_two_of_spades.contains(&0));
}

#[test]
fn hand_accumulates_cards() {
    let h = Hand::new();
    assert_eq!(h.len(), 0);
    assert_eq!(h.get_mask(), 0);
    let h = h.add_card(parse_card("As").unwrap());
    let h = h.add_card(parse_card("Ks").unwrap());
    assert_eq!(h.len(), 2);
    assert!(h.contains(parse_card("As").unwrap()));
    assert!(!h.contains(parse_card("Qs").unwrap()));
    let board = Hand::new().add_card(parse_card("2c").unwrap());
    let joined = h.union(&board);
    assert_eq!(joined.len(), 3);
    assert_eq!(joined.get_mask(), h.get_mask() | board.get_mask());
    // Each union produces a new value; the operands are unchanged.
    assert_eq!(h.len(), 2);
    assert_eq!(board.len(), 1);
}

#[test]
fn evaluate_orders_hands_by_strength() {
    let cards = |codes: &[&str]| {
        let mut h = Hand::new();
        for c in codes {
            h = h.add_card(parse_card(c).unwrap());
        }
        h
    };
    let royal = cards(&["As", "Ks", "Qs", "Js", "Ts", "3h", "7d"]);
    let quads = cards(&["9s", "9h", "9c", "9d", "Ts", "3h", "7d"]);
    let pair = cards(&["As", "Ah", "Qc", "Js", "9d", "3h", "7d"]);
    let high = cards(&["As", "Kh", "Qc", "Js", "9d", "3h", "7d"]);
    let royal_s = royal.evaluate();
    let quads_s = quads.evaluate();
    let pair_s = pair.evaluate();
    let high_s = high.evaluate();
    assert!(royal_s > quads_s);
    assert!(quads_s > pair_s);
    assert!(pair_s > high_s);
    // Equal strength means exactly equal hands: the same straight in two
    // suit layouts evaluates to the same rank.
    let straight_a = cards(&["8c", "9c", "6h", "7d", "5s", "2c", "2d"]);
    let straight_b = cards(&["8d", "9h", "6s", "7c", "5h", "2c", "2d"]);
    assert_eq!(straight_a.evaluate(), straight_b.evaluate());
}
