use holdem_equity::evaluator::{CalculateRating, Evaluator, ERROR_INVALID};
use holdem_equity::model::{CalculateOutsReq, UserCards};

fn player(uid: &str, c0: &str, c1: &str) -> UserCards {
    UserCards {
        hands: [c0.to_string(), c1.to_string()],
        uid: uid.to_string(),
    }
}

fn strings(v: &[&str]) -> Vec<String> {
    v.iter().map(|s| s.to_string()).collect()
}

#[test]
fn outs_exact_for_straight_draw() {
    // A draws to the only hand that beats the aces: exactly the eight cards
    // completing the nine-high or ten-high straight, in card-index order.
    let req = CalculateOutsReq {
        clients: vec![
            player("a", "8c", "9c"),
            player("b", "As", "Ad"),
            player("c", "Kh", "Qd"),
        ],
        deal_cards: strings(&["6h", "7d", "2s"]),
        dead_cards: vec![],
    };
    let evaluator = Evaluator {};
    let rsp = evaluator.calculate_outs(req);
    assert_eq!(rsp.code, 0);
    assert_eq!(rsp.outs.len(), 3);
    assert_eq!(rsp.outs[0].uid, "a");
    assert_eq!(rsp.outs[1].uid, "b");
    assert_eq!(rsp.outs[2].uid, "c");
    let expected = strings(&["5s", "5h", "5c", "5d", "Ts", "Th", "Tc", "Td"]);
    assert_eq!(rsp.outs[0].cards, expected);
    // Every other card keeps the aces in front; the king-queen hand can
    // never pass them on one card.
    assert_eq!(rsp.outs[1].cards.len(), 43 - 8);
    assert_eq!(rsp.outs[2].cards.len(), 0);
}

#[test]
fn outs_avoid_used_cards_and_never_repeat() {
    let used = [
        "3c", "8c", "Td", "8d", "Qc", "5h", "6h", "9s", "7c", "2d",
    ];
    let req = CalculateOutsReq {
        clients: vec![
            player("1", "3c", "8c"),
            player("2", "Td", "8d"),
            player("3", "Qc", "5h"),
        ],
        deal_cards: strings(&["6h", "9s", "7c"]),
        dead_cards: strings(&["2d"]),
    };
    let evaluator = Evaluator {};
    let rsp = evaluator.calculate_outs(req);
    assert_eq!(rsp.code, 0);
    for out in &rsp.outs {
        // Only cards not already used anywhere in the request may be outs.
        for card in &out.cards {
            assert!(!used.contains(&card.as_str()));
        }
        // No card appears in both the win list and the tie list of one
        // player, so the concatenation holds no repeats.
        for i in 0..out.cards.len() {
            for j in (i + 1)..out.cards.len() {
                assert_ne!(out.cards[i], out.cards[j]);
            }
        }
    }
}

#[test]
fn outs_on_complete_board_are_empty() {
    // Five dealt cards: there is no next card to probe, so every player's
    // out-list is empty.
    let req = CalculateOutsReq {
        clients: vec![player("a", "As", "Ks"), player("b", "2s", "Ts")],
        deal_cards: strings(&["6h", "9s", "7c", "Jd", "3d"]),
        dead_cards: vec![],
    };
    let evaluator = Evaluator {};
    let rsp = evaluator.calculate_outs(req);
    assert_eq!(rsp.code, 0);
    assert_eq!(rsp.outs.len(), 2);
    for out in &rsp.outs {
        assert!(out.cards.is_empty());
    }
}

#[test]
fn outs_need_a_flop() {
    let req = CalculateOutsReq {
        clients: vec![player("a", "As", "Ks"), player("b", "2s", "Ts")],
        deal_cards: strings(&["6h", "9s"]),
        dead_cards: vec![],
    };
    let evaluator = Evaluator {};
    let rsp = evaluator.calculate_outs(req);
    assert_eq!(rsp.code, ERROR_INVALID);
    assert!(rsp.outs.is_empty());
}

#[test]
fn outs_reject_duplicates() {
    let req = CalculateOutsReq {
        clients: vec![player("a", "As", "Ks"), player("b", "As", "Ts")],
        deal_cards: strings(&["6h", "9s", "7c"]),
        dead_cards: vec![],
    };
    let evaluator = Evaluator {};
    let rsp = evaluator.calculate_outs(req);
    assert_eq!(rsp.code, ERROR_INVALID);
    assert!(rsp.outs.is_empty());
}

#[test]
fn outs_are_deterministic() {
    let make = || CalculateOutsReq {
        clients: vec![player("a", "8c", "9c"), player("b", "As", "Ad")],
        deal_cards: strings(&["6h", "7d", "2s", "Jh"]),
        dead_cards: vec![],
    };
    let evaluator = Evaluator {};
    let rsp1 = evaluator.calculate_outs(make());
    let rsp2 = evaluator.calculate_outs(make());
    assert_eq!(rsp1.code, 0);
    assert_eq!(rsp1.outs.len(), rsp2.outs.len());
    for (a, b) in rsp1.outs.iter().zip(rsp2.outs.iter()) {
        assert_eq!(a.uid, b.uid);
        assert_eq!(a.cards, b.cards);
    }
}

#[test]
fn into_rating_req_keeps_fields() {
    let req = CalculateOutsReq {
        clients: vec![player("a", "8c", "9c"), player("b", "As", "Ad")],
        deal_cards: strings(&["6h", "7d", "2s"]),
        dead_cards: strings(&["Kd"]),
    };
    let rating = req.into_rating_req();
    assert_eq!(rating.clients.len(), 2);
    assert_eq!(rating.clients[0].uid, "a");
    assert_eq!(rating.clients[1].hands[0], "As");
    assert_eq!(rating.deal_cards, strings(&["6h", "7d", "2s"]));
    assert_eq!(rating.dead_cards, strings(&["Kd"]));
}
