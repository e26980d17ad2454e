use holdem_equity::evaluator::{calculate_rating_valid, CalculateRating, Evaluator,
    ERROR_INVALID};
use holdem_equity::model::{CalculateRatingReq, CalculateRatingRsp, UserCards};

fn player(uid: &str, c0: &str, c1: &str) -> UserCards {
    UserCards {
        hands: [c0.to_string(), c1.to_string()],
        uid: uid.to_string(),
    }
}

fn strings(v: &[&str]) -> Vec<String> {
    v.iter().map(|s| s.to_string()).collect()
}

#[test]
fn test_calculate_rating() {
    let mut req = CalculateRatingReq {
        clients: vec![],
        deal_cards: vec![],
        dead_cards: vec![],
    };
    req.clients.push(player("1", "As", "Ks"));
    req.clients.push(player("2", "2s", "Ts"));
    let evaluator = Evaluator {};
    let rsp: CalculateRatingRsp = evaluator.calculate_rating(req);
    assert_eq!(rsp.code, 0);
    assert_eq!(rsp.clients_rate.len(), 2);
    assert_eq!(rsp.clients_rate[0].uid, "1");
    assert_eq!(rsp.clients_rate[1].uid, "2");
    // Two suited high cards dominate a weak two-gap hand; with 11000 sampled
    // boards the favorite cannot plausibly come out behind.
    assert!(rsp.clients_rate[0].rate > rsp.clients_rate[1].rate);
    // With two players every tied board is two-way, so the mass is conserved
    // up to per-player rounding.
    let sum: u64 = rsp.clients_rate.iter().map(|r| r.rate).sum();
    assert!(sum <= 10000);
    assert!(sum > 10000 - 2);
}

#[test]
fn test_calculate_rating2() {
    let mut req = CalculateRatingReq {
        clients: vec![],
        deal_cards: vec![],
        dead_cards: vec![],
    };
    req.clients.push(player("1", "3c", "8c"));
    req.clients.push(player("2", "Td", "8d"));
    req.clients.push(player("3", "Qc", "5h"));
    req.deal_cards.push("6h".to_string());
    req.deal_cards.push("9s".to_string());
    req.deal_cards.push("7c".to_string());
    let evaluator = Evaluator {};
    let rsp: CalculateRatingRsp = evaluator.calculate_rating(req);
    assert_eq!(rsp.code, 0);
    assert_eq!(rsp.clients_rate.len(), 3);
    // Player 2 holds the made ten-high straight on this flop and dominates.
    // Player 1 can tie by catching a ten and win only with running clubs;
    // player 3 cannot pass a straight at all.
    let r1 = rsp.clients_rate[0].rate;
    let r2 = rsp.clients_rate[1].rate;
    let r3 = rsp.clients_rate[2].rate;
    assert!(r2 > r1 && r1 > r3);
    assert!(r2 > 8000);
    assert!(r1 > 200 && r1 < 3000);
    assert!(r3 < 200);
}

#[test]
fn exhaustive_rates_are_idempotent() {
    // Two more cards to come: the exhaustive regime, a pure function of the
    // request, must give bit-identical rates on every call.
    let make = || CalculateRatingReq {
        clients: vec![player("a", "As", "Ks"), player("b", "2s", "Ts")],
        deal_cards: strings(&["6h", "9s", "7c"]),
        dead_cards: vec![],
    };
    let evaluator = Evaluator {};
    let rsp1 = evaluator.calculate_rating(make());
    let rsp2 = evaluator.calculate_rating(make());
    assert_eq!(rsp1.code, 0);
    assert_eq!(rsp2.code, 0);
    assert_eq!(rsp1.clients_rate.len(), rsp2.clients_rate.len());
    for (a, b) in rsp1.clients_rate.iter().zip(rsp2.clients_rate.iter()) {
        assert_eq!(a.uid, b.uid);
        assert_eq!(a.rate, b.rate);
    }
    // Two players: every tie is two-way, so the rates carry the whole
    // probability mass up to rounding.
    let sum: u64 = rsp1.clients_rate.iter().map(|r| r.rate).sum();
    assert!(sum <= 10000);
    assert!(sum > 10000 - 2);
}

#[test]
fn complete_board_decides_exactly() {
    // No card to come: the single showdown decides everything, and the
    // winner takes the full scale.
    let req = CalculateRatingReq {
        clients: vec![player("royal", "As", "Ks"), player("pair", "2d", "2c")],
        deal_cards: strings(&["Qs", "Js", "Ts", "3h", "7d"]),
        dead_cards: vec![],
    };
    let evaluator = Evaluator {};
    let rsp = evaluator.calculate_rating(req);
    assert_eq!(rsp.code, 0);
    assert_eq!(rsp.clients_rate[0].rate, 10000);
    assert_eq!(rsp.clients_rate[1].rate, 0);
}

#[test]
fn complete_board_tie_splits_mass() {
    // Both players play the board's broadway straight: a two-way tie on the
    // single board gives each half the scale.
    let req = CalculateRatingReq {
        clients: vec![player("x", "2d", "3c"), player("y", "2h", "3s")],
        deal_cards: strings(&["As", "Kd", "Qs", "Jh", "Tc"]),
        dead_cards: vec![],
    };
    let evaluator = Evaluator {};
    let rsp = evaluator.calculate_rating(req);
    assert_eq!(rsp.code, 0);
    assert_eq!(rsp.clients_rate[0].rate, 5000);
    assert_eq!(rsp.clients_rate[1].rate, 5000);
}

#[test]
fn many_way_tie_counts_half_weight_each() {
    // Three players all play the board's straight. Each tied player takes
    // half weight while the board counts once in the denominator, so the
    // rates deliberately sum past the scale.
    let req = CalculateRatingReq {
        clients: vec![
            player("x", "2d", "3c"),
            player("y", "2h", "3s"),
            player("z", "2s", "3d"),
        ],
        deal_cards: strings(&["As", "Kd", "Qs", "Jh", "Tc"]),
        dead_cards: vec![],
    };
    let evaluator = Evaluator {};
    let rsp = evaluator.calculate_rating(req);
    assert_eq!(rsp.code, 0);
    for r in &rsp.clients_rate {
        assert_eq!(r.rate, 5000);
    }
}

#[test]
fn weaker_hand_never_rates_higher() {
    // The same fixed board and opponent; the subject's hole cards are
    // strictly worse in the second request, so the rate must not rise.
    let board = strings(&["2h", "3h", "4c", "5s", "9d"]);
    let evaluator = Evaluator {};
    let strong = CalculateRatingReq {
        clients: vec![player("a", "Ad", "Kd"), player("b", "Qd", "Jd")],
        deal_cards: board.clone(),
        dead_cards: vec![],
    };
    let weak = CalculateRatingReq {
        clients: vec![player("a", "Jc", "Th"), player("b", "Qd", "Jd")],
        deal_cards: board,
        dead_cards: vec![],
    };
    let strong_rate = evaluator.calculate_rating(strong).clients_rate[0].rate;
    let weak_rate = evaluator.calculate_rating(weak).clients_rate[0].rate;
    assert!(weak_rate <= strong_rate);
    assert_eq!(strong_rate, 10000);
    assert_eq!(weak_rate, 0);
}

#[test]
fn duplicate_card_rejected() {
    let req = CalculateRatingReq {
        clients: vec![player("a", "As", "Ks"), player("b", "As", "Ts")],
        deal_cards: vec![],
        dead_cards: vec![],
    };
    let evaluator = Evaluator {};
    let rsp = evaluator.calculate_rating(req);
    assert_eq!(rsp.code, ERROR_INVALID);
    assert!(rsp.clients_rate.is_empty());
    assert!(!rsp.msg.is_empty());
}

#[test]
fn duplicate_between_board_and_dead_rejected() {
    let req = CalculateRatingReq {
        clients: vec![player("a", "As", "Ks"), player("b", "2s", "Ts")],
        deal_cards: strings(&["6h", "9s", "7c"]),
        dead_cards: strings(&["9s"]),
    };
    let evaluator = Evaluator {};
    let rsp = evaluator.calculate_rating(req);
    assert_eq!(rsp.code, ERROR_INVALID);
    assert!(rsp.clients_rate.is_empty());
}

#[test]
fn blank_card_rejected() {
    let req = CalculateRatingReq {
        clients: vec![player("a", "As", ""), player("b", "2s", "Ts")],
        deal_cards: vec![],
        dead_cards: vec![],
    };
    let evaluator = Evaluator {};
    let rsp = evaluator.calculate_rating(req);
    assert_eq!(rsp.code, ERROR_INVALID);
    assert!(rsp.clients_rate.is_empty());
}

#[test]
fn lone_player_rejected() {
    let req = CalculateRatingReq {
        clients: vec![player("a", "As", "Ks")],
        deal_cards: vec![],
        dead_cards: vec![],
    };
    let evaluator = Evaluator {};
    let rsp = evaluator.calculate_rating(req);
    assert_eq!(rsp.code, ERROR_INVALID);
    assert!(rsp.clients_rate.is_empty());
}

#[test]
fn validation_parses_players() {
    let req = CalculateRatingReq {
        clients: vec![player("a", "As", "Ks"), player("b", "2s", "Ts")],
        deal_cards: strings(&["6h", "9s", "7c"]),
        dead_cards: vec![],
    };
    let (ok, user_cards) = calculate_rating_valid(&req);
    assert!(ok);
    assert_eq!(user_cards.len(), 2);
    assert_eq!(user_cards[0].uid, "a");
    assert_eq!(user_cards[1].uid, "b");
    assert_eq!(user_cards[0].hands.len(), 2);
}

#[test]
fn dead_cards_shrink_the_deck() {
    // A dead card can no longer fall: with every ace and king dead, the
    // overcard hand loses its main outs and its equity drops.
    let evaluator = Evaluator {};
    let base = CalculateRatingReq {
        clients: vec![player("a", "Ad", "Kd"), player("b", "2c", "2h")],
        deal_cards: strings(&["7s", "8h", "Qc", "3d"]),
        dead_cards: vec![],
    };
    let starved = CalculateRatingReq {
        clients: vec![player("a", "Ad", "Kd"), player("b", "2c", "2h")],
        deal_cards: strings(&["7s", "8h", "Qc", "3d"]),
        dead_cards: strings(&["As", "Ah", "Ac", "Ks", "Kh", "Kc"]),
    };
    let with_outs = evaluator.calculate_rating(base).clients_rate[0].rate;
    let without_outs = evaluator.calculate_rating(starved).clients_rate[0].rate;
    assert!(without_outs < with_outs);
    assert_eq!(without_outs, 0);
}
