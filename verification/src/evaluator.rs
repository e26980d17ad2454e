//! The equity/outs engine: request validation, board and alive-card
//! resolution, board enumeration (exhaustive for small completion gaps,
//! random sampling for large ones), showdown and rate aggregation.

use vstd::prelude::*;

use crate::cards::{alive_cards, card_code_spec, card_mask, lemma_parse_card_injective,
    parse_card, parse_card_spec, valid_card};
use crate::enumerate::{
    agg_board, agg_list, agg_pairs, agg_pairs_inner, agg_singles, exhaustive_tally,
    lemma_sum_seq_nonneg, lemma_sum_seq_prefix, pairs_from, rate_of, sum_seq, total_of,
};
use crate::hand::{all_valid, distinct_seq, lemma_mask_of_seq_add, mask_of_seq, Hand};
use crate::model::{outs_req_model, rating_req_model, CalculateOutsReq, CalculateOutsRsp,
    CalculateRatingReq, CalculateRatingRsp, CardsInfo, ClientRate, Outs, ReqModel, UserCards};
use crate::outs::{outs_draws_upto, outs_wins_upto};
use crate::showdown::{tally_of, Tally};

verus! {

/// The response code of a rejected request.
pub const ERROR_INVALID: u32 = 1;

/// The parsed card indices of a request's codes, in `all_codes` order:
/// players' hole cards, then the dealt board, then the dead cards.
pub open spec fn parsed_codes(m: ReqModel) -> Seq<usize> {
    m.all_codes().map_values(|c: Seq<char>| parse_card_spec(c) as usize)
}

/// Both hole cards of one player, parsed.
pub open spec fn hole_cards_of(m: ReqModel, i: int) -> Seq<usize> {
    seq![
        parse_card_spec(m.players[i].hole0) as usize,
        parse_card_spec(m.players[i].hole1) as usize,
    ]
}

/// Every player's hole cards, parsed.
pub open spec fn holes_of(m: ReqModel) -> Seq<Seq<usize>> {
    Seq::new(m.players.len(), |i: int| hole_cards_of(m, i))
}

/// The dealt board, parsed.
pub open spec fn board_of(m: ReqModel) -> Seq<usize> {
    m.deal.map_values(|c: Seq<char>| parse_card_spec(c) as usize)
}

/// The dead cards, parsed.
pub open spec fn dead_of(m: ReqModel) -> Seq<usize> {
    m.dead.map_values(|c: Seq<char>| parse_card_spec(c) as usize)
}

/// The union mask of every known card of the request.
pub open spec fn used_mask(m: ReqModel) -> u64 {
    mask_of_seq(parsed_codes(m))
}

/// The remaining (undrawn) cards of the request, ascending.
pub open spec fn alive_of(m: ReqModel) -> Seq<usize> {
    alive_cards(used_mask(m))
}

/// In a valid, well-formed request every code parses to a card, and
/// distinct positions hold distinct cards.
pub proof fn lemma_parsed_codes_distinct(m: ReqModel)
    requires
        m.codes_well_formed(),
        m.valid(),
    ensures
        all_valid(parsed_codes(m)),
        distinct_seq(parsed_codes(m)),
        parsed_codes(m).len() == m.all_codes().len(),
        forall|k: int|
            0 <= k < m.all_codes().len() ==> parse_card_spec(#[trigger] m.all_codes()[k]) >= 0
                && parsed_codes(m)[k] as int == parse_card_spec(m.all_codes()[k]),
{
    assert forall|k: int|
        0 <= k < m.all_codes().len() implies parse_card_spec(#[trigger] m.all_codes()[k])
        >= 0 by {}
    assert forall|k1: int, k2: int|
        0 <= k1 < k2 < parsed_codes(m).len() implies parsed_codes(m)[k1] != parsed_codes(
        m,
    )[k2] by {
        if parsed_codes(m)[k1] == parsed_codes(m)[k2] {
            lemma_parse_card_injective(m.all_codes()[k1], m.all_codes()[k2]);
        }
    }
}

/// The returned player list matches the request: one entry per player in
/// order, the identifier carried over, the two hole cards parsed and
/// pre-combined into one well-formed hand.
pub open spec fn user_cards_match(m: ReqModel, ucs: Seq<CardsInfo>) -> bool {
    &&& ucs.len() == m.players.len()
    &&& forall|i: int| 0 <= i < ucs.len() ==> (#[trigger] ucs[i]).uid@ == m.players[i].uid
    &&& forall|i: int| 0 <= i < ucs.len() ==> (#[trigger] ucs[i]).hands.wf()
    &&& forall|i: int| 0 <= i < ucs.len() ==> (#[trigger] ucs[i]).hands.cards@ == hole_cards_of(m, i)
}

/// Checks a request and parses its players: the request is valid when it
/// has at least two players and no card code anywhere in it (hole, board or
/// dead) repeats or is blank. On a valid request the second component holds
/// every player's hole cards pre-combined into one hand; on an invalid one
/// it is empty.
pub fn calculate_rating_valid(req: &CalculateRatingReq) -> (r: (bool, Vec<CardsInfo>))
    requires
        rating_req_model(*req).codes_well_formed(),
    ensures
        r.0 == rating_req_model(*req).valid(),
        r.0 ==> user_cards_match(rating_req_model(*req), r.1@),
        !r.0 ==> r.1@.len() == 0,
{
    let ghost m = rating_req_model(*req);
    let n_clients = req.clients.len();
    // Flatten every card code of the request, hole cards first.
    let mut flat: Vec<String> = Vec::new();
    let mut k: usize = 0;
    while k < n_clients
        invariant
            n_clients == req.clients@.len(),
            m == rating_req_model(*req),
            k <= n_clients,
            flat@.len() == 2 * k,
            forall|j: int| 0 <= j < 2 * k ==> (#[trigger] flat@[j])@ == m.all_codes()[j],
        decreases n_clients - k,
    {
        let c = &req.clients[k];
        flat.push(c.hands[0].clone());
        flat.push(c.hands[1].clone());
        proof {
            assert(m.all_codes()[2 * k] == m.players[k as int].hole0);
            assert(m.all_codes()[2 * k + 1] == m.players[k as int].hole1);
        }
        k += 1;
    }
    k = 0;
    while k < req.deal_cards.len()
        invariant
            n_clients == req.clients@.len(),
            m == rating_req_model(*req),
            k <= req.deal_cards@.len(),
            flat@.len() == 2 * n_clients + k,
            forall|j: int| 0 <= j < flat@.len() ==> (#[trigger] flat@[j])@ == m.all_codes()[j],
        decreases req.deal_cards@.len() - k,
    {
        flat.push(req.deal_cards[k].clone());
        proof {
            assert(m.all_codes()[2 * n_clients + k] == m.deal[k as int]);
        }
        k += 1;
    }
    k = 0;
    while k < req.dead_cards.len()
        invariant
            n_clients == req.clients@.len(),
            m == rating_req_model(*req),
            k <= req.dead_cards@.len(),
            flat@.len() == 2 * n_clients + req.deal_cards@.len() + k,
            forall|j: int| 0 <= j < flat@.len() ==> (#[trigger] flat@[j])@ == m.all_codes()[j],
        decreases req.dead_cards@.len() - k,
    {
        flat.push(req.dead_cards[k].clone());
        proof {
            assert(m.all_codes()[2 * n_clients + req.deal_cards@.len() + k as int] == m.dead[k as int]);
        }
        k += 1;
    }
    proof {
        assert(flat@.len() == m.all_codes().len());
    }
    // Any repeated code rejects the request.
    let mut a: usize = 0;
    while a < flat.len()
        invariant
            m == rating_req_model(*req),
            a <= flat@.len(),
            flat@.len() == m.all_codes().len(),
            forall|j: int| 0 <= j < flat@.len() ==> (#[trigger] flat@[j])@ == m.all_codes()[j],
            forall|x: int, y: int| 0 <= x < y < flat@.len() && x < a ==> m.all_codes()[x] != m.all_codes()[y],
        decreases flat@.len() - a,
    {
        let mut b: usize = a + 1;
        while b < flat.len()
            invariant
                m == rating_req_model(*req),
                a < flat@.len(),
                a < b,
                flat@.len() == m.all_codes().len(),
                forall|j: int| 0 <= j < flat@.len() ==> (#[trigger] flat@[j])@ == m.all_codes()[j],
                forall|y: int|
                    a < y < b && y < flat@.len() ==> m.all_codes()[a as int] != m.all_codes()[y],
            decreases flat@.len() - b,
        {
            if flat[a].eq(&flat[b]) {
                proof {
                    assert(m.all_codes()[a as int] == m.all_codes()[b as int]);
                    assert(!m.valid());
                }
                return (false, Vec::new());
            }
            b += 1;
        }
        a += 1;
    }
    // Any blank code rejects the request.
    k = 0;
    while k < flat.len()
        invariant
            m == rating_req_model(*req),
            k <= flat@.len(),
            flat@.len() == m.all_codes().len(),
            forall|j: int| 0 <= j < flat@.len() ==> (#[trigger] flat@[j])@ == m.all_codes()[j],
            forall|j: int| 0 <= j < k ==> (#[trigger] m.all_codes()[j]).len() != 0,
        decreases flat@.len() - k,
    {
        if flat[k].as_str().is_empty() {
            proof {
                assert(m.all_codes()[k as int].len() == 0);
                assert(!m.valid());
            }
            return (false, Vec::new());
        }
        k += 1;
    }
    // Fewer than two players rejects the request.
    if n_clients < 2 {
        return (false, Vec::new());
    }
    proof {
        assert(m.valid());
        lemma_parsed_codes_distinct(m);
    }
    let user_cards = convert(req);
    (true, user_cards)
}

/// Parses every player's two hole cards into one hand per player.
fn convert(req: &CalculateRatingReq) -> (ucs: Vec<CardsInfo>)
    requires
        rating_req_model(*req).codes_well_formed(),
        rating_req_model(*req).valid(),
    ensures
        user_cards_match(rating_req_model(*req), ucs@),
{
    let ghost m = rating_req_model(*req);
    proof {
        lemma_parsed_codes_distinct(m);
    }
    let mut ucs: Vec<CardsInfo> = Vec::new();
    let mut k: usize = 0;
    while k < req.clients.len()
        invariant
            m == rating_req_model(*req),
            m.codes_well_formed(),
            m.valid(),
            k <= req.clients@.len(),
            ucs@.len() == k,
            forall|i: int| 0 <= i < k ==> (#[trigger] ucs@[i]).uid@ == m.players[i].uid,
            forall|i: int| 0 <= i < k ==> (#[trigger] ucs@[i]).hands.wf(),
            forall|i: int| 0 <= i < k ==> (#[trigger] ucs@[i]).hands.cards@ == hole_cards_of(m, i),
        decreases req.clients@.len() - k,
    {
        let c = &req.clients[k];
        proof {
            lemma_parsed_codes_distinct(m);
            assert(m.all_codes()[2 * k] == m.players[k as int].hole0);
            assert(m.all_codes()[2 * k + 1] == m.players[k as int].hole1);
        }
        let i0 = parse_card(c.hands[0].as_str()).unwrap();
        let i1 = parse_card(c.hands[1].as_str()).unwrap();
        proof {
            assert(i0 as int == parse_card_spec(m.players[k as int].hole0));
            assert(i1 as int == parse_card_spec(m.players[k as int].hole1));
            if i0 == i1 {
                lemma_parse_card_injective(m.players[k as int].hole0, m.players[k as int].hole1);
                assert(m.all_codes()[2 * k] == m.all_codes()[2 * k + 1]);
                assert(false);
            }
        }
        let h = Hand::new();
        let h = h.add_card(i0);
        let h = h.add_card(i1);
        proof {
            assert(h.cards@ =~= hole_cards_of(m, k as int));
        }
        ucs.push(CardsInfo { hands: h, uid: c.uid.clone() });
        k += 1;
    }
    ucs
}

/// The union mask of every player's hole hand.
pub open spec fn hands_mask(ucs: Seq<CardsInfo>) -> u64
    decreases ucs.len(),
{
    if ucs.len() == 0 {
        0u64
    } else {
        hands_mask(ucs.drop_last()) | ucs.last().hands.mask
    }
}

/// The equity/outs engine. It holds no state: every request's computation
/// is local and independent.
pub struct Evaluator {}

impl Evaluator {
    /// Combines the dealt cards into the board hand and resolves the alive
    /// cards: every card whose mask bit is clear in the union of all hole,
    /// board and dead cards, ascending by card index.
    pub fn get_board_and_alive_cards(
        &self,
        deal_cards: &Vec<String>,
        dead_cards: &Vec<String>,
        user_cards: &Vec<CardsInfo>,
    ) -> (r: (Hand, Vec<usize>))
        requires
            forall|k: int|
                0 <= k < deal_cards@.len() ==> parse_card_spec((#[trigger] deal_cards@[k])@) >= 0,
            forall|k: int|
                0 <= k < dead_cards@.len() ==> parse_card_spec((#[trigger] dead_cards@[k])@) >= 0,
            distinct_seq(parsed_strings(deal_cards@)),
            distinct_seq(parsed_strings(dead_cards@)),
        ensures
            r.0.wf(),
            r.0.cards@ == parsed_strings(deal_cards@),
            r.1@ == alive_cards(
                hands_mask(user_cards@) | r.0.mask | mask_of_seq(parsed_strings(dead_cards@)),
            ),
    {
        let board = parse_hand(deal_cards);
        let dead_hand = parse_hand(dead_cards);
        let mut mask: u64 = 0;
        let mut k: usize = 0;
        while k < user_cards.len()
            invariant
                k <= user_cards@.len(),
                mask == hands_mask(user_cards@.subrange(0, k as int)),
            decreases user_cards@.len() - k,
        {
            mask = mask | user_cards[k].hands.get_mask();
            proof {
                assert(user_cards@.subrange(0, k + 1).drop_last() =~= user_cards@.subrange(
                    0,
                    k as int,
                ));
                assert(user_cards@.subrange(0, k + 1).last() == user_cards@[k as int]);
            }
            k += 1;
        }
        proof {
            assert(user_cards@.subrange(0, user_cards@.len() as int) =~= user_cards@);
        }
        let mask = mask | board.get_mask() | dead_hand.get_mask();
        let alive = crate::cards::compute_alive_cards(mask);
        (board, alive)
    }
}

/// The players' hole cards of a request, parsed and flattened in
/// `all_codes` order.
pub open spec fn hole_flat(m: ReqModel) -> Seq<usize> {
    Seq::new(
        2 * m.players.len(),
        |k: int| parse_card_spec(m.all_codes()[k]) as usize,
    )
}

/// The union mask of a player list equals the union mask of the flattened
/// hole cards they were parsed from.
proof fn lemma_hands_mask_eq(m: ReqModel, ucs: Seq<CardsInfo>, k: int)
    requires
        m.codes_well_formed(),
        m.valid(),
        user_cards_match(m, ucs),
        0 <= k <= ucs.len(),
    ensures
        hands_mask(ucs.subrange(0, k)) == mask_of_seq(hole_flat(m).subrange(0, 2 * k)),
    decreases k,
{
    if k == 0 {
        assert(ucs.subrange(0, 0) =~= Seq::<CardsInfo>::empty());
        assert(hole_flat(m).subrange(0, 0) =~= Seq::<usize>::empty());
    } else {
        lemma_hands_mask_eq(m, ucs, k - 1);
        let sub = ucs.subrange(0, k);
        assert(sub.drop_last() =~= ucs.subrange(0, k - 1));
        assert(sub.last() == ucs[k - 1]);
        let h = ucs[k - 1].hands;
        let flat2k = hole_flat(m).subrange(0, 2 * k);
        let flat2k1 = hole_flat(m).subrange(0, 2 * k - 1);
        let flat2k2 = hole_flat(m).subrange(0, 2 * k - 2);
        assert(flat2k.drop_last() =~= flat2k1);
        assert(flat2k1.drop_last() =~= flat2k2);
        assert(m.all_codes()[2 * (k - 1)] == m.players[k - 1].hole0);
        assert(m.all_codes()[2 * (k - 1) + 1] == m.players[k - 1].hole1);
        let c0 = parse_card_spec(m.players[k - 1].hole0) as usize;
        let c1 = parse_card_spec(m.players[k - 1].hole1) as usize;
        assert(flat2k.last() == c1);
        assert(flat2k1.last() == c0);
        assert(h.cards@ == hole_cards_of(m, k - 1));
        assert(h.mask == mask_of_seq(h.cards@));
        assert(h.cards@.drop_last() =~= seq![c0]);
        assert(h.cards@.last() == c1);
        assert(seq![c0].drop_last() =~= Seq::<usize>::empty());
        assert(seq![c0].last() == c0);
        let a = mask_of_seq(flat2k2);
        let b0 = card_mask(c0 as int);
        let b1 = card_mask(c1 as int);
        assert(mask_of_seq(Seq::<usize>::empty()) == 0u64);
        assert(mask_of_seq(seq![c0]) == 0u64 | b0);
        assert(h.mask == mask_of_seq(seq![c0]) | b1);
        assert(mask_of_seq(flat2k1) == a | b0);
        assert(mask_of_seq(flat2k) == mask_of_seq(flat2k1) | b1);
        assert(hands_mask(sub) == hands_mask(sub.drop_last()) | h.mask);
        assert((a | ((0u64 | b0) | b1)) == ((a | b0) | b1)) by (bit_vector);
    }
}

/// Facts about a valid, well-formed, parsed request that the enumeration
/// paths rest on: the board and dead lists parse to distinct cards, the
/// request's union mask splits into hole, board and dead masks, and no
/// player's hand shares a card bit with the board.
/// Positions of a valid, well-formed request's parsed cards: the board and
/// dead lists parse to distinct cards, and the hole and board cards sit at
/// their positions of the flattened code list.
pub proof fn lemma_request_positions(m: ReqModel)
    requires
        m.codes_well_formed(),
        m.valid(),
    ensures
        all_valid(board_of(m)),
        distinct_seq(board_of(m)),
        board_of(m).len() == m.deal.len(),
        all_valid(dead_of(m)),
        distinct_seq(dead_of(m)),
        forall|k: int| 0 <= k < m.deal.len() ==> parse_card_spec(#[trigger] m.deal[k]) >= 0,
        forall|k: int| 0 <= k < m.dead.len() ==> parse_card_spec(#[trigger] m.dead[k]) >= 0,
        all_valid(parsed_codes(m)),
        distinct_seq(parsed_codes(m)),
        parsed_codes(m).len() == m.all_codes().len(),
        forall|i: int|
            0 <= i < m.players.len() ==> #[trigger] hole_cards_of(m, i) == seq![
                parsed_codes(m)[2 * i],
                parsed_codes(m)[2 * i + 1],
            ],
        forall|j: int|
            0 <= j < m.deal.len() ==> #[trigger] board_of(m)[j] == parsed_codes(m)[2
                * m.players.len() + j],
{
    lemma_parsed_codes_distinct(m);
    let n = m.players.len() as int;
    let all = parsed_codes(m);
    assert forall|k: int| 0 <= k < m.deal.len() implies parse_card_spec(#[trigger] m.deal[k])
        >= 0 by {
        assert(m.all_codes()[2 * n + k] == m.deal[k]);
    }
    assert forall|k: int| 0 <= k < m.dead.len() implies parse_card_spec(#[trigger] m.dead[k])
        >= 0 by {
        assert(m.all_codes()[2 * n + m.deal.len() + k] == m.dead[k]);
    }
    assert forall|k: int| 0 <= k < board_of(m).len() implies valid_card(
        #[trigger] board_of(m)[k] as int,
    ) by {
        assert(board_of(m)[k] == all[2 * n + k]);
    }
    assert forall|k1: int, k2: int| 0 <= k1 < k2 < board_of(m).len() implies board_of(m)[k1]
        != board_of(m)[k2] by {
        assert(board_of(m)[k1] == all[2 * n + k1]);
        assert(board_of(m)[k2] == all[2 * n + k2]);
    }
    let off = 2 * n + m.deal.len();
    assert forall|k: int| 0 <= k < dead_of(m).len() implies valid_card(
        #[trigger] dead_of(m)[k] as int,
    ) by {
        assert(dead_of(m)[k] == all[off + k]);
    }
    assert forall|k1: int, k2: int| 0 <= k1 < k2 < dead_of(m).len() implies dead_of(m)[k1]
        != dead_of(m)[k2] by {
        assert(dead_of(m)[k1] == all[off + k1]);
        assert(dead_of(m)[k2] == all[off + k2]);
    }
    assert forall|i: int|
        0 <= i < m.players.len() implies #[trigger] hole_cards_of(m, i) == seq![
        parsed_codes(m)[2 * i],
        parsed_codes(m)[2 * i + 1],
    ] by {
        assert(m.all_codes()[2 * i] == m.players[i].hole0);
        assert(m.all_codes()[2 * i + 1] == m.players[i].hole1);
        assert(hole_cards_of(m, i) =~= seq![
            parsed_codes(m)[2 * i],
            parsed_codes(m)[2 * i + 1],
        ]);
    }
    assert forall|j: int|
        0 <= j < m.deal.len() implies #[trigger] board_of(m)[j] == parsed_codes(m)[2
        * m.players.len() + j] by {
        assert(m.all_codes()[2 * n + j] == m.deal[j]);
    }
}

/// The request's union mask splits into the hole, board and dead masks.
proof fn lemma_request_masks(m: ReqModel, ucs: Seq<CardsInfo>)
    requires
        m.codes_well_formed(),
        m.valid(),
        user_cards_match(m, ucs),
    ensures
        used_mask(m) == hands_mask(ucs) | mask_of_seq(board_of(m)) | mask_of_seq(dead_of(m)),
{
    let n = m.players.len() as int;
    let all = parsed_codes(m);
    assert(all =~= hole_flat(m) + board_of(m) + dead_of(m)) by {
        assert forall|k: int| 0 <= k < all.len() implies all[k] == (hole_flat(m) + board_of(m)
            + dead_of(m))[k] by {
            if k < 2 * n {
            } else if k < 2 * n + m.deal.len() {
                assert(m.all_codes()[k] == m.deal[k - 2 * n]);
            } else {
                assert(m.all_codes()[k] == m.dead[k - 2 * n - m.deal.len()]);
            }
        }
    }
    lemma_mask_of_seq_add(hole_flat(m) + board_of(m), dead_of(m));
    lemma_mask_of_seq_add(hole_flat(m), board_of(m));
    assert(used_mask(m) == mask_of_seq(hole_flat(m)) | mask_of_seq(board_of(m)) | mask_of_seq(
        dead_of(m),
    ));
    lemma_hands_mask_eq(m, ucs, ucs.len() as int);
    assert(ucs.subrange(0, ucs.len() as int) =~= ucs);
    assert(hole_flat(m).subrange(0, 2 * ucs.len() as int) =~= hole_flat(m));
}

/// No player's hand shares a card bit with the dealt board.
proof fn lemma_request_hands_board(m: ReqModel, ucs: Seq<CardsInfo>)
    requires
        m.codes_well_formed(),
        m.valid(),
        user_cards_match(m, ucs),
    ensures
        forall|i: int|
            0 <= i < ucs.len() ==> (#[trigger] ucs[i]).hands.mask & mask_of_seq(board_of(m)) == 0,
{
    lemma_parsed_codes_distinct(m);
    lemma_request_positions(m);
    let n = m.players.len() as int;
    let all = parsed_codes(m);
    assert forall|i: int|
        0 <= i < ucs.len() implies (#[trigger] ucs[i]).hands.mask & mask_of_seq(board_of(m))
        == 0 by {
        let h = ucs[i].hands;
        assert(h.cards@ == hole_cards_of(m, i));
        assert(h.cards@[0] == all[2 * i] && h.cards@[1] == all[2 * i + 1]);
        assert forall|k: int| 0 <= k < board_of(m).len() implies !h.cards@.contains(
            #[trigger] board_of(m)[k],
        ) by {
            if h.cards@.contains(board_of(m)[k]) {
                let j = choose|j: int| 0 <= j < h.cards@.len() && h.cards@[j] == board_of(m)[k];
                assert(h.cards@[j] == all[2 * i + j]);
                assert(board_of(m)[k] == all[2 * n + k]);
                assert(2 * i + j < 2 * n + k);
            }
        }
        crate::hand::lemma_masks_disjoint(h.cards@, board_of(m));
        assert(mask_of_seq(h.cards@) & mask_of_seq(board_of(m)) == 0);
    }
}

/// Facts about a valid, well-formed, parsed request that the enumeration
/// paths rest on: the board and dead lists parse to distinct cards, the
/// request's union mask splits into hole, board and dead masks, and no
/// player's hand shares a card bit with the board.
pub proof fn lemma_request_facts(m: ReqModel, ucs: Seq<CardsInfo>)
    requires
        m.codes_well_formed(),
        m.valid(),
        user_cards_match(m, ucs),
    ensures
        all_valid(board_of(m)),
        distinct_seq(board_of(m)),
        board_of(m).len() == m.deal.len(),
        all_valid(dead_of(m)),
        distinct_seq(dead_of(m)),
        forall|k: int| 0 <= k < m.deal.len() ==> parse_card_spec(#[trigger] m.deal[k]) >= 0,
        forall|k: int| 0 <= k < m.dead.len() ==> parse_card_spec(#[trigger] m.dead[k]) >= 0,
        used_mask(m) == hands_mask(ucs) | mask_of_seq(board_of(m)) | mask_of_seq(dead_of(m)),
        forall|i: int|
            0 <= i < ucs.len() ==> (#[trigger] ucs[i]).hands.mask & mask_of_seq(board_of(m)) == 0,
        all_valid(parsed_codes(m)),
        distinct_seq(parsed_codes(m)),
        parsed_codes(m).len() == m.all_codes().len(),
        forall|i: int|
            0 <= i < m.players.len() ==> #[trigger] hole_cards_of(m, i) == seq![
                parsed_codes(m)[2 * i],
                parsed_codes(m)[2 * i + 1],
            ],
        forall|j: int|
            0 <= j < m.deal.len() ==> #[trigger] board_of(m)[j] == parsed_codes(m)[2
                * m.players.len() + j],
{
    lemma_parsed_codes_distinct(m);
    lemma_request_positions(m);
    lemma_request_masks(m, ucs);
    lemma_request_hands_board(m, ucs);
}

/// Builds a zeroed per-player accumulator.
fn zero_counts(n: usize) -> (v: Vec<u64>)
    ensures
        v@.len() == n,
        forall|i: int| 0 <= i < n ==> #[trigger] v@[i] == 0,
{
    let mut v: Vec<u64> = Vec::new();
    let mut k: usize = 0;
    while k < n
        invariant
            k <= n,
            v@.len() == k,
            forall|i: int| 0 <= i < k ==> #[trigger] v@[i] == 0,
        decreases n - k,
    {
        v.push(0);
        k += 1;
    }
    v
}

/// One rate per player, computed from the final accumulators: a won board
/// is worth the full scale, a tied board half, normalized by the total.
fn rates_from_counts(
    clients: &Vec<UserCards>,
    win_counts: &Vec<u64>,
    draw_counts: &Vec<u64>,
    draw_count: u64,
) -> (rates: Vec<ClientRate>)
    requires
        win_counts@.len() == clients@.len(),
        draw_counts@.len() == clients@.len(),
        0 < total_of(tally_of(win_counts@, draw_counts@, draw_count)),
        total_of(tally_of(win_counts@, draw_counts@, draw_count)) <= 11000,
        forall|i: int| 0 <= i < draw_counts@.len() ==> #[trigger] draw_counts@[i] <= 11000,
    ensures
        rates@.len() == clients@.len(),
        forall|i: int|
            0 <= i < rates@.len() ==> (#[trigger] rates@[i]).uid@ == clients@[i].uid@,
        forall|i: int|
            0 <= i < rates@.len() ==> (#[trigger] rates@[i]).rate as int == rate_of(
                tally_of(win_counts@, draw_counts@, draw_count),
                i,
            ),
{
    let ghost t = tally_of(win_counts@, draw_counts@, draw_count);
    let n = clients.len();
    // Total: the sum of all outright wins plus the tied boards.
    let mut total: u64 = 0;
    let mut k: usize = 0;
    proof {
        assert(forall|i: int| 0 <= i < t.wins.len() ==> #[trigger] t.wins[i] >= 0);
        lemma_sum_seq_nonneg(t.wins);
    }
    while k < n
        invariant
            n == clients@.len(),
            win_counts@.len() == n,
            k <= n,
            t == tally_of(win_counts@, draw_counts@, draw_count),
            total as int == sum_seq(t.wins.subrange(0, k as int)),
            sum_seq(t.wins) + t.draw_boards <= 11000,
            forall|i: int| 0 <= i < t.wins.len() ==> #[trigger] t.wins[i] >= 0,
            t.draw_boards >= 0,
        decreases n - k,
    {
        proof {
            assert(t.wins.subrange(0, k + 1).drop_last() =~= t.wins.subrange(0, k as int));
            assert(t.wins.subrange(0, k + 1).last() == t.wins[k as int]);
            lemma_sum_seq_prefix(t.wins, k + 1);
        }
        total = total + win_counts[k];
        k += 1;
    }
    proof {
        assert(t.wins.subrange(0, n as int) =~= t.wins);
    }
    let total = total + draw_count;
    proof {
        assert(total as int == total_of(t));
    }
    let mut rates: Vec<ClientRate> = Vec::new();
    k = 0;
    while k < n
        invariant
            n == clients@.len(),
            win_counts@.len() == n,
            draw_counts@.len() == n,
            k <= n,
            t == tally_of(win_counts@, draw_counts@, draw_count),
            total as int == total_of(t),
            0 < total,
            sum_seq(t.wins) + t.draw_boards <= 11000,
            forall|i: int| 0 <= i < t.wins.len() ==> #[trigger] t.wins[i] >= 0,
            forall|i: int| 0 <= i < draw_counts@.len() ==> #[trigger] draw_counts@[i] <= 11000,
            rates@.len() == k,
            forall|i: int| 0 <= i < k ==> (#[trigger] rates@[i]).uid@ == clients@[i].uid@,
            forall|i: int|
                0 <= i < k ==> (#[trigger] rates@[i]).rate as int == rate_of(t, i),
        decreases n - k,
    {
        proof {
            lemma_sum_seq_nonneg(t.wins);
            assert(t.wins[k as int] <= sum_seq(t.wins));
            assert(win_counts@[k as int] <= 11000);
        }
        let w = win_counts[k];
        let d = draw_counts[k];
        let rate = (w * 10000 + d * 5000) / total;
        rates.push(ClientRate { uid: clients[k].uid.clone(), rate });
        k += 1;
    }
    rates
}

/// How many trials the sampling regime runs, and the defensive cap on the
/// exhaustive walk. The exhaustive walk over at most 52 alive cards yields
/// at most 1326 boards, so it always completes below this cap.
pub const MAX_LOOP: u32 = 11000;

/// The rates answer the request: one rate per player, in order, each the
/// player's rate under the given tally.
pub open spec fn rates_match(rates: Seq<ClientRate>, m: ReqModel, t: Tally) -> bool {
    &&& rates.len() == m.players.len()
    &&& forall|i: int| 0 <= i < rates.len() ==> (#[trigger] rates[i]).uid@ == m.players[i].uid
    &&& forall|i: int| 0 <= i < rates.len() ==> (#[trigger] rates[i]).rate as int == rate_of(t, i)
}

/// A board the sampling regime may evaluate: the dealt board completed to
/// five cards by distinct cards from the alive list.
pub open spec fn is_sampled_board(m: ReqModel, b: Seq<usize>) -> bool {
    &&& b.len() == m.remain() + m.deal.len()
    &&& b.skip(m.remain()) == board_of(m)
    &&& forall|k: int| 0 <= k < m.remain() ==> alive_of(m).contains(#[trigger] b[k])
    &&& distinct_seq(b)
}

/// What an equity response promises. An invalid request is rejected with
/// the invalid-input code and no rates. A valid one gets code 0 and one
/// rate per player: with at most two cards to come the rates are exactly
/// those of the exhaustive walk over every completion, a function of the
/// request alone; with three or more to come they are the rates of some
/// list of `MAX_LOOP` sampled completions.
pub open spec fn rating_rsp_ok(m: ReqModel, rsp: CalculateRatingRsp) -> bool {
    &&& !m.valid() ==> rsp.code == ERROR_INVALID && rsp.clients_rate@.len() == 0 && rsp.msg@
        == "req has duplicates or has empty string input,or client.len is lt 2"@
    &&& m.valid() ==> rsp.code == 0 && rsp.msg@ == Seq::<char>::empty()
    &&& m.valid() && m.remain() <= 2 ==> rates_match(
        rsp.clients_rate@,
        m,
        exhaustive_tally(holes_of(m), board_of(m), alive_of(m), m.remain()),
    )
    &&& m.valid() && m.remain() >= 3 ==> exists|boards: Seq<Seq<usize>>|
        #[trigger] boards.len() == MAX_LOOP && (forall|b: int|
            0 <= b < boards.len() ==> is_sampled_board(m, #[trigger] boards[b])) && rates_match(
            rsp.clients_rate@,
            m,
            agg_list(holes_of(m), boards, 0, Tally::zero(m.players.len() as int)),
        )
}

/// The two computations of the engine, behind one trait so a transport can
/// hold the engine abstractly.
pub trait CalculateRating {
    /// Computes every player's equity: the probability-weighted share of
    /// winning once the board is complete, as an integer rate over 10000.
    /// A request whose cards repeat or are blank, or with fewer than two
    /// players, is rejected with the invalid-input code.
    fn calculate_rating(&self, req: CalculateRatingReq) -> (rsp: CalculateRatingRsp)
        requires
            rating_req_model(req).codes_well_formed(),
            rating_req_model(req).valid() ==> rating_req_model(req).deal.len() <= 5 && alive_of(
                rating_req_model(req),
            ).len() >= rating_req_model(req).remain(),
        ensures
            rating_rsp_ok(rating_req_model(req), rsp),
    ;

    /// Computes every player's outs: the remaining cards that, dealt as the
    /// next community card, leave the player outright best (listed first)
    /// or tied for best (listed after). Only meaningful from the flop on:
    /// a request with fewer than three dealt cards is rejected, and a
    /// complete five-card board yields empty lists.
    fn calculate_outs(&self, req: CalculateOutsReq) -> (rsp: CalculateOutsRsp)
        requires
            outs_req_model(req).codes_well_formed(),
        ensures
            outs_rsp_ok(outs_req_model(req), rsp),
    ;
}

impl CalculateRating for Evaluator {
    fn calculate_rating(&self, req: CalculateRatingReq) -> (rsp: CalculateRatingRsp) {
        let ghost m = rating_req_model(req);
        let (valid, user_cards) = calculate_rating_valid(&req);
        if !valid {
            return CalculateRatingRsp {
                code: ERROR_INVALID,
                clients_rate: Vec::new(),
                msg: String::from_str(
                    "req has duplicates or has empty string input,or client.len is lt 2",
                ),
            };
        }
        proof {
            lemma_request_facts(m, user_cards@);
            assert(parsed_strings(req.deal_cards@) =~= board_of(m));
            assert(parsed_strings(req.dead_cards@) =~= dead_of(m));
            assert forall|k: int|
                0 <= k < req.deal_cards@.len() implies parse_card_spec(
                (#[trigger] req.deal_cards@[k])@,
            ) >= 0 by {
                assert(m.deal[k] == req.deal_cards@[k]@);
            }
            assert forall|k: int|
                0 <= k < req.dead_cards@.len() implies parse_card_spec(
                (#[trigger] req.dead_cards@[k])@,
            ) >= 0 by {
                assert(m.dead[k] == req.dead_cards@[k]@);
            }
        }
        let (board, alive) = self.get_board_and_alive_cards(
            &req.deal_cards,
            &req.dead_cards,
            &user_cards,
        );
        let ghost av = alive_of(m);
        let ghost holes = holes_of(m);
        let ghost used = used_mask(m);
        proof {
            assert(board.cards@ == board_of(m));
            assert(hands_mask(user_cards@) | board.mask | mask_of_seq(dead_of(m)) == used);
            assert(alive@ == av);
            crate::cards::lemma_alive_upto_props(used, 52);
            crate::cards::lemma_alive_upto_len(used, 52);
            assert(distinct_seq(av)) by {
                assert forall|k1: int, k2: int|
                    0 <= k1 < k2 < av.len() implies av[k1] != av[k2] by {}
            }
            assert forall|k: int| 0 <= k < av.len() implies !parsed_codes(m).contains(
                #[trigger] av[k],
            ) by {
                crate::hand::lemma_mask_contains(parsed_codes(m), av[k] as int);
            }
            assert(user_cards@.map_values(|u: CardsInfo| u.hands.cards@) =~= holes);
        }
        let n = user_cards.len();
        let remain = 5 - board.len();
        proof {
            assert(remain as int == m.remain());
            assert(n == m.players.len());
        }
        let mut win_counts = zero_counts(n);
        let mut draw_counts = zero_counts(n);
        let mut draw_count: u64 = 0;
        let ghost z = Tally::zero(n as int);
        proof {
            assert(tally_of(win_counts@, draw_counts@, draw_count) =~= z);
        }
        let ghost mut sampled: Seq<Seq<usize>> = Seq::empty();
        if remain >= 3 {
            let mut loop_time: u32 = 0;
            while loop_time < MAX_LOOP
                invariant
                    m.codes_well_formed(),
                    m.valid(),
                    m == rating_req_model(req),
                    3 <= remain as int == m.remain(),
                    board.wf(),
                    board.cards@ == board_of(m),
                    board.cards@.len() == m.deal.len() <= 5,
                    alive@ == av,
                    av == alive_of(m),
                    z == Tally::zero(n as int),
                    av.len() >= remain,
                    av.len() <= 52,
                    all_valid(av),
                    distinct_seq(av),
                    forall|k: int|
                        0 <= k < av.len() ==> card_mask(#[trigger] av[k] as int) & used == 0,
                    forall|k: int| 0 <= k < av.len() ==> !parsed_codes(m).contains(#[trigger] av[k]),
                    user_cards_match(m, user_cards@),
                    all_valid(parsed_codes(m)),
                    distinct_seq(parsed_codes(m)),
                    parsed_codes(m).len() == m.all_codes().len(),
                    forall|i: int|
                        0 <= i < m.players.len() ==> #[trigger] hole_cards_of(m, i) == seq![
                            parsed_codes(m)[2 * i],
                            parsed_codes(m)[2 * i + 1],
                        ],
                    forall|j: int|
                        0 <= j < m.deal.len() ==> #[trigger] board_of(m)[j] == parsed_codes(m)[2
                            * m.players.len() + j],
                    forall|i: int|
                        0 <= i < user_cards@.len() ==> (#[trigger] user_cards@[i]).hands.mask
                            & board.mask == 0,
                    n == user_cards@.len() == m.players.len() >= 2,
                    holes == holes_of(m),
                    loop_time <= MAX_LOOP,
                    win_counts@.len() == n,
                    draw_counts@.len() == n,
                    forall|i: int| 0 <= i < n ==> #[trigger] win_counts@[i] <= loop_time,
                    forall|i: int| 0 <= i < n ==> #[trigger] draw_counts@[i] <= loop_time,
                    draw_count <= loop_time,
                    sampled.len() == loop_time,
                    forall|b: int| 0 <= b < sampled.len() ==> is_sampled_board(m, #[trigger] sampled[b]),
                    tally_of(win_counts@, draw_counts@, draw_count) == agg_list(
                        holes,
                        sampled,
                        0,
                        z,
                    ),
                decreases MAX_LOOP - loop_time,
            {
                proof {
                    assert forall|k: int|
                        0 <= k < av.len() implies card_mask(#[trigger] av[k] as int) & board.mask
                        == 0 by {
                        if board.cards@.contains(av[k]) {
                            let j = choose|j: int|
                                0 <= j < board.cards@.len() && board.cards@[j] == av[k];
                            assert(parsed_codes(m)[2 * m.players.len() + j] == av[k]);
                            assert(parsed_codes(m).contains(av[k]));
                        }
                        crate::hand::lemma_mask_contains(board.cards@, av[k] as int);
                    }
                }
                let new_board = crate::enumerate::draw_completion(&board, &alive, remain);
                proof {
                    assert(is_sampled_board(m, new_board.cards@)) by {
                        assert(new_board.cards@.skip(remain as int) == board.cards@);
                    }
                    assert forall|k: int|
                        0 <= k < new_board.cards@.len() implies !parsed_codes(m).contains(
                        #[trigger] new_board.cards@[k],
                    ) || board_of(m).contains(new_board.cards@[k]) by {
                        let c = new_board.cards@[k];
                        if k < remain {
                            assert(av.contains(c));
                            let q = choose|q: int| 0 <= q < av.len() && av[q] == c;
                            assert(!parsed_codes(m).contains(av[q]));
                        } else {
                            let jb = k - remain;
                            assert(new_board.cards@.skip(remain as int)[jb] == board_of(m)[jb]);
                            assert(board_of(m)[jb] == c);
                        }
                    }
                    lemma_hands_disjoint_from(m, user_cards@, new_board.cards@);
                    assert forall|i: int|
                        0 <= i < user_cards@.len() implies (#[trigger] user_cards@[i]).hands.mask
                        & new_board.mask == 0 by {}
                    assert(new_board.cards@.len() == remain + m.deal.len() == 5);
                }
                let strengths = crate::showdown::board_strengths(&user_cards, &new_board);
                let ghost t0 = tally_of(win_counts@, draw_counts@, draw_count);
                crate::showdown::add_to_win_count(
                    &strengths,
                    &mut draw_counts,
                    &mut draw_count,
                    &mut win_counts,
                );
                proof {
                    let b = new_board.cards@;
                    crate::enumerate::lemma_agg_list_push(holes, sampled, b, 0, z);
                    assert(strengths@ == crate::showdown::player_strengths(holes, b)) by {
                        assert(user_cards@.map_values(|u: CardsInfo| u.hands.cards@) =~= holes);
                    }
                    sampled = sampled.push(b);
                    let t1 = tally_of(win_counts@, draw_counts@, draw_count);
                    assert forall|p: int|
                        0 <= p < n implies #[trigger] win_counts@[p] <= loop_time + 1 by {
                        assert(t1.wins[p] <= t0.wins[p] + 1);
                        assert(t1.wins[p] == win_counts@[p] as int);
                    }
                    assert forall|p: int|
                        0 <= p < n implies #[trigger] draw_counts@[p] <= loop_time + 1 by {
                        assert(t1.draws[p] <= t0.draws[p] + 1);
                        assert(t1.draws[p] == draw_counts@[p] as int);
                    }
                    assert(t1.draw_boards <= t0.draw_boards + 1);
                }
                loop_time += 1;
            }
            proof {
                crate::enumerate::lemma_agg_list_total(holes, sampled, 0, z);
                assert(sum_seq(z.wins) == 0 && total_of(z) == 0) by {
                    lemma_zero_tally(n as int);
                }
                assert(total_of(tally_of(win_counts@, draw_counts@, draw_count)) == MAX_LOOP);
            }
        } else if remain == 0 {
            let strengths = crate::showdown::board_strengths(&user_cards, &board);
            crate::showdown::add_to_win_count(
                &strengths,
                &mut draw_counts,
                &mut draw_count,
                &mut win_counts,
            );
            proof {
                assert(strengths@ == crate::showdown::player_strengths(holes, board.cards@)) by {
                    assert(user_cards@.map_values(|u: CardsInfo| u.hands.cards@) =~= holes);
                }
                let t = tally_of(win_counts@, draw_counts@, draw_count);
                assert(t == exhaustive_tally(holes, board_of(m), av, m.remain()));
                crate::enumerate::lemma_step_total(z, strengths@);
                assert(sum_seq(z.wins) == 0 && total_of(z) == 0) by {
                    lemma_zero_tally(n as int);
                }
                assert(total_of(t) == 1);
                assert forall|p: int|
                    0 <= p < n implies #[trigger] draw_counts@[p] <= 1 by {
                    assert(t.draws[p] <= z.draws[p] + 1);
                    assert(t.draws[p] == draw_counts@[p] as int);
                }
            }
        } else {
            // remain is 1 or 2: exhaustive enumeration of every completion.
            proof {
                assert forall|k: int|
                    0 <= k < av.len() implies card_mask(#[trigger] av[k] as int) & board.mask
                    == 0 by {
                    if board.cards@.contains(av[k]) {
                        let j = choose|j: int|
                            0 <= j < board.cards@.len() && board.cards@[j] == av[k];
                        assert(parsed_codes(m)[2 * m.players.len() + j] == av[k]);
                        assert(parsed_codes(m).contains(av[k]));
                    }
                    crate::hand::lemma_mask_contains(board.cards@, av[k] as int);
                }
            }
            if remain == 1 {
                exhaustive_singles(
                    &user_cards,
                    &board,
                    &alive,
                    &mut win_counts,
                    &mut draw_counts,
                    &mut draw_count,
                    Ghost(m),
                );
                proof {
                    let t = tally_of(win_counts@, draw_counts@, draw_count);
                    assert(0 < total_of(t) <= 52);
                }
            } else {
                exhaustive_pairs(
                    &user_cards,
                    &board,
                    &alive,
                    &mut win_counts,
                    &mut draw_counts,
                    &mut draw_count,
                    Ghost(m),
                );
                proof {
                    let an = alive@.len() as int;
                    crate::enumerate::lemma_pairs_from_bounds(an, 0);
                    assert(an * an <= 52 * 52) by (nonlinear_arith)
                        requires
                            0 <= an <= 52,
                    ;
                    assert((an - 0) * an == an * an);
                    assert(an >= 2);
                    let t = tally_of(win_counts@, draw_counts@, draw_count);
                    assert(0 < total_of(t) <= 2704);
                }
            }
        }
        let rates = rates_from_counts(&req.clients, &win_counts, &draw_counts, draw_count);
        proof {
            assert(req.clients@.len() == m.players.len());
            assert forall|i: int| 0 <= i < rates@.len() implies (#[trigger] rates@[i]).uid@
                == m.players[i].uid by {
                assert(m.players[i] == crate::model::player_model(req.clients@[i]));
            }
            if m.remain() >= 3 {
                assert(sampled.len() == MAX_LOOP);
                assert(rates_match(
                    rates@,
                    m,
                    agg_list(holes_of(m), sampled, 0, Tally::zero(m.players.len() as int)),
                ));
            }
        }
        CalculateRatingRsp { code: 0, clients_rate: rates, msg: String::new() }
    }

    fn calculate_outs(&self, req: CalculateOutsReq) -> (rsp: CalculateOutsRsp) {
        self.calculate_outs_impl(req)
    }
}

/// Whether every card code of the request is blank or a recognized
/// two-character code, which the engine's entry points demand.
fn codes_parse(req: &CalculateRatingReq) -> (r: bool)
    ensures
        r == rating_req_model(*req).codes_well_formed(),
{
    let ghost m = rating_req_model(*req);
    let mut k: usize = 0;
    while k < req.clients.len()
        invariant
            m == rating_req_model(*req),
            k <= req.clients@.len(),
            forall|j: int|
                0 <= j < 2 * k ==> (#[trigger] m.all_codes()[j]).len() == 0 || parse_card_spec(
                    m.all_codes()[j],
                ) >= 0,
        decreases req.clients@.len() - k,
    {
        let c = &req.clients[k];
        let ok0 = c.hands[0].as_str().is_empty() || parse_card(c.hands[0].as_str()).is_some();
        let ok1 = c.hands[1].as_str().is_empty() || parse_card(c.hands[1].as_str()).is_some();
        proof {
            assert(m.all_codes()[2 * k] == m.players[k as int].hole0);
            assert(m.all_codes()[2 * k + 1] == m.players[k as int].hole1);
        }
        if !ok0 || !ok1 {
            return false;
        }
        k += 1;
    }
    let holes = req.clients.len();
    k = 0;
    while k < req.deal_cards.len()
        invariant
            m == rating_req_model(*req),
            holes == req.clients@.len(),
            k <= req.deal_cards@.len(),
            forall|j: int|
                0 <= j < 2 * holes + k ==> (#[trigger] m.all_codes()[j]).len() == 0
                    || parse_card_spec(m.all_codes()[j]) >= 0,
        decreases req.deal_cards@.len() - k,
    {
        let s = &req.deal_cards[k];
        proof {
            assert(m.all_codes()[2 * holes + k] == m.deal[k as int]);
        }
        if !(s.as_str().is_empty() || parse_card(s.as_str()).is_some()) {
            return false;
        }
        k += 1;
    }
    k = 0;
    while k < req.dead_cards.len()
        invariant
            m == rating_req_model(*req),
            holes == req.clients@.len(),
            k <= req.dead_cards@.len(),
            forall|j: int|
                0 <= j < 2 * holes + req.deal_cards@.len() + k ==> (
                #[trigger] m.all_codes()[j]).len() == 0 || parse_card_spec(m.all_codes()[j]) >= 0,
        decreases req.dead_cards@.len() - k,
    {
        let s = &req.dead_cards[k];
        proof {
            assert(m.all_codes()[2 * holes + req.deal_cards@.len() + k as int] == m.dead[k as int]);
        }
        if !(s.as_str().is_empty() || parse_card(s.as_str()).is_some()) {
            return false;
        }
        k += 1;
    }
    true
}

/// Whether the engine can take the equity request: every card code is blank
/// or recognized, and — when the request is otherwise valid — the board
/// holds at most five cards and enough cards remain undrawn to complete it.
pub fn rating_request_supported(req: &CalculateRatingReq) -> (r: bool)
    ensures
        r == (rating_req_model(*req).codes_well_formed() && (rating_req_model(*req).valid()
            ==> rating_req_model(*req).deal.len() <= 5 && alive_of(rating_req_model(*req)).len()
            >= rating_req_model(*req).remain())),
{
    let ghost m = rating_req_model(*req);
    if !codes_parse(req) {
        return false;
    }
    let (valid, user_cards) = calculate_rating_valid(req);
    if !valid {
        return true;
    }
    if req.deal_cards.len() > 5 {
        return false;
    }
    proof {
        lemma_request_facts(m, user_cards@);
        assert(parsed_strings(req.deal_cards@) =~= board_of(m));
        assert(parsed_strings(req.dead_cards@) =~= dead_of(m));
        assert forall|k: int|
            0 <= k < req.deal_cards@.len() implies parse_card_spec(
            (#[trigger] req.deal_cards@[k])@,
        ) >= 0 by {
            assert(m.deal[k] == req.deal_cards@[k]@);
        }
        assert forall|k: int|
            0 <= k < req.dead_cards@.len() implies parse_card_spec(
            (#[trigger] req.dead_cards@[k])@,
        ) >= 0 by {
            assert(m.dead[k] == req.dead_cards@[k]@);
        }
    }
    let (board, alive) = Evaluator {}.get_board_and_alive_cards(
        &req.deal_cards,
        &req.dead_cards,
        &user_cards,
    );
    proof {
        assert(alive@ == alive_of(m));
    }
    alive.len() >= 5 - board.len()
}

/// Whether the engine can take the outs request: every card code is blank
/// or recognized.
pub fn outs_request_supported(req: &CalculateOutsReq) -> (r: bool)
    ensures
        r == outs_req_model(*req).codes_well_formed(),
{
    let rating = req.into_rating_req();
    proof {
        assert(rating_req_model(rating) == outs_req_model(*req));
    }
    codes_parse(&rating)
}

/// No player's hand shares a card bit with a list of cards that are each
/// either outside the request's cards or on its dealt board.
pub proof fn lemma_hands_disjoint_from(m: ReqModel, ucs: Seq<CardsInfo>, cards: Seq<usize>)
    requires
        user_cards_match(m, ucs),
        all_valid(parsed_codes(m)),
        distinct_seq(parsed_codes(m)),
        parsed_codes(m).len() == m.all_codes().len(),
        forall|i: int|
            0 <= i < m.players.len() ==> #[trigger] hole_cards_of(m, i) == seq![
                parsed_codes(m)[2 * i],
                parsed_codes(m)[2 * i + 1],
            ],
        forall|j: int|
            0 <= j < m.deal.len() ==> #[trigger] board_of(m)[j] == parsed_codes(m)[2
                * m.players.len() + j],
        all_valid(cards),
        forall|k: int|
            0 <= k < cards.len() ==> !parsed_codes(m).contains(#[trigger] cards[k]) || board_of(
                m,
            ).contains(cards[k]),
    ensures
        forall|i: int|
            0 <= i < ucs.len() ==> (#[trigger] ucs[i]).hands.mask & mask_of_seq(cards) == 0,
{
    assert forall|i: int|
        0 <= i < ucs.len() implies (#[trigger] ucs[i]).hands.mask & mask_of_seq(cards) == 0 by {
        let h = ucs[i].hands;
        assert(h.cards@ == hole_cards_of(m, i));
        assert forall|k: int|
            0 <= k < cards.len() implies card_mask(#[trigger] cards[k] as int) & h.mask == 0 by {
            let c = cards[k];
            assert(!h.cards@.contains(c)) by {
                if h.cards@.contains(c) {
                    let jh = choose|jh: int| 0 <= jh < h.cards@.len() && h.cards@[jh] == c;
                    assert(h.cards@[jh] == parsed_codes(m)[2 * i + jh]);
                    assert(parsed_codes(m).contains(c));
                    assert(board_of(m).contains(c));
                    let j = choose|j: int| 0 <= j < board_of(m).len() && board_of(m)[j] == c;
                    assert(c == parsed_codes(m)[2 * m.players.len() + j]);
                    assert(2 * i + jh < 2 * m.players.len() + j);
                }
            }
            crate::hand::lemma_mask_contains(h.cards@, c as int);
            let a = card_mask(c as int);
            let hm = h.mask;
            assert(a & hm == 0 ==> hm & a == 0) by (bit_vector);
            assert(hm & a == 0 ==> a & hm == 0) by (bit_vector);
        }
        crate::hand::lemma_mask_of_seq_disjoint(cards, h.mask);
        let cm = mask_of_seq(cards);
        let hm = h.mask;
        assert(cm & hm == 0 ==> hm & cm == 0) by (bit_vector);
    }
}

/// Folds every one-card completion of the board into the accumulators, in
/// alive order: the exhaustive regime with one card to come.
fn exhaustive_singles(
    user_cards: &Vec<CardsInfo>,
    board: &Hand,
    alive: &Vec<usize>,
    win_counts: &mut Vec<u64>,
    draw_counts: &mut Vec<u64>,
    draw_count: &mut u64,
    Ghost(m): Ghost<ReqModel>,
)
    requires
        m.codes_well_formed(),
        m.valid(),
        user_cards_match(m, user_cards@),
        board.wf(),
        board.cards@ == board_of(m),
        m.deal.len() == 4,
        alive@ == alive_of(m),
        all_valid(alive@),
        distinct_seq(alive@),
        alive@.len() <= 52,
        forall|k: int|
            0 <= k < alive@.len() ==> card_mask(#[trigger] alive@[k] as int) & board.mask == 0,
        forall|k: int| 0 <= k < alive@.len() ==> !parsed_codes(m).contains(#[trigger] alive@[k]),
        all_valid(parsed_codes(m)),
        distinct_seq(parsed_codes(m)),
        parsed_codes(m).len() == m.all_codes().len(),
        forall|i: int|
            0 <= i < m.players.len() ==> #[trigger] hole_cards_of(m, i) == seq![
                parsed_codes(m)[2 * i],
                parsed_codes(m)[2 * i + 1],
            ],
        forall|j: int|
            0 <= j < m.deal.len() ==> #[trigger] board_of(m)[j] == parsed_codes(m)[2
                * m.players.len() + j],
        old(win_counts)@.len() == user_cards@.len(),
        old(draw_counts)@.len() == user_cards@.len(),
        user_cards@.len() == m.players.len() >= 2,
        forall|i: int| 0 <= i < old(win_counts)@.len() ==> #[trigger] old(win_counts)@[i] == 0,
        forall|i: int| 0 <= i < old(draw_counts)@.len() ==> #[trigger] old(draw_counts)@[i] == 0,
        *old(draw_count) == 0,
    ensures
        final(win_counts)@.len() == user_cards@.len(),
        final(draw_counts)@.len() == user_cards@.len(),
        tally_of(final(win_counts)@, final(draw_counts)@, *final(draw_count)) == exhaustive_tally(
            holes_of(m),
            board_of(m),
            alive_of(m),
            1,
        ),
        forall|i: int| 0 <= i < final(draw_counts)@.len() ==> #[trigger] final(draw_counts)@[i] <= 52,
        total_of(tally_of(final(win_counts)@, final(draw_counts)@, *final(draw_count)))
            == alive@.len(),
{
    let ghost holes = holes_of(m);
    let ghost base = board_of(m);
    let ghost av = alive_of(m);
    let ghost z = Tally::zero(user_cards@.len() as int);
    let ghost target = agg_singles(holes, base, av, 0, z);
    proof {
        assert(tally_of(win_counts@, draw_counts@, *draw_count) =~= z);
    }
    let n = user_cards.len();
    let mut i: usize = 0;
    while i < alive.len()
        invariant
            m.codes_well_formed(),
            m.valid(),
            user_cards_match(m, user_cards@),
            board.wf(),
            board.cards@ == board_of(m),
            m.deal.len() == 4,
            alive@ == av,
            av == alive_of(m),
            all_valid(av),
            distinct_seq(av),
            av.len() <= 52,
            forall|k: int|
                0 <= k < av.len() ==> card_mask(#[trigger] av[k] as int) & board.mask == 0,
            forall|k: int| 0 <= k < av.len() ==> !parsed_codes(m).contains(#[trigger] av[k]),
            all_valid(parsed_codes(m)),
            distinct_seq(parsed_codes(m)),
            parsed_codes(m).len() == m.all_codes().len(),
            forall|p: int|
                0 <= p < m.players.len() ==> #[trigger] hole_cards_of(m, p) == seq![
                    parsed_codes(m)[2 * p],
                    parsed_codes(m)[2 * p + 1],
                ],
            forall|j: int|
                0 <= j < m.deal.len() ==> #[trigger] board_of(m)[j] == parsed_codes(m)[2
                    * m.players.len() + j],
            holes == holes_of(m),
            base == board_of(m),
            n == user_cards@.len() == m.players.len() >= 2,
            i <= av.len(),
            win_counts@.len() == n,
            draw_counts@.len() == n,
            forall|p: int| 0 <= p < n ==> #[trigger] win_counts@[p] <= i,
            forall|p: int| 0 <= p < n ==> #[trigger] draw_counts@[p] <= i,
            *draw_count <= i,
            agg_singles(holes, base, av, i as int, tally_of(win_counts@, draw_counts@, *draw_count))
                == target,
        decreases av.len() - i,
    {
        let picked = alive[i];
        let single = Hand::new().add_card(picked);
        proof {
            let cm = card_mask(picked as int);
            assert((0u64 | cm) == cm) by (bit_vector);
        }
        let new_board = single.union(board);
        proof {
            assert(new_board.cards@ =~= seq![picked] + base);
            assert forall|k: int|
                0 <= k < new_board.cards@.len() implies !parsed_codes(m).contains(
                #[trigger] new_board.cards@[k],
            ) || board_of(m).contains(new_board.cards@[k]) by {
                if k > 0 {
                    assert(new_board.cards@[k] == base[k - 1]);
                    assert(board_of(m).contains(new_board.cards@[k]));
                }
            }
            lemma_hands_disjoint_from(m, user_cards@, new_board.cards@);
        }
        let strengths = crate::showdown::board_strengths(user_cards, &new_board);
        let ghost t0 = tally_of(win_counts@, draw_counts@, *draw_count);
        crate::showdown::add_to_win_count(&strengths, draw_counts, draw_count, win_counts);
        proof {
            assert(strengths@ == crate::showdown::player_strengths(holes, seq![av[i as int]]
                + base)) by {
                assert(user_cards@.map_values(|u: CardsInfo| u.hands.cards@) =~= holes);
            }
            assert(tally_of(win_counts@, draw_counts@, *draw_count) == agg_board(
                holes,
                t0,
                seq![av[i as int]] + base,
            ));
            assert(agg_singles(holes, base, av, i as int, t0) == agg_singles(
                holes,
                base,
                av,
                i + 1,
                agg_board(holes, t0, seq![av[i as int]] + base),
            ));
            let t1 = tally_of(win_counts@, draw_counts@, *draw_count);
            assert forall|p: int| 0 <= p < n implies #[trigger] win_counts@[p] <= i + 1 by {
                assert(t1.wins[p] <= t0.wins[p] + 1);
                assert(t1.wins[p] == win_counts@[p] as int);
            }
            assert forall|p: int| 0 <= p < n implies #[trigger] draw_counts@[p] <= i + 1 by {
                assert(t1.draws[p] <= t0.draws[p] + 1);
                assert(t1.draws[p] == draw_counts@[p] as int);
            }
            assert(t1.draw_boards <= t0.draw_boards + 1);
        }
        i += 1;
    }
    proof {
        let t = tally_of(win_counts@, draw_counts@, *draw_count);
        assert(agg_singles(holes, base, av, av.len() as int, t) == t);
        assert(t == target);
        lemma_zero_tally(n as int);
        crate::enumerate::lemma_agg_singles_total(holes, base, av, 0, z);
    }
}

/// Folds every two-card completion of the board into the accumulators, in
/// lexicographic order of alive positions: the exhaustive regime with two
/// cards to come.
fn exhaustive_pairs(
    user_cards: &Vec<CardsInfo>,
    board: &Hand,
    alive: &Vec<usize>,
    win_counts: &mut Vec<u64>,
    draw_counts: &mut Vec<u64>,
    draw_count: &mut u64,
    Ghost(m): Ghost<ReqModel>,
)
    requires
        m.codes_well_formed(),
        m.valid(),
        user_cards_match(m, user_cards@),
        board.wf(),
        board.cards@ == board_of(m),
        m.deal.len() == 3,
        alive@ == alive_of(m),
        all_valid(alive@),
        distinct_seq(alive@),
        alive@.len() <= 52,
        forall|k: int|
            0 <= k < alive@.len() ==> card_mask(#[trigger] alive@[k] as int) & board.mask == 0,
        forall|k: int| 0 <= k < alive@.len() ==> !parsed_codes(m).contains(#[trigger] alive@[k]),
        all_valid(parsed_codes(m)),
        distinct_seq(parsed_codes(m)),
        parsed_codes(m).len() == m.all_codes().len(),
        forall|i: int|
            0 <= i < m.players.len() ==> #[trigger] hole_cards_of(m, i) == seq![
                parsed_codes(m)[2 * i],
                parsed_codes(m)[2 * i + 1],
            ],
        forall|j: int|
            0 <= j < m.deal.len() ==> #[trigger] board_of(m)[j] == parsed_codes(m)[2
                * m.players.len() + j],
        old(win_counts)@.len() == user_cards@.len(),
        old(draw_counts)@.len() == user_cards@.len(),
        user_cards@.len() == m.players.len() >= 2,
        forall|i: int| 0 <= i < old(win_counts)@.len() ==> #[trigger] old(win_counts)@[i] == 0,
        forall|i: int| 0 <= i < old(draw_counts)@.len() ==> #[trigger] old(draw_counts)@[i] == 0,
        *old(draw_count) == 0,
    ensures
        final(win_counts)@.len() == user_cards@.len(),
        final(draw_counts)@.len() == user_cards@.len(),
        tally_of(final(win_counts)@, final(draw_counts)@, *final(draw_count)) == exhaustive_tally(
            holes_of(m),
            board_of(m),
            alive_of(m),
            2,
        ),
        forall|i: int|
            0 <= i < final(draw_counts)@.len() ==> #[trigger] final(draw_counts)@[i] <= 2704,
        total_of(tally_of(final(win_counts)@, final(draw_counts)@, *final(draw_count)))
            == pairs_from(alive@.len() as int, 0),
{
    let ghost holes = holes_of(m);
    let ghost base = board_of(m);
    let ghost av = alive_of(m);
    let ghost z = Tally::zero(user_cards@.len() as int);
    let ghost target = agg_pairs(holes, base, av, 0, z);
    let ghost an = av.len() as int;
    proof {
        assert(tally_of(win_counts@, draw_counts@, *draw_count) =~= z);
        crate::enumerate::lemma_pairs_from_bounds(an, 0);
        assert(an * an <= 52 * 52) by (nonlinear_arith)
            requires
                0 <= an <= 52,
        ;
        assert((an - 0) * an == an * an);
    }
    let n = user_cards.len();
    let ghost mut done: int = 0;
    let mut i: usize = 0;
    while i < alive.len()
        invariant
            m.codes_well_formed(),
            m.valid(),
            user_cards_match(m, user_cards@),
            board.wf(),
            board.cards@ == board_of(m),
            m.deal.len() == 3,
            alive@ == av,
            av == alive_of(m),
            all_valid(av),
            distinct_seq(av),
            av.len() <= 52,
            an == av.len() as int,
            forall|k: int|
                0 <= k < av.len() ==> card_mask(#[trigger] av[k] as int) & board.mask == 0,
            forall|k: int| 0 <= k < av.len() ==> !parsed_codes(m).contains(#[trigger] av[k]),
            all_valid(parsed_codes(m)),
            distinct_seq(parsed_codes(m)),
            parsed_codes(m).len() == m.all_codes().len(),
            forall|p: int|
                0 <= p < m.players.len() ==> #[trigger] hole_cards_of(m, p) == seq![
                    parsed_codes(m)[2 * p],
                    parsed_codes(m)[2 * p + 1],
                ],
            forall|j: int|
                0 <= j < m.deal.len() ==> #[trigger] board_of(m)[j] == parsed_codes(m)[2
                    * m.players.len() + j],
            holes == holes_of(m),
            base == board_of(m),
            n == user_cards@.len() == m.players.len() >= 2,
            i <= av.len(),
            win_counts@.len() == n,
            draw_counts@.len() == n,
            done == pairs_from(an, 0) - pairs_from(an, i as int),
            0 <= done <= 2704,
            0 <= pairs_from(an, 0) <= 2704,
            forall|p: int| 0 <= p < n ==> #[trigger] win_counts@[p] <= done,
            forall|p: int| 0 <= p < n ==> #[trigger] draw_counts@[p] <= done,
            *draw_count <= done,
            agg_pairs(holes, base, av, i as int, tally_of(win_counts@, draw_counts@, *draw_count))
                == target,
        decreases av.len() - i,
    {
        let first = alive[i];
        let mut j: usize = i + 1;
        proof {
            crate::enumerate::lemma_pairs_from_bounds(an, i as int);
            crate::enumerate::lemma_pairs_from_bounds(an, i + 1);
        }
        while j < alive.len()
            invariant
                m.codes_well_formed(),
                m.valid(),
                user_cards_match(m, user_cards@),
                board.wf(),
                board.cards@ == board_of(m),
                m.deal.len() == 3,
                alive@ == av,
            av == alive_of(m),
                all_valid(av),
                distinct_seq(av),
                av.len() <= 52,
                an == av.len() as int,
                forall|k: int|
                    0 <= k < av.len() ==> card_mask(#[trigger] av[k] as int) & board.mask == 0,
                forall|k: int| 0 <= k < av.len() ==> !parsed_codes(m).contains(#[trigger] av[k]),
                all_valid(parsed_codes(m)),
                distinct_seq(parsed_codes(m)),
                parsed_codes(m).len() == m.all_codes().len(),
                forall|p: int|
                    0 <= p < m.players.len() ==> #[trigger] hole_cards_of(m, p) == seq![
                        parsed_codes(m)[2 * p],
                        parsed_codes(m)[2 * p + 1],
                    ],
                forall|jj: int|
                    0 <= jj < m.deal.len() ==> #[trigger] board_of(m)[jj] == parsed_codes(m)[2
                        * m.players.len() + jj],
                holes == holes_of(m),
                base == board_of(m),
                n == user_cards@.len() == m.players.len() >= 2,
                i < av.len(),
                first == av[i as int],
                i < j <= av.len(),
                win_counts@.len() == n,
                draw_counts@.len() == n,
                done == pairs_from(an, 0) - pairs_from(an, i as int) + (j - i - 1),
                0 <= done <= 2704,
                0 <= pairs_from(an, 0) <= 2704,
                forall|p: int| 0 <= p < n ==> #[trigger] win_counts@[p] <= done,
                forall|p: int| 0 <= p < n ==> #[trigger] draw_counts@[p] <= done,
                *draw_count <= done,
                agg_pairs(
                    holes,
                    base,
                    av,
                    i + 1,
                    agg_pairs_inner(
                        holes,
                        base,
                        av,
                        i as int,
                        j as int,
                        tally_of(win_counts@, draw_counts@, *draw_count),
                    ),
                ) == target,
            decreases av.len() - j,
        {
            let second = alive[j];
            let picks = Hand::new().add_card(first);
            proof {
                let cm = card_mask(first as int);
                assert((0u64 | cm) == cm) by (bit_vector);
                assert(!picks.cards@.contains(second));
            }
            let picks = picks.add_card(second);
            proof {
                let b0 = card_mask(first as int);
                let b1 = card_mask(second as int);
                let bm = board.mask;
                assert(b0 & bm == 0 && b1 & bm == 0 ==> (b0 | b1) & bm == 0) by (bit_vector);
            }
            let new_board = picks.union(board);
            proof {
                assert(new_board.cards@ =~= seq![av[i as int], av[j as int]] + base);
                assert forall|k: int|
                    0 <= k < new_board.cards@.len() implies !parsed_codes(m).contains(
                    #[trigger] new_board.cards@[k],
                ) || board_of(m).contains(new_board.cards@[k]) by {
                    if k >= 2 {
                        assert(new_board.cards@[k] == base[k - 2]);
                        assert(board_of(m).contains(new_board.cards@[k]));
                    }
                }
                lemma_hands_disjoint_from(m, user_cards@, new_board.cards@);
                crate::enumerate::lemma_pairs_from_bounds(an, i as int);
                crate::enumerate::lemma_pairs_from_bounds(an, i + 1);
            }
            let strengths = crate::showdown::board_strengths(user_cards, &new_board);
            let ghost t0 = tally_of(win_counts@, draw_counts@, *draw_count);
            crate::showdown::add_to_win_count(&strengths, draw_counts, draw_count, win_counts);
            proof {
                let b = seq![av[i as int], av[j as int]] + base;
                assert(strengths@ == crate::showdown::player_strengths(holes, b)) by {
                    assert(user_cards@.map_values(|u: CardsInfo| u.hands.cards@) =~= holes);
                }
                assert(tally_of(win_counts@, draw_counts@, *draw_count) == agg_board(
                    holes,
                    t0,
                    b,
                ));
                assert(agg_pairs_inner(holes, base, av, i as int, j as int, t0)
                    == agg_pairs_inner(holes, base, av, i as int, j + 1, agg_board(holes, t0, b)));
                done = done + 1;
                let t1 = tally_of(win_counts@, draw_counts@, *draw_count);
                assert forall|p: int| 0 <= p < n implies #[trigger] win_counts@[p] <= done by {
                    assert(t1.wins[p] <= t0.wins[p] + 1);
                    assert(t1.wins[p] == win_counts@[p] as int);
                }
                assert forall|p: int| 0 <= p < n implies #[trigger] draw_counts@[p] <= done by {
                    assert(t1.draws[p] <= t0.draws[p] + 1);
                    assert(t1.draws[p] == draw_counts@[p] as int);
                }
                assert(t1.draw_boards <= t0.draw_boards + 1);
                assert(pairs_from(an, i as int) == (an - i - 1) + pairs_from(an, i + 1));
                assert(pairs_from(an, i + 1) >= 0);
                assert(done <= pairs_from(an, 0) - pairs_from(an, i + 1));
                assert(done <= pairs_from(an, 0) <= 2704);
            }
            j += 1;
        }
        proof {
            let t = tally_of(win_counts@, draw_counts@, *draw_count);
            assert(agg_pairs_inner(holes, base, av, i as int, av.len() as int, t) == t);
            assert(pairs_from(an, i as int) == (an - i - 1) + pairs_from(an, i + 1));
            crate::enumerate::lemma_pairs_from_bounds(an, i + 1);
        }
        i += 1;
    }
    proof {
        let t = tally_of(win_counts@, draw_counts@, *draw_count);
        assert(agg_pairs(holes, base, av, av.len() as int, t) == t);
        assert(t == target);
        lemma_zero_tally(n as int);
        crate::enumerate::lemma_agg_pairs_total(holes, base, av, 0, z);
        assert(pairs_from(an, an) == 0);
        crate::enumerate::lemma_pairs_from_bounds(an, 0);
    }
}

/// One player's outs: the alive cards that win the next street for the
/// player outright, then the alive cards that tie it, each list in alive
/// order.
pub open spec fn outs_of(m: ReqModel, p: int) -> Seq<usize> {
    outs_wins_upto(holes_of(m), board_of(m), alive_of(m), p, alive_of(m).len() as int)
        + outs_draws_upto(holes_of(m), board_of(m), alive_of(m), p, alive_of(m).len() as int)
}

/// The same outs as two-character card codes.
pub open spec fn outs_codes_of(m: ReqModel, p: int) -> Seq<Seq<char>> {
    outs_of(m, p).map_values(|c: usize| card_code_spec(c as int))
}

/// What an outs response promises. A request that is invalid or has fewer
/// than three dealt cards is rejected with the invalid-input code. Anything
/// else gets code 0 and one out-list per player: empty on a complete board,
/// otherwise exactly the cards that win or tie the next street for the
/// player, winning cards first.
pub open spec fn outs_rsp_ok(m: ReqModel, rsp: CalculateOutsRsp) -> bool {
    &&& (!m.valid() || m.deal.len() < 3) ==> rsp.code == ERROR_INVALID && rsp.outs@.len() == 0
        && rsp.msg@
        == "eq has duplicates or has empty string input,or client.len is lt 2 or req deal cards should gt 2"@
    &&& (m.valid() && m.deal.len() >= 3) ==> {
        &&& rsp.code == 0
        &&& rsp.msg@ == Seq::<char>::empty()
        &&& rsp.outs@.len() == m.players.len()
        &&& forall|i: int|
            0 <= i < rsp.outs@.len() ==> (#[trigger] rsp.outs@[i]).uid@ == m.players[i].uid
        &&& m.deal.len() < 5 ==> forall|i: int|
            0 <= i < rsp.outs@.len() ==> (#[trigger] rsp.outs@[i]).cards@.map_values(
                |s: String| s@,
            ) == outs_codes_of(m, i)
        &&& m.deal.len() >= 5 ==> forall|i: int|
            0 <= i < rsp.outs@.len() ==> (#[trigger] rsp.outs@[i]).cards@.len() == 0
    }
}

impl Evaluator {
    fn calculate_outs_impl(&self, req: CalculateOutsReq) -> (rsp: CalculateOutsRsp)
        requires
            outs_req_model(req).codes_well_formed(),
        ensures
            outs_rsp_ok(outs_req_model(req), rsp),
    {
        let ghost m = outs_req_model(req);
        let temp = req.into_rating_req();
        let (valid, user_cards) = calculate_rating_valid(&temp);
        if !valid || req.deal_cards.len() < 3 {
            return CalculateOutsRsp {
                code: ERROR_INVALID,
                outs: Vec::new(),
                msg: String::from_str(
                    "eq has duplicates or has empty string input,or client.len is lt 2 or req deal cards should gt 2",
                ),
            };
        }
        let n = user_cards.len();
        let mut outs_vec: Vec<Outs> = Vec::new();
        if req.deal_cards.len() < 5 {
            proof {
                lemma_request_facts(m, user_cards@);
                assert(parsed_strings(req.deal_cards@) =~= board_of(m));
                assert(parsed_strings(req.dead_cards@) =~= dead_of(m));
                assert forall|k: int|
                    0 <= k < req.deal_cards@.len() implies parse_card_spec(
                    (#[trigger] req.deal_cards@[k])@,
                ) >= 0 by {
                    assert(m.deal[k] == req.deal_cards@[k]@);
                }
                assert forall|k: int|
                    0 <= k < req.dead_cards@.len() implies parse_card_spec(
                    (#[trigger] req.dead_cards@[k])@,
                ) >= 0 by {
                    assert(m.dead[k] == req.dead_cards@[k]@);
                }
            }
            let (board, alive) = self.get_board_and_alive_cards(
                &req.deal_cards,
                &req.dead_cards,
                &user_cards,
            );
            let ghost av = alive_of(m);
            let ghost used = used_mask(m);
            proof {
                assert(board.cards@ == board_of(m));
                assert(hands_mask(user_cards@) | board.mask | mask_of_seq(dead_of(m)) == used);
                assert(alive@ == av);
                crate::cards::lemma_alive_upto_props(used, 52);
                assert(distinct_seq(av)) by {
                    assert forall|k1: int, k2: int|
                        0 <= k1 < k2 < av.len() implies av[k1] != av[k2] by {}
                }
                assert forall|k: int| 0 <= k < av.len() implies !parsed_codes(m).contains(
                    #[trigger] av[k],
                ) by {
                    crate::hand::lemma_mask_contains(parsed_codes(m), av[k] as int);
                }
                assert forall|k: int|
                    0 <= k < av.len() implies card_mask(#[trigger] av[k] as int) & board.mask
                    == 0 by {
                    if board.cards@.contains(av[k]) {
                        let j = choose|j: int|
                            0 <= j < board.cards@.len() && board.cards@[j] == av[k];
                        assert(parsed_codes(m)[2 * m.players.len() + j] == av[k]);
                        assert(parsed_codes(m).contains(av[k]));
                    }
                    crate::hand::lemma_mask_contains(board.cards@, av[k] as int);
                }
            }
            let mut p: usize = 0;
            while p < n
                invariant
                    m.codes_well_formed(),
                    m.valid(),
                    m.deal.len() < 5,
                    user_cards_match(m, user_cards@),
                    board.wf(),
                    board.cards@ == board_of(m),
                    alive@ == av,
                    av == alive_of(m),
                    all_valid(av),
                    distinct_seq(av),
                    forall|k: int|
                        0 <= k < av.len() ==> card_mask(#[trigger] av[k] as int) & board.mask == 0,
                    forall|k: int| 0 <= k < av.len() ==> !parsed_codes(m).contains(#[trigger] av[k]),
                    all_valid(parsed_codes(m)),
                    distinct_seq(parsed_codes(m)),
                    parsed_codes(m).len() == m.all_codes().len(),
                    forall|i: int|
                        0 <= i < m.players.len() ==> #[trigger] hole_cards_of(m, i) == seq![
                            parsed_codes(m)[2 * i],
                            parsed_codes(m)[2 * i + 1],
                        ],
                    forall|j: int|
                        0 <= j < m.deal.len() ==> #[trigger] board_of(m)[j] == parsed_codes(m)[2
                            * m.players.len() + j],
                    n == user_cards@.len() == m.players.len() >= 2,
                    p <= n,
                    outs_vec@.len() == p,
                    forall|i: int|
                        0 <= i < p ==> (#[trigger] outs_vec@[i]).uid@ == m.players[i].uid,
                    forall|i: int|
                        0 <= i < p ==> (#[trigger] outs_vec@[i]).cards@.map_values(|s: String| s@)
                            == outs_codes_of(m, i),
                decreases n - p,
            {
                let (wins, draws) = crate::outs::player_outs(
                    &user_cards,
                    &board,
                    &alive,
                    p,
                    Ghost(m),
                );
                let mut cards = codes_of(&wins);
                let mut more = codes_of(&draws);
                cards.append(&mut more);
                proof {
                    assert(cards@.map_values(|s: String| s@) =~= outs_codes_of(m, p as int));
                }
                outs_vec.push(Outs { cards, uid: user_cards[p].uid.clone() });
                p += 1;
            }
        } else {
            let mut p: usize = 0;
            while p < n
                invariant
                    user_cards_match(m, user_cards@),
                    n == user_cards@.len() == m.players.len(),
                    p <= n,
                    outs_vec@.len() == p,
                    forall|i: int|
                        0 <= i < p ==> (#[trigger] outs_vec@[i]).uid@ == m.players[i].uid,
                    forall|i: int| 0 <= i < p ==> (#[trigger] outs_vec@[i]).cards@.len() == 0,
                decreases n - p,
            {
                outs_vec.push(Outs { cards: Vec::new(), uid: user_cards[p].uid.clone() });
                p += 1;
            }
        }
        CalculateOutsRsp { code: 0, outs: outs_vec, msg: String::new() }
    }
}

/// Renders a list of card indices as their two-character codes.
fn codes_of(cards: &Vec<usize>) -> (r: Vec<String>)
    requires
        all_valid(cards@),
    ensures
        r@.len() == cards@.len(),
        forall|i: int| 0 <= i < r@.len() ==> (#[trigger] r@[i])@ == card_code_spec(
            cards@[i] as int,
        ),
{
    let mut r: Vec<String> = Vec::new();
    let mut k: usize = 0;
    while k < cards.len()
        invariant
            k <= cards@.len(),
            all_valid(cards@),
            r@.len() == k,
            forall|i: int| 0 <= i < k ==> (#[trigger] r@[i])@ == card_code_spec(cards@[i] as int),
        decreases cards@.len() - k,
    {
        r.push(crate::cards::card_code(cards[k]));
        k += 1;
    }
    r
}

/// The zero tally has zero counts and zero total.
pub proof fn lemma_zero_tally(n: int)
    requires
        0 <= n,
    ensures
        sum_seq(Tally::zero(n).wins) == 0,
        total_of(Tally::zero(n)) == 0,
    decreases n,
{
    let w = Tally::zero(n).wins;
    if n == 0 {
        assert(w.len() == 0);
    } else {
        lemma_zero_tally(n - 1);
        assert(w.drop_last() =~= Tally::zero(n - 1).wins);
    }
}

/// The parsed card indices of a list of code strings.
pub open spec fn parsed_strings(v: Seq<String>) -> Seq<usize> {
    v.map_values(|s: String| parse_card_spec(s@) as usize)
}

/// Parses a list of distinct card codes into one hand.
fn parse_hand(codes: &Vec<String>) -> (h: Hand)
    requires
        forall|k: int| 0 <= k < codes@.len() ==> parse_card_spec((#[trigger] codes@[k])@) >= 0,
        distinct_seq(parsed_strings(codes@)),
    ensures
        h.wf(),
        h.cards@ == parsed_strings(codes@),
{
    let mut h = Hand::new();
    let mut k: usize = 0;
    while k < codes.len()
        invariant
            k <= codes@.len(),
            forall|j: int| 0 <= j < codes@.len() ==> parse_card_spec((#[trigger] codes@[j])@) >= 0,
            distinct_seq(parsed_strings(codes@)),
            h.wf(),
            h.cards@ == parsed_strings(codes@).subrange(0, k as int),
        decreases codes@.len() - k,
    {
        let c = parse_card(codes[k].as_str()).unwrap();
        proof {
            assert(parsed_strings(codes@)[k as int] == c);
            if h.cards@.contains(c) {
                let j = choose|j: int| 0 <= j < h.cards@.len() && h.cards@[j] == c;
                assert(parsed_strings(codes@)[j] == c);
                assert(false);
            }
        }
        let h2 = h.add_card(c);
        proof {
            assert(h2.cards@ =~= parsed_strings(codes@).subrange(0, k + 1));
        }
        h = h2;
        k += 1;
    }
    proof {
        assert(parsed_strings(codes@).subrange(0, codes@.len() as int) =~= parsed_strings(codes@));
    }
    h
}

} // verus!
