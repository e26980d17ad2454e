//! Request and response shapes of the engine, and their mathematical view:
//! a request is modelled as the character sequences of its card codes and
//! player identifiers, which every contract of the engine speaks over.

use vstd::prelude::*;

use crate::cards::parse_card_spec;
use crate::hand::Hand;

verus! {

/// A player: an opaque identifier and exactly two hole cards.
pub struct UserCards {
    /// The two hole-card codes.
    pub hands: [String; 2],
    /// The player's identifier; uniqueness is assumed by the caller.
    pub uid: String,
}

/// An equity request: at least two players, 0-5 already-dealt community
/// cards, and any number of dead cards known to be out of play.
pub struct CalculateRatingReq {
    /// The players, in response order.
    pub clients: Vec<UserCards>,
    /// The already-dealt community cards.
    pub deal_cards: Vec<String>,
    /// Cards out of play that are not part of the board.
    pub dead_cards: Vec<String>,
}

/// An equity response: code 0 on success, per-player rates over 10000.
pub struct CalculateRatingRsp {
    /// 0 on success; the invalid-input code on a rejected request.
    pub code: u32,
    /// One rate per player, in request order.
    pub clients_rate: Vec<ClientRate>,
    /// Empty on success, an explanation on rejection.
    pub msg: String,
}

/// One player's equity rate.
pub struct ClientRate {
    /// The player's identifier.
    pub uid: String,
    /// The rate as an integer numerator over 10000.
    pub rate: u64,
}

/// An outs request: same shape as an equity request; at least three dealt
/// community cards are needed for a non-empty result.
pub struct CalculateOutsReq {
    /// The players, in response order.
    pub clients: Vec<UserCards>,
    /// The already-dealt community cards.
    pub deal_cards: Vec<String>,
    /// Cards out of play that are not part of the board.
    pub dead_cards: Vec<String>,
}

/// An outs response: code 0 on success, per-player out-card lists.
pub struct CalculateOutsRsp {
    /// 0 on success; the invalid-input code on a rejected request.
    pub code: u32,
    /// One out-list per player: winning cards first, then tying cards.
    pub outs: Vec<Outs>,
    /// Empty on success, an explanation on rejection.
    pub msg: String,
}

/// One player's out cards.
pub struct Outs {
    /// The out-card codes: outright-winning cards first, then tying cards.
    pub cards: Vec<String>,
    /// The player's identifier.
    pub uid: String,
}

/// A named greeting payload.
pub struct Info {
    pub(crate) username: String,
}

/// A player with the hole cards parsed and pre-combined into one hand.
pub struct CardsInfo {
    /// The two hole cards as one hand.
    pub hands: Hand,
    /// The player's identifier.
    pub uid: String,
}

/// The mathematical view of one player.
pub struct PlayerModel {
    /// The identifier's characters.
    pub uid: Seq<char>,
    /// The first hole-card code.
    pub hole0: Seq<char>,
    /// The second hole-card code.
    pub hole1: Seq<char>,
}

/// The mathematical view of a request: players, dealt board, dead cards,
/// each card as its code's characters.
pub struct ReqModel {
    /// The players in order.
    pub players: Seq<PlayerModel>,
    /// The dealt community-card codes.
    pub deal: Seq<Seq<char>>,
    /// The dead-card codes.
    pub dead: Seq<Seq<char>>,
}

/// The view of one player value.
pub open spec fn player_model(u: UserCards) -> PlayerModel {
    PlayerModel { uid: u.uid@, hole0: u.hands@[0]@, hole1: u.hands@[1]@ }
}

/// The view of an equity request.
pub open spec fn rating_req_model(req: CalculateRatingReq) -> ReqModel {
    ReqModel {
        players: req.clients@.map_values(|u: UserCards| player_model(u)),
        deal: req.deal_cards@.map_values(|s: String| s@),
        dead: req.dead_cards@.map_values(|s: String| s@),
    }
}

/// The view of an outs request.
pub open spec fn outs_req_model(req: CalculateOutsReq) -> ReqModel {
    ReqModel {
        players: req.clients@.map_values(|u: UserCards| player_model(u)),
        deal: req.deal_cards@.map_values(|s: String| s@),
        dead: req.dead_cards@.map_values(|s: String| s@),
    }
}

impl ReqModel {
    /// Every card code of the request, flattened: the players' hole cards in
    /// player order, then the dealt cards, then the dead cards.
    pub open spec fn all_codes(self) -> Seq<Seq<char>> {
        Seq::new(
            2 * self.players.len(),
            |k: int|
                if k % 2 == 0 {
                    self.players[k / 2].hole0
                } else {
                    self.players[k / 2].hole1
                },
        ) + self.deal + self.dead
    }

    /// Every card code is empty or a recognized two-character code. Codes
    /// that are neither are a defect of the caller: the engine is free to
    /// abort on them, so they are excluded up front.
    pub open spec fn codes_well_formed(self) -> bool {
        forall|k: int|
            0 <= k < self.all_codes().len() ==> (#[trigger] self.all_codes()[k]).len() == 0
                || parse_card_spec(self.all_codes()[k]) >= 0
    }

    /// A request is valid when it has at least two players and no card code
    /// anywhere in it repeats or is blank.
    pub open spec fn valid(self) -> bool {
        &&& self.players.len() >= 2
        &&& forall|k1: int, k2: int|
            0 <= k1 < k2 < self.all_codes().len() ==> self.all_codes()[k1] != self.all_codes()[k2]
        &&& forall|k: int| 0 <= k < self.all_codes().len() ==> (#[trigger] self.all_codes()[k]).len() != 0
    }

    /// How many community cards remain to be dealt.
    pub open spec fn remain(self) -> int {
        5 - self.deal.len()
    }
}

impl CalculateOutsReq {
    /// The same players, board and dead cards as an equity request.
    pub fn into_rating_req(&self) -> (r: CalculateRatingReq)
        ensures
            rating_req_model(r) == outs_req_model(*self),
    {
        let mut clients: Vec<UserCards> = Vec::new();
        let mut k: usize = 0;
        while k < self.clients.len()
            invariant
                k <= self.clients@.len(),
                clients@.len() == k,
                forall|i: int|
                    0 <= i < k ==> player_model(#[trigger] clients@[i]) == player_model(
                        self.clients@[i],
                    ),
            decreases self.clients@.len() - k,
        {
            let c = &self.clients[k];
            let copied = UserCards {
                hands: [c.hands[0].clone(), c.hands[1].clone()],
                uid: c.uid.clone(),
            };
            proof {
                assert(copied.hands@ =~= seq![c.hands@[0], c.hands@[1]]);
                assert(player_model(copied) == player_model(self.clients@[k as int]));
            }
            clients.push(copied);
            k += 1;
        }
        let deal_cards = clone_strings(&self.deal_cards);
        let dead_cards = clone_strings(&self.dead_cards);
        let r = CalculateRatingReq { clients, deal_cards, dead_cards };
        proof {
            assert(rating_req_model(r).players =~= outs_req_model(*self).players);
            assert(rating_req_model(r).deal =~= outs_req_model(*self).deal);
            assert(rating_req_model(r).dead =~= outs_req_model(*self).dead);
        }
        r
    }
}

/// Copies a list of strings.
pub fn clone_strings(v: &Vec<String>) -> (r: Vec<String>)
    ensures
        r@.map_values(|s: String| s@) == v@.map_values(|s: String| s@),
        r@.len() == v@.len(),
{
    let mut r: Vec<String> = Vec::new();
    let mut k: usize = 0;
    while k < v.len()
        invariant
            k <= v@.len(),
            r@.len() == k,
            forall|i: int| 0 <= i < k ==> (#[trigger] r@[i])@ == v@[i]@,
        decreases v@.len() - k,
    {
        r.push(v[k].clone());
        k += 1;
    }
    proof {
        assert(r@.map_values(|s: String| s@) =~= v@.map_values(|s: String| s@));
    }
    r
}

} // verus!
