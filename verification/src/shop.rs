//! The card shop: coins, offer sets that restock at random, and buying cards.

use vstd::prelude::*;
use crate::cards::{Card, CardCatalog, CardRarity, PlayerCardInventory, SortedCardHandles};
use crate::pieces::LogPiece;
use crate::players::owns_pieces;
use crate::rng::{choose_from_iter, choose_from_slice, chosen_from, roll_below};
use crate::tiles::{Board, LogTile, TileType};

verus! {

/// How likely each rarity is when a shop slot restocks: a rarity's weight
/// over the sum of all weights.
#[derive(Debug, Clone, Copy, PartialEq, Eq, Structural)]
pub struct PlayerShopLuckStats {
    pub legendary: u32,
    pub epic: u32,
    pub rare: u32,
    pub common: u32,
}

impl Default for PlayerShopLuckStats {
    fn default() -> (r: PlayerShopLuckStats)
        ensures
            r == (PlayerShopLuckStats { legendary: 1, epic: 2, rare: 5, common: 10 }),
    {
        PlayerShopLuckStats { legendary: 1, epic: 2, rare: 5, common: 10 }
    }
}

impl PlayerShopLuckStats {
    pub open spec fn total(&self) -> int {
        self.common + self.rare + self.epic + self.legendary
    }
}

/// The rarity that a roll in `0..total` stands for: the first `common`
/// rolls are common, the next `rare` rare, the next `epic` epic, and the
/// rest legendary.
pub open spec fn rarity_for_roll(stats: PlayerShopLuckStats, roll: int) -> CardRarity {
    if roll < stats.common {
        CardRarity::Common
    } else if roll < stats.rare + stats.common {
        CardRarity::Rare
    } else if roll < stats.epic + stats.rare + stats.common {
        CardRarity::Epic
    } else {
        CardRarity::Legendary
    }
}

/// Each rarity owns a run of consecutive rolls as long as its weight:
/// common the first `common` rolls, then rare, epic and legendary in turn.
pub proof fn lemma_roll_intervals(stats: PlayerShopLuckStats, roll: int)
    requires
        0 <= roll < stats.total(),
    ensures
        (rarity_for_roll(stats, roll) == CardRarity::Common) == (roll < stats.common),
        (rarity_for_roll(stats, roll) == CardRarity::Rare) == (stats.common <= roll < stats.common
            + stats.rare),
        (rarity_for_roll(stats, roll) == CardRarity::Epic) == (stats.common + stats.rare <= roll
            < stats.common + stats.rare + stats.epic),
        (rarity_for_roll(stats, roll) == CardRarity::Legendary) == (stats.common + stats.rare
            + stats.epic <= roll),
        rarity_for_roll(stats, roll) != CardRarity::Never,
{
}

/// The card `c` can fill a restocked slot: for some roll, it is in the pool
/// of the roll's rarity, or that pool is empty and `c` is any card at all.
pub open spec fn offer_possible(sorted: SortedCardHandles, stats: PlayerShopLuckStats, c: u64) -> bool {
    exists|roll: int|
        0 <= roll < stats.total() && {
            let pool = sorted.pool(#[trigger] rarity_for_roll(stats, roll));
            ||| pool.len() > 0 && pool.contains(c)
            ||| pool.len() == 0 && sorted.all_cards@.contains(c)
        }
}

/// Restocking cannot fail: the weights sum to a positive number that fits
/// a `u32`, and every rarity that can be rolled has cards, or there are
/// cards at all.
pub open spec fn restock_defined(sorted: SortedCardHandles, stats: PlayerShopLuckStats) -> bool {
    &&& 0 < stats.total() <= u32::MAX
    &&& sorted.all_cards@.len() > 0 || {
        &&& stats.common > 0 ==> sorted.common_cards@.len() > 0
        &&& stats.rare > 0 ==> sorted.rare_cards@.len() > 0
        &&& stats.epic > 0 ==> sorted.epic_cards@.len() > 0
        &&& stats.legendary > 0 ==> sorted.legendary_cards@.len() > 0
    }
}

/// Three offered cards, and when they restock on their own.
#[derive(Debug, Clone, Copy, PartialEq, Eq)]
pub struct ShopOfferSet {
    pub cards_offered: [Option<u64>; 3],
    pub turns_until_auto_restock: u32,
    /// The number of turns between two restocks.
    pub auto_restock_cooldown: u32,
}

impl Default for ShopOfferSet {
    fn default() -> (r: ShopOfferSet)
        ensures
            r.cards_offered@ == seq![None::<u64>, None::<u64>, None::<u64>],
            r.turns_until_auto_restock == 0,
            r.auto_restock_cooldown == 0,
    {
        let r = ShopOfferSet {
            cards_offered: [None, None, None],
            turns_until_auto_restock: 0,
            auto_restock_cooldown: 0,
        };
        proof {
            assert(r.cards_offered@ =~= seq![None::<u64>, None::<u64>, None::<u64>]);
        }
        r
    }
}

/// The set after a restock: it waits a full cooldown again, and every slot
/// holds a card that the shop could offer.
pub open spec fn restocked(
    new: ShopOfferSet,
    old: ShopOfferSet,
    sorted: SortedCardHandles,
    stats: PlayerShopLuckStats,
) -> bool {
    &&& new.turns_until_auto_restock == old.auto_restock_cooldown
    &&& new.auto_restock_cooldown == old.auto_restock_cooldown
    &&& forall|s: int|
        0 <= s < 3 ==> (#[trigger] new.cards_offered@[s]) is Some && offer_possible(
            sorted,
            stats,
            new.cards_offered@[s]->0,
        )
}

impl ShopOfferSet {
    /// The set, restocking first after `initial_turns_to_restock` turns and
    /// then every `ordinary_turns_to_restock` turns.
    pub fn with_restock_data(self, initial_turns_to_restock: u32, ordinary_turns_to_restock: u32) -> (r: ShopOfferSet)
        ensures
            r.cards_offered == self.cards_offered,
            r.turns_until_auto_restock == initial_turns_to_restock,
            r.auto_restock_cooldown == ordinary_turns_to_restock,
    {
        let mut s = self;
        s.turns_until_auto_restock = initial_turns_to_restock;
        s.auto_restock_cooldown = ordinary_turns_to_restock;
        s
    }

    /// Fills each slot with a card of a randomly rolled rarity, or with any
    /// card when no card has that rarity, and waits a full cooldown again.
    /// Each roll is drawn from `0..raffle_total(stats)`, the pool searched is
    /// `pool_for_roll` of that roll, and the slot gets `slot_card` of the draws.
    pub fn restock(&mut self, sorted_cards: &SortedCardHandles, stats: &PlayerShopLuckStats)
        requires
            restock_defined(*sorted_cards, *stats),
        ensures
            restocked(*final(self), *old(self), *sorted_cards, *stats),
    {
        let raffle_range = raffle_total(stats);
        self.turns_until_auto_restock = self.auto_restock_cooldown;
        let mut slot: usize = 0;
        while slot < 3
            invariant
                restock_defined(*sorted_cards, *stats),
                raffle_range == stats.total(),
                slot <= 3,
                self.turns_until_auto_restock == old(self).auto_restock_cooldown,
                self.auto_restock_cooldown == old(self).auto_restock_cooldown,
                forall|s: int|
                    0 <= s < slot ==> (#[trigger] self.cards_offered@[s]) is Some && offer_possible(
                        *sorted_cards,
                        *stats,
                        self.cards_offered@[s]->0,
                    ),
            decreases 3 - slot,
        {
            let rolled_num = roll_below(raffle_range).unwrap();
            let pool = pool_for_roll(sorted_cards, stats, rolled_num);
            let from_pool = choose_from_iter(pool);
            let from_all = if from_pool.is_none() {
                proof {
                    lemma_roll_intervals(*stats, rolled_num as int);
                }
                choose_from_slice(&sorted_cards.all_cards)
            } else {
                None
            };
            let chosen = slot_card(sorted_cards, stats, rolled_num, from_pool, from_all);
            let ghost before = self.cards_offered@;
            self.cards_offered[slot] = Some(chosen);
            proof {
                assert forall|s: int| 0 <= s < slot + 1 implies (#[trigger] self.cards_offered@[s]) is Some && offer_possible(
                    *sorted_cards,
                    *stats,
                    self.cards_offered@[s]->0,
                ) by {
                    if s < slot {
                        assert(self.cards_offered@[s] == before[s]);
                    }
                }
            }
            slot = slot + 1;
        }
    }
}

/// The number of rolls a restock draws from: the sum of the four weights.
pub fn raffle_total(stats: &PlayerShopLuckStats) -> (r: u32)
    requires
        stats.total() <= u32::MAX,
    ensures
        r == stats.total(),
{
    stats.common + stats.rare + stats.epic + stats.legendary
}

/// The pool of cards of the rarity that `roll` stands for.
pub fn pool_for_roll<'a>(sorted: &'a SortedCardHandles, stats: &PlayerShopLuckStats, roll: u32) -> (r: &'a Vec<u64>)
    requires
        roll < stats.total(),
    ensures
        r@ == sorted.pool(rarity_for_roll(*stats, roll as int)),
{
    if roll < stats.common {
        &sorted.common_cards
    } else if roll - stats.common < stats.rare {
        &sorted.rare_cards
    } else if roll - stats.common - stats.rare < stats.epic {
        &sorted.epic_cards
    } else {
        &sorted.legendary_cards
    }
}

/// The card a slot gets: the card drawn from the rolled rarity's pool, or,
/// when that pool gave none, the card drawn from all cards. When the draws
/// came from those pools for a roll below the total, the card is one the
/// shop can offer.
pub fn slot_card(
    sorted: &SortedCardHandles,
    stats: &PlayerShopLuckStats,
    roll: u32,
    from_pool: Option<u64>,
    from_all: Option<u64>,
) -> (r: u64)
    requires
        from_pool is Some || from_all is Some,
    ensures
        r == match from_pool {
            Some(c) => c,
            None => from_all->0,
        },
        ({
            let pool = sorted.pool(rarity_for_roll(*stats, roll as int));
            &&& roll < stats.total()
            &&& (from_pool is None <==> pool.len() == 0)
            &&& (from_pool matches Some(c) ==> pool.contains(c))
            &&& (from_pool is None ==> (from_all matches Some(c) && sorted.all_cards@.contains(c)))
        }) ==> offer_possible(*sorted, *stats, r),
{
    let r = match from_pool {
        Some(c) => c,
        None => from_all.unwrap(),
    };
    proof {
        let pool = sorted.pool(rarity_for_roll(*stats, roll as int));
        if roll < stats.total() && (from_pool is None <==> pool.len() == 0) && (from_pool matches Some(
            c,
        ) ==> pool.contains(c)) && (from_pool is None ==> (from_all matches Some(c)
            && sorted.all_cards@.contains(c))) {
            let k = roll as int;
            assert(0 <= k < stats.total());
            let rr = rarity_for_roll(*stats, k);
        }
    }
    r
}

/// The four offer sets of a player's shop.
#[derive(Debug, Clone, Copy, PartialEq, Eq)]
pub struct PlayerShopSetsInfo {
    pub shop_sets: [Option<ShopOfferSet>; 4],
}

/// A player's coins.
#[derive(Debug, Clone, Copy, PartialEq, Eq, Structural)]
pub struct CoinBag {
    pub coins: i32,
}

/// Adds `delta` coins, which may be negative.
pub fn change_coins(bag: &mut CoinBag, delta: i32)
    requires
        i32::MIN <= old(bag).coins + delta <= i32::MAX,
    ensures
        final(bag).coins == old(bag).coins + delta,
{
    bag.coins = bag.coins + delta;
}

/// What every player's shop starts with: 35 coins, four empty offer sets
/// that restock at the start of the player's first turn and every turn
/// after, and the default luck.
pub fn initialize_player_shop_data() -> (r: (CoinBag, PlayerShopSetsInfo, PlayerShopLuckStats))
    ensures
        r.0.coins == 35,
        forall|i: int|
            0 <= i < 4 ==> (#[trigger] r.1.shop_sets@[i]) is Some && r.1.shop_sets@[i]->0.cards_offered@
                == seq![None::<u64>, None::<u64>, None::<u64>] && r.1.shop_sets@[i]->0.turns_until_auto_restock
                == 0 && r.1.shop_sets@[i]->0.auto_restock_cooldown == 1,
        r.2 == (PlayerShopLuckStats { legendary: 1, epic: 2, rare: 5, common: 10 }),
{
    let set = ShopOfferSet::default().with_restock_data(0, 1);
    let info = PlayerShopSetsInfo { shop_sets: [Some(set), Some(set), Some(set), Some(set)] };
    (CoinBag { coins: 35 }, info, PlayerShopLuckStats::default())
}

/// A set after a new turn of its owner: it counts one turn down, or restocks
/// when no turn is left to count.
pub open spec fn refreshed(
    new: Option<ShopOfferSet>,
    old: Option<ShopOfferSet>,
    sorted: SortedCardHandles,
    stats: PlayerShopLuckStats,
) -> bool {
    match old {
        None => new is None,
        Some(o) => new is Some && if o.turns_until_auto_restock > 0 {
            new->0 == ShopOfferSet { turns_until_auto_restock: (o.turns_until_auto_restock - 1) as u32, ..o }
        } else {
            restocked(new->0, o, sorted, stats)
        },
    }
}

/// Some offer set of the shop restocks on the coming turn.
pub open spec fn restock_due(shop: PlayerShopSetsInfo) -> bool {
    exists|i: int|
        0 <= i < 4 && (#[trigger] shop.shop_sets@[i]) is Some && shop.shop_sets@[i]->0.turns_until_auto_restock
            == 0
}

/// At the start of a player's turn, each of its offer sets counts down or
/// restocks.
pub fn refresh_shop_on_new_turn(
    shop: &mut PlayerShopSetsInfo,
    sorted_cards: &SortedCardHandles,
    stats: &PlayerShopLuckStats,
)
    requires
        restock_due(*old(shop)) ==> restock_defined(*sorted_cards, *stats),
    ensures
        forall|i: int|
            0 <= i < 4 ==> refreshed(
                #[trigger] final(shop).shop_sets@[i],
                old(shop).shop_sets@[i],
                *sorted_cards,
                *stats,
            ),
{
    let mut i: usize = 0;
    while i < 4
        invariant
            restock_due(*old(shop)) ==> restock_defined(*sorted_cards, *stats),
            i <= 4,
            forall|k: int|
                0 <= k < 4 ==> if k < i {
                    refreshed(#[trigger] shop.shop_sets@[k], old(shop).shop_sets@[k], *sorted_cards, *stats)
                } else {
                    shop.shop_sets@[k] == old(shop).shop_sets@[k]
                },
        decreases 4 - i,
    {
        let ghost before = shop.shop_sets@;
        match shop.shop_sets[i] {
            None => {},
            Some(set) => {
                let mut set = set;
                if set.turns_until_auto_restock > 0 {
                    set.turns_until_auto_restock = set.turns_until_auto_restock - 1;
                } else {
                    proof {
                        assert(old(shop).shop_sets@[i as int] == shop.shop_sets@[i as int]);
                        assert(restock_due(*old(shop)));
                    }
                    set.restock(sorted_cards, stats);
                }
                shop.shop_sets[i] = Some(set);
            },
        }
        proof {
            assert forall|k: int| 0 <= k < 4 && k != i implies shop.shop_sets@[k] == before[k] by {}
        }
        i = i + 1;
    }
}

/// A request to buy the card in slot `slot` of offer set `set`.
#[derive(Debug, Clone, Copy, PartialEq, Eq, Structural)]
pub struct TryPurchaseCard {
    pub set: usize,
    pub slot: usize,
}

/// What came of a request to buy a card.
#[derive(Debug, Clone, Copy, PartialEq, Eq, Structural)]
pub enum PurchaseOutcome {
    /// There is no such offer set; nothing changed.
    NoOfferSet,
    /// The slot is empty; nothing changed.
    EmptySlot,
    /// The offered card is not loaded; nothing changed.
    CardNotLoaded,
    /// The player cannot pay, or has no room for the card; nothing changed.
    Refused,
    /// The card was paid, taken from the slot and put in the inventory.
    Purchased,
}

/// The card offered at the requested place, if any.
pub open spec fn offered_card(shop: PlayerShopSetsInfo, request: TryPurchaseCard) -> Option<u64> {
    match shop.shop_sets@[request.set as int] {
        None => None,
        Some(set) => set.cards_offered@[request.slot as int],
    }
}

/// Buying cannot fail: the place exists, and paying for an offered card that
/// the player can afford leaves a number of coins that fits an `i32`.
pub open spec fn purchase_defined(
    coins: CoinBag,
    shop: PlayerShopSetsInfo,
    request: TryPurchaseCard,
    catalog: CardCatalog,
) -> bool {
    &&& request.set < 4
    &&& request.slot < 3
    &&& offered_card(shop, request) matches Some(h) ==> (catalog.spec_get(h) matches Some(card)
        ==> (coins.coins >= (card.price as i32) ==> i32::MIN <= coins.coins - (card.price as i32)
        <= i32::MAX))
}

/// Handles a request to buy an offered card: the player pays the price when
/// it has enough coins and room in its inventory; the card then leaves the
/// slot and joins the inventory.
pub fn manage_purchase_requests(
    coin_bag: &mut CoinBag,
    shop_offers_info: &mut PlayerShopSetsInfo,
    player_inventory: &mut PlayerCardInventory,
    request: TryPurchaseCard,
    card_assets: &CardCatalog,
) -> (r: PurchaseOutcome)
    requires
        purchase_defined(*old(coin_bag), *old(shop_offers_info), request, *card_assets),
    ensures
        r != PurchaseOutcome::Purchased ==> *final(coin_bag) == *old(coin_bag) && *final(shop_offers_info)
            == *old(shop_offers_info) && final(player_inventory).cards@ == old(player_inventory).cards@,
        final(player_inventory).max_size == old(player_inventory).max_size,
        old(player_inventory).cards@.len() <= old(player_inventory).max_size
            ==> final(player_inventory).cards@.len() <= final(player_inventory).max_size,
        r == PurchaseOutcome::Purchased ==> final(coin_bag).coins >= 0,
        (r == PurchaseOutcome::NoOfferSet) == (old(shop_offers_info).shop_sets@[request.set as int] is None),
        (r == PurchaseOutcome::EmptySlot) == (old(shop_offers_info).shop_sets@[request.set as int] is Some
            && offered_card(*old(shop_offers_info), request) is None),
        match offered_card(*old(shop_offers_info), request) {
            None => true,
            Some(h) => match card_assets.spec_get(h) {
                None => r == PurchaseOutcome::CardNotLoaded,
                Some(card) => if old(coin_bag).coins >= (card.price as i32) && old(
                    player_inventory,
                ).cards@.len() < old(player_inventory).max_size {
                    &&& r == PurchaseOutcome::Purchased
                    &&& final(coin_bag).coins == old(coin_bag).coins - (card.price as i32)
                    &&& final(player_inventory).cards@ == old(player_inventory).cards@.push(h)
                    &&& forall|i: int|
                        0 <= i < 4 && i != request.set ==> #[trigger] final(shop_offers_info).shop_sets@[i]
                            == old(shop_offers_info).shop_sets@[i]
                    &&& final(shop_offers_info).shop_sets@[request.set as int] is Some
                    &&& final(shop_offers_info).shop_sets@[request.set as int]->0.cards_offered@
                        == old(shop_offers_info).shop_sets@[request.set as int]->0.cards_offered@.update(
                        request.slot as int,
                        None,
                    )
                    &&& final(shop_offers_info).shop_sets@[request.set as int]->0.turns_until_auto_restock
                        == old(shop_offers_info).shop_sets@[request.set as int]->0.turns_until_auto_restock
                    &&& final(shop_offers_info).shop_sets@[request.set as int]->0.auto_restock_cooldown
                        == old(shop_offers_info).shop_sets@[request.set as int]->0.auto_restock_cooldown
                } else {
                    r == PurchaseOutcome::Refused
                },
            },
        },
{
    let set = match shop_offers_info.shop_sets[request.set] {
        None => {
            return PurchaseOutcome::NoOfferSet;
        },
        Some(set) => set,
    };
    let card_handle = match set.cards_offered[request.slot] {
        None => {
            return PurchaseOutcome::EmptySlot;
        },
        Some(h) => h,
    };
    let card_data = match card_assets.get(card_handle) {
        None => {
            return PurchaseOutcome::CardNotLoaded;
        },
        Some(c) => c,
    };
    let price = card_data.price as i32;
    if coin_bag.coins >= price && player_inventory.add_card_succeeds(card_handle) {
        coin_bag.coins = coin_bag.coins - price;
        let mut new_set = set;
        new_set.cards_offered[request.slot] = None;
        shop_offers_info.shop_sets[request.set] = Some(new_set);
        PurchaseOutcome::Purchased
    } else {
        PurchaseOutcome::Refused
    }
}

/// The number of gold tiles on which a piece of `player` stands.
pub open spec fn gold_tiles_held(tiles: Seq<LogTile>, pieces: Seq<LogPiece>, player: u64) -> nat
    decreases tiles.len(),
{
    if tiles.len() == 0 {
        0
    } else {
        gold_tiles_held(tiles.drop_last(), pieces, player) + if holds_gold(tiles.last(), pieces, player) {
            1nat
        } else {
            0nat
        }
    }
}

/// A gold tile with a piece of `player` on it.
pub open spec fn holds_gold(t: LogTile, pieces: Seq<LogPiece>, player: u64) -> bool {
    t.tile_type == TileType::PassiveGold && t.occupant is Some && exists|i: int|
        0 <= i < pieces.len() && (#[trigger] pieces[i]).entity == t.occupant->0 && pieces[i].owner
            == player
}

/// Whether `player` owns the piece `piece`.
pub fn owns_piece(pieces: &Vec<LogPiece>, player: u64, piece: u64) -> (r: bool)
    ensures
        r == exists|i: int| 0 <= i < pieces@.len() && (#[trigger] pieces@[i]).entity == piece && pieces@[i].owner == player,
{
    let mut i: usize = 0;
    while i < pieces.len()
        invariant
            i <= pieces@.len(),
            forall|k: int| 0 <= k < i ==> !((#[trigger] pieces@[k]).entity == piece && pieces@[k].owner == player),
        decreases pieces@.len() - i,
    {
        if pieces[i].entity == piece && pieces[i].owner == player {
            return true;
        }
        i = i + 1;
    }
    false
}

/// At the end of a turn, the player earns a coin for every gold tile on
/// which one of its pieces stands. A player that owns no piece earns nothing
/// and `false` is returned.
pub fn gold_tile_passive(board: &Board, pieces: &Vec<LogPiece>, player: u64, bag: &mut CoinBag) -> (r: bool)
    requires
        owns_pieces(pieces@, player) ==> gold_tiles_held(board@, pieces@, player) <= i32::MAX
            && old(bag).coins + gold_tiles_held(board@, pieces@, player) <= i32::MAX,
    ensures
        r == owns_pieces(pieces@, player),
        r ==> final(bag).coins == old(bag).coins + gold_tiles_held(board@, pieces@, player),
        !r ==> *final(bag) == *old(bag),
{
    if !crate::players::owns_any_piece(pieces, player) {
        return false;
    }
    let tiles = board.tiles();
    let mut count: usize = 0;
    let mut i: usize = 0;
    while i < tiles.len()
        invariant
            tiles@ == board@,
            i <= tiles@.len(),
            count == gold_tiles_held(tiles@.take(i as int), pieces@, player),
            count <= i,
        decreases tiles@.len() - i,
    {
        proof {
            assert(tiles@.take(i + 1).drop_last() =~= tiles@.take(i as int));
        }
        if tiles[i].tile_type == TileType::PassiveGold {
            match tiles[i].occupant {
                Some(p) => {
                    if owns_piece(pieces, player, p) {
                        count = count + 1;
                    }
                },
                None => {},
            }
        }
        i = i + 1;
    }
    proof {
        assert(tiles@.take(tiles@.len() as int) =~= tiles@);
        lemma_gold_le_len(tiles@, pieces@, player);
    }
    bag.coins = bag.coins + count as i32;
    true
}

proof fn lemma_gold_le_len(tiles: Seq<LogTile>, pieces: Seq<LogPiece>, player: u64)
    ensures
        gold_tiles_held(tiles, pieces, player) <= tiles.len(),
    decreases tiles.len(),
{
    if tiles.len() > 0 {
        lemma_gold_le_len(tiles.drop_last(), pieces, player);
    }
}

} // verus!
