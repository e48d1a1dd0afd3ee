use hexlog::actions::{
    ActionFunctionality, Bounds, EligibilityDeterminationMethod, GameAction, GameDesignBounds,
};
use hexlog::cards::{Card, CardCatalog, CardRarity, PlayerCardInventory, SortedCardHandles};
use hexlog::pieces::{Health, LogPiece, PieceOrders};
use hexlog::shop::{
    change_coins, gold_tile_passive, initialize_player_shop_data, manage_purchase_requests,
    owns_piece, pool_for_roll, raffle_total, refresh_shop_on_new_turn, slot_card, CoinBag, PlayerShopLuckStats,
    PlayerShopSetsInfo, PurchaseOutcome, ShopOfferSet, TryPurchaseCard,
};
use hexlog::tiles::{Board, TileType};

fn card(price: u32, rarity: CardRarity) -> Card {
    Card {
        name: String::from("card"),
        price,
        action: GameAction {
            functionality: ActionFunctionality::DeleteTile,
            eligibility_method: EligibilityDeterminationMethod::AllTiles,
            selection_count_bounds: GameDesignBounds(Bounds { min_tiles: 1, max_tiles: 1 }),
        },
        image: 0,
        rarity,
        description: String::new(),
    }
}

fn piece(entity: u64, owner: u64, tile: u64) -> LogPiece {
    LogPiece {
        entity,
        owner,
        tile: Some(tile),
        health: Health { max_health: 1, current_health: 1 },
        orders: PieceOrders([None; 5]),
        win_condition: false,
        facing: None,
        command_point: false,
        for_sale: false,
        orders_per_turn: None,
        value: None,
    }
}

fn sorted_with(common: Vec<u64>, rare: Vec<u64>) -> SortedCardHandles {
    let mut s = SortedCardHandles::new();
    for h in common {
        assert!(s.register_loaded_card(h, &card(1, CardRarity::Common)));
    }
    for h in rare {
        assert!(s.register_loaded_card(h, &card(1, CardRarity::Rare)));
    }
    s
}

/// One card per rarity: 1 legendary, 2 epic, 3 rare, 4 common.
fn one_of_each() -> SortedCardHandles {
    let mut s = SortedCardHandles::new();
    assert!(s.register_loaded_card(1, &card(1, CardRarity::Legendary)));
    assert!(s.register_loaded_card(2, &card(1, CardRarity::Epic)));
    assert!(s.register_loaded_card(3, &card(1, CardRarity::Rare)));
    assert!(s.register_loaded_card(4, &card(1, CardRarity::Common)));
    s
}

#[test]
fn rolls_map_to_rarities_by_weight() {
    let stats = PlayerShopLuckStats::default();
    assert_eq!(stats, PlayerShopLuckStats { legendary: 1, epic: 2, rare: 5, common: 10 });
    assert_eq!(raffle_total(&stats), 18);
    let s = one_of_each();
    assert_eq!(pool_for_roll(&s, &stats, 0), &vec![4]);
    assert_eq!(pool_for_roll(&s, &stats, 9), &vec![4]);
    assert_eq!(pool_for_roll(&s, &stats, 10), &vec![3]);
    assert_eq!(pool_for_roll(&s, &stats, 14), &vec![3]);
    assert_eq!(pool_for_roll(&s, &stats, 15), &vec![2]);
    assert_eq!(pool_for_roll(&s, &stats, 16), &vec![2]);
    assert_eq!(pool_for_roll(&s, &stats, 17), &vec![1]);
}

#[test]
fn zero_weights_skip_a_rarity() {
    let stats = PlayerShopLuckStats { legendary: 3, epic: 0, rare: 0, common: 2 };
    assert_eq!(raffle_total(&stats), 5);
    let s = one_of_each();
    assert_eq!(pool_for_roll(&s, &stats, 1), &vec![4]);
    assert_eq!(pool_for_roll(&s, &stats, 2), &vec![1]);
    assert_eq!(pool_for_roll(&s, &stats, 4), &vec![1]);
}

#[test]
fn slots_prefer_the_rolled_pool() {
    let s = one_of_each();
    let stats = PlayerShopLuckStats::default();
    assert_eq!(slot_card(&s, &stats, 0, Some(4), None), 4);
    assert_eq!(slot_card(&s, &stats, 0, Some(4), Some(2)), 4);
    assert_eq!(slot_card(&s, &stats, 17, None, Some(3)), 3);
}

#[test]
fn shops_start_with_coins_and_four_sets() {
    let (bag, info, stats) = initialize_player_shop_data();
    assert_eq!(bag.coins, 35);
    assert_eq!(stats, PlayerShopLuckStats::default());
    for set in info.shop_sets.iter() {
        let set = set.unwrap();
        assert_eq!(set.cards_offered, [None, None, None]);
        assert_eq!(set.turns_until_auto_restock, 0);
        assert_eq!(set.auto_restock_cooldown, 1);
    }
}

#[test]
fn restocking_offers_cards_of_the_rolled_rarity() {
    let sorted = sorted_with(vec![1, 2], vec![]);
    let stats = PlayerShopLuckStats { legendary: 0, epic: 0, rare: 0, common: 4 };
    let mut set = ShopOfferSet::default().with_restock_data(0, 3);
    set.restock(&sorted, &stats);
    assert_eq!(set.turns_until_auto_restock, 3);
    assert_eq!(set.auto_restock_cooldown, 3);
    for c in set.cards_offered.iter() {
        let c = c.unwrap();
        assert!(c == 1 || c == 2);
    }
}

#[test]
fn an_empty_pool_falls_back_to_any_card() {
    let sorted = sorted_with(vec![], vec![7]);
    let stats = PlayerShopLuckStats { legendary: 1, epic: 0, rare: 0, common: 0 };
    let mut set = ShopOfferSet::default();
    set.restock(&sorted, &stats);
    assert_eq!(set.cards_offered, [Some(7), Some(7), Some(7)]);
}

#[test]
fn new_turns_count_down_then_restock() {
    let sorted = sorted_with(vec![5], vec![]);
    let stats = PlayerShopLuckStats { legendary: 0, epic: 0, rare: 0, common: 1 };
    let waiting = ShopOfferSet::default().with_restock_data(2, 4);
    let due = ShopOfferSet::default().with_restock_data(0, 4);
    let mut shop = PlayerShopSetsInfo { shop_sets: [Some(waiting), None, Some(due), None] };
    refresh_shop_on_new_turn(&mut shop, &sorted, &stats);
    let first = shop.shop_sets[0].unwrap();
    assert_eq!(first.turns_until_auto_restock, 1);
    assert_eq!(first.cards_offered, [None, None, None]);
    assert!(shop.shop_sets[1].is_none());
    let third = shop.shop_sets[2].unwrap();
    assert_eq!(third.turns_until_auto_restock, 4);
    assert_eq!(third.cards_offered, [Some(5), Some(5), Some(5)]);
}

fn shop_offering(h: u64) -> PlayerShopSetsInfo {
    let mut set = ShopOfferSet::default().with_restock_data(1, 2);
    set.cards_offered = [None, Some(h), None];
    PlayerShopSetsInfo { shop_sets: [Some(set), None, None, None] }
}

fn catalog() -> CardCatalog {
    CardCatalog { entries: vec![(11, card(10, CardRarity::Common)), (12, card(50, CardRarity::Epic))] }
}

#[test]
fn buying_a_card_pays_and_moves_it() {
    let mut bag = CoinBag { coins: 35 };
    let mut shop = shop_offering(11);
    let mut inv = PlayerCardInventory { max_size: 4, cards: vec![1] };
    let r = manage_purchase_requests(&mut bag, &mut shop, &mut inv, TryPurchaseCard { set: 0, slot: 1 }, &catalog());
    assert_eq!(r, PurchaseOutcome::Purchased);
    assert_eq!(bag.coins, 25);
    assert_eq!(inv.cards, vec![1, 11]);
    let set = shop.shop_sets[0].unwrap();
    assert_eq!(set.cards_offered, [None, None, None]);
    assert_eq!(set.turns_until_auto_restock, 1);
    assert_eq!(set.auto_restock_cooldown, 2);
}

#[test]
fn purchases_that_cannot_go_through() {
    let cat = catalog();
    let mut bag = CoinBag { coins: 35 };
    let mut shop = shop_offering(12);
    let mut inv = PlayerCardInventory { max_size: 4, cards: vec![] };
    let before = shop;
    assert_eq!(
        manage_purchase_requests(&mut bag, &mut shop, &mut inv, TryPurchaseCard { set: 0, slot: 1 }, &cat),
        PurchaseOutcome::Refused
    );
    assert_eq!(
        manage_purchase_requests(&mut bag, &mut shop, &mut inv, TryPurchaseCard { set: 1, slot: 1 }, &cat),
        PurchaseOutcome::NoOfferSet
    );
    assert_eq!(
        manage_purchase_requests(&mut bag, &mut shop, &mut inv, TryPurchaseCard { set: 0, slot: 0 }, &cat),
        PurchaseOutcome::EmptySlot
    );
    let mut unknown = shop_offering(99);
    assert_eq!(
        manage_purchase_requests(&mut bag, &mut unknown, &mut inv, TryPurchaseCard { set: 0, slot: 1 }, &cat),
        PurchaseOutcome::CardNotLoaded
    );
    let mut cheap = shop_offering(11);
    let mut full = PlayerCardInventory { max_size: 1, cards: vec![3] };
    assert_eq!(
        manage_purchase_requests(&mut bag, &mut cheap, &mut full, TryPurchaseCard { set: 0, slot: 1 }, &cat),
        PurchaseOutcome::Refused
    );
    assert_eq!(bag.coins, 35);
    assert_eq!(shop, before);
    assert!(inv.cards.is_empty());
    assert_eq!(full.cards, vec![3]);
}

#[test]
fn coins_change_both_ways() {
    let mut bag = CoinBag { coins: 5 };
    change_coins(&mut bag, -8);
    assert_eq!(bag.coins, -3);
    change_coins(&mut bag, 10);
    assert_eq!(bag.coins, 7);
}

#[test]
fn gold_tiles_pay_their_holders() {
    let mut board = Board::new();
    board.add_tile(1, TileType::PassiveGold);
    board.add_tile(2, TileType::PassiveGold);
    board.add_tile(3, TileType::Basic);
    board.add_tile(4, TileType::PassiveGold);
    board.set_occupant(1, Some(100));
    board.set_occupant(2, Some(200));
    board.set_occupant(3, Some(101));
    board.set_occupant(4, Some(102));
    let pieces = vec![piece(100, 7, 1), piece(200, 8, 2), piece(101, 7, 3), piece(102, 7, 4)];
    assert!(owns_piece(&pieces, 7, 100));
    assert!(!owns_piece(&pieces, 7, 200));
    let mut bag = CoinBag { coins: 1 };
    assert!(gold_tile_passive(&board, &pieces, 7, &mut bag));
    assert_eq!(bag.coins, 3);
    let mut other = CoinBag { coins: 1 };
    assert!(!gold_tile_passive(&board, &pieces, 9, &mut other));
    assert_eq!(other.coins, 1);
}

#[test]
fn new_shops_restock_on_the_first_turn() {
    let sorted = sorted_with(vec![4, 6], vec![9]);
    let (_, mut info, stats) = initialize_player_shop_data();
    refresh_shop_on_new_turn(&mut info, &sorted, &stats);
    for set in info.shop_sets.iter() {
        let set = set.unwrap();
        assert_eq!(set.turns_until_auto_restock, 1);
        for c in set.cards_offered.iter() {
            assert!(matches!(c, Some(4) | Some(6) | Some(9)));
        }
    }
}

#[test]
fn counting_down_needs_no_cards() {
    let sorted = SortedCardHandles::new();
    let stats = PlayerShopLuckStats { legendary: 0, epic: 0, rare: 0, common: 0 };
    let waiting = ShopOfferSet::default().with_restock_data(3, 3);
    let mut shop = PlayerShopSetsInfo { shop_sets: [Some(waiting), None, Some(waiting), None] };
    refresh_shop_on_new_turn(&mut shop, &sorted, &stats);
    assert_eq!(shop.shop_sets[0].unwrap().turns_until_auto_restock, 2);
    assert_eq!(shop.shop_sets[2].unwrap().turns_until_auto_restock, 2);
    assert!(shop.shop_sets[1].is_none());
}
