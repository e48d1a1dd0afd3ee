use hexlog::actions::{
    ActionFunctionality, ActionSource, Bounds, EligibilityDeterminationMethod, GameAction,
    GameDesignBounds, ProxyAction, ProxyActionFunctionality, ProxyDeterminationMethod,
};
use hexlog::cards::{
    card_from_proxy, consume_card, initial_inventory, Card, CardCatalog, CardRarity, ConsumeOutcome,
    PlayerCardInventory, ProxyCard, SortedCardHandles,
};

fn card_doing(f: ActionFunctionality, rarity: CardRarity) -> Card {
    Card {
        name: String::from("c"),
        price: 3,
        action: GameAction {
            functionality: f,
            eligibility_method: EligibilityDeterminationMethod::AllTiles,
            selection_count_bounds: GameDesignBounds(Bounds { min_tiles: 1, max_tiles: 1 }),
        },
        image: 1,
        rarity,
        description: String::new(),
    }
}

#[test]
fn loaded_cards_join_their_pool() {
    let mut s = SortedCardHandles::new();
    assert!(s.all_cards.is_empty());
    assert!(s.register_loaded_card(5, &card_doing(ActionFunctionality::DeleteTile, CardRarity::Epic)));
    assert!(s.register_loaded_card(6, &card_doing(ActionFunctionality::SpawnPiece(2), CardRarity::Never)));
    assert!(s.register_loaded_card(7, &card_doing(ActionFunctionality::DeleteTile, CardRarity::Epic)));
    assert_eq!(s.all_cards, vec![5, 6, 7]);
    assert_eq!(s.epic_cards, vec![5, 7]);
    assert_eq!(s.never_shop_cards, vec![6]);
    assert!(s.common_cards.is_empty() && s.rare_cards.is_empty() && s.legendary_cards.is_empty());
}

#[test]
fn cards_with_unusable_actions_are_refused() {
    let mut s = SortedCardHandles::new();
    assert!(!s.register_loaded_card(5, &card_doing(ActionFunctionality::MoveSelfToTile, CardRarity::Common)));
    let mut inverted = card_doing(ActionFunctionality::DeleteTile, CardRarity::Common);
    inverted.action.selection_count_bounds = GameDesignBounds(Bounds { min_tiles: 2, max_tiles: 1 });
    assert!(!s.register_loaded_card(6, &inverted));
    assert!(s.all_cards.is_empty());
    assert!(s.common_cards.is_empty());
}

#[test]
fn catalog_finds_the_first_entry() {
    let mut second = card_doing(ActionFunctionality::DeleteTile, CardRarity::Rare);
    second.price = 9;
    let cat = CardCatalog {
        entries: vec![(1, card_doing(ActionFunctionality::DeleteTile, CardRarity::Common)), (1, second)],
    };
    assert_eq!(cat.get(1).unwrap().price, 3);
    assert!(cat.get(2).is_none());
}

#[test]
fn inventories_hold_a_limited_number_of_cards() {
    let mut inv = initial_inventory(10, 20);
    assert_eq!(inv.max_size, 4);
    assert_eq!(inv.cards, vec![10, 20]);
    assert!(inv.add_card_succeeds(30));
    assert!(inv.add_card_succeeds(40));
    assert!(!inv.add_card_succeeds(50));
    assert_eq!(inv.cards, vec![10, 20, 30, 40]);
}

#[test]
fn played_cards_are_consumed() {
    let mut inv = PlayerCardInventory { max_size: 4, cards: vec![10, 20, 30] };
    assert_eq!(consume_card(&mut inv, None), ConsumeOutcome::NoSource);
    assert_eq!(
        consume_card(&mut inv, Some(ActionSource::Order { index_in_piece_orders: 0 })),
        ConsumeOutcome::NotFromCard
    );
    assert_eq!(
        consume_card(&mut inv, Some(ActionSource::Card { inventory_index: 9 })),
        ConsumeOutcome::IndexOutOfBounds
    );
    assert_eq!(
        consume_card(&mut inv, Some(ActionSource::Card { inventory_index: 3 })),
        ConsumeOutcome::IndexOutOfBounds
    );
    assert_eq!(inv.cards, vec![10, 20, 30]);
    assert_eq!(
        consume_card(&mut inv, Some(ActionSource::Card { inventory_index: 1 })),
        ConsumeOutcome::Consumed
    );
    assert_eq!(inv.cards, vec![10, 30]);
}

#[test]
fn cards_from_assets() {
    let proxy = ProxyCard {
        name: String::from("Builder"),
        price: 12,
        action: ProxyAction {
            functionality: ProxyActionFunctionality::SpawnPiece { path_to_proxy_piece: String::from("p.piece.ron") },
            eligibility_method: ProxyDeterminationMethod::UnoccupiedTiles,
            selection_count_bounds: GameDesignBounds(Bounds { min_tiles: 1, max_tiles: 1 }),
        },
        image_path: String::from("builder.png"),
        rarity: CardRarity::Rare,
        description: String::from("Builds"),
    };
    let c = card_from_proxy(proxy, 77, 88);
    assert_eq!(c.name, "Builder");
    assert_eq!(c.price, 12);
    assert_eq!(c.image, 77);
    assert_eq!(c.rarity, CardRarity::Rare);
    assert_eq!(c.description, "Builds");
    assert_eq!(c.action.functionality, ActionFunctionality::SpawnPiece(88));
    assert_eq!(c.action.eligibility_method, EligibilityDeterminationMethod::UnoccupiedTiles);
}

#[test]
fn rarity_names() {
    assert_eq!(CardRarity::Legendary.display_name(), "Legendary");
    assert_eq!(CardRarity::Epic.display_name(), "Epic");
    assert_eq!(CardRarity::Rare.display_name(), "Rare");
    assert_eq!(CardRarity::Common.display_name(), "Common");
    assert_eq!(CardRarity::Never.display_name(), "Never");
}
