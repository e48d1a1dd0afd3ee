use hexlog::actions::{
    ActionFunctionality, Bounds, DamageType, EligibilityDeterminationMethod, FanWidth, GameAction,
    GameDesignBounds, OccupationStatus, ProxyAction, ProxyActionFunctionality,
    ProxyDeterminationMethod, RequiresActivePiece, SelectionBounds,
};

fn action(f: ActionFunctionality, m: EligibilityDeterminationMethod, min: usize, max: usize) -> GameAction {
    GameAction {
        functionality: f,
        eligibility_method: m,
        selection_count_bounds: GameDesignBounds(Bounds { min_tiles: min, max_tiles: max }),
    }
}

#[test]
fn functionality_bounds() {
    assert_eq!(ActionFunctionality::DeleteTile.bounds(), Bounds { min_tiles: 0, max_tiles: usize::MAX });
    assert_eq!(ActionFunctionality::DoubleTakeTest(7).bounds(), Bounds { min_tiles: 2, max_tiles: 2 });
    assert_eq!(ActionFunctionality::MoveSelfToTile.bounds(), Bounds { min_tiles: 1, max_tiles: 1 });
    assert_eq!(ActionFunctionality::RotateSelf.bounds(), Bounds { min_tiles: 1, max_tiles: 1 });
    assert_eq!(ActionFunctionality::PurchasePiece.bounds(), Bounds { min_tiles: 1, max_tiles: 1 });
    assert_eq!(
        ActionFunctionality::AttackPiece(DamageType::Constant(3)).bounds(),
        Bounds { min_tiles: 0, max_tiles: usize::MAX }
    );
    assert_eq!(
        EligibilityDeterminationMethod::PiecesForSale.bounds(),
        Bounds { min_tiles: 0, max_tiles: usize::MAX }
    );
}

#[test]
fn active_piece_requirements() {
    assert!(ActionFunctionality::MoveSelfToTile.requires_active_piece());
    assert!(ActionFunctionality::RotateSelf.requires_active_piece());
    assert!(!ActionFunctionality::PurchasePiece.requires_active_piece());
    assert!(EligibilityDeterminationMethod::Fan {
        width: FanWidth::One,
        depth: 1,
        occupied_or_not: OccupationStatus::Either
    }
    .requires_active_piece());
    assert!(!EligibilityDeterminationMethod::AllTiles.requires_active_piece());
}

#[test]
fn validity_of_actions() {
    let spawn = action(ActionFunctionality::SpawnPiece(1), EligibilityDeterminationMethod::UnoccupiedTiles, 1, 1);
    assert!(spawn.is_valid());
    assert!(spawn.is_valid_for_card());
    let inverted = action(ActionFunctionality::DeleteTile, EligibilityDeterminationMethod::AllTiles, 3, 2);
    assert!(!inverted.is_valid());
    let too_wide = action(ActionFunctionality::DoubleTakeTest(1), EligibilityDeterminationMethod::AllTiles, 2, 3);
    assert!(!too_wide.is_valid());
    let too_few = action(ActionFunctionality::DoubleTakeTest(1), EligibilityDeterminationMethod::AllTiles, 1, 2);
    assert!(!too_few.is_valid());
    let mover = action(ActionFunctionality::MoveSelfToTile, EligibilityDeterminationMethod::AllTiles, 1, 1);
    assert!(mover.is_valid());
    assert!(!mover.is_valid_for_card());
}

#[test]
fn proxy_conversion() {
    let proxy = ProxyAction {
        functionality: ProxyActionFunctionality::RotateSelf,
        eligibility_method: ProxyDeterminationMethod::RotateSelf,
        selection_count_bounds: GameDesignBounds(Bounds { min_tiles: 1, max_tiles: 1 }),
    };
    assert!(proxy.piece_path().is_none());
    let a = GameAction::from_proxy(proxy, 99);
    assert_eq!(a.functionality, ActionFunctionality::RotateSelf);
    assert_eq!(
        a.eligibility_method,
        EligibilityDeterminationMethod::Fan { width: FanWidth::All, depth: 1, occupied_or_not: OccupationStatus::Either }
    );

    let proxy = ProxyAction {
        functionality: ProxyActionFunctionality::SpawnPiece { path_to_proxy_piece: String::from("pieces/tower.piece.ron") },
        eligibility_method: ProxyDeterminationMethod::NoEligibility,
        selection_count_bounds: GameDesignBounds(Bounds { min_tiles: 0, max_tiles: 4 }),
    };
    assert_eq!(proxy.piece_path().map(|s| s.as_str()), Some("pieces/tower.piece.ron"));
    let a = GameAction::from_proxy(proxy, 42);
    assert_eq!(a.functionality, ActionFunctionality::SpawnPiece(42));
    assert_eq!(a.eligibility_method, EligibilityDeterminationMethod::NoEligibility);
    assert_eq!(a.bounds(), Bounds { min_tiles: 0, max_tiles: 4 });

    let proxy = ProxyAction {
        functionality: ProxyActionFunctionality::MoveSelf,
        eligibility_method: ProxyDeterminationMethod::Fan {
            width: FanWidth::Three,
            depth: 2,
            occupied_or_not: OccupationStatus::Vacant,
        },
        selection_count_bounds: GameDesignBounds(Bounds { min_tiles: 1, max_tiles: 1 }),
    };
    let a = GameAction::from_proxy(proxy, 0);
    assert_eq!(a.functionality, ActionFunctionality::MoveSelfToTile);
    assert_eq!(
        a.eligibility_method,
        EligibilityDeterminationMethod::Fan { width: FanWidth::Three, depth: 2, occupied_or_not: OccupationStatus::Vacant }
    );
}
