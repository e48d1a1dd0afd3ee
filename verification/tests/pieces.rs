use hexlog::actions::{Bounds, GameDesignBounds, ProxyAction, ProxyActionFunctionality, ProxyDeterminationMethod, ActionFunctionality};
use hexlog::input::ClickCounter;
use hexlog::pieces::{
    apply_damage, order_from_proxy, piece_from_proxy, set_active_piece, spawn_logpiece, DamageOutcome,
    FacingDirection, Health, Piece, ProxyOrder, ProxyPiece, SpawnLogPiece, SpawnOutcome,
};
use hexlog::refresh_groups::{default_refresh_groups, GroupType, RefreshGroups, RefreshProperties};

fn tower() -> Piece {
    Piece {
        name: String::from("Tower"),
        model: 3,
        health: 12,
        default_orders: [Some(40), None, Some(41), None, None],
        is_win_condtion: true,
    }
}

#[test]
fn spawning_needs_a_free_tile_and_a_loaded_asset() {
    let request = SpawnLogPiece { piece: 5, player: 10, log_tile: 2 };
    let kind = tower();
    assert!(matches!(spawn_logpiece(request, true, Some(&kind), 100), SpawnOutcome::TileOccupied));
    assert!(matches!(spawn_logpiece(request, false, None, 100), SpawnOutcome::AssetNotLoaded));
    match spawn_logpiece(request, false, Some(&kind), 100) {
        SpawnOutcome::Spawned(p) => {
            assert_eq!(p.entity, 100);
            assert_eq!(p.owner, 10);
            assert_eq!(p.tile, Some(2));
            assert_eq!(p.health, Health { max_health: 12, current_health: 12 });
            assert_eq!(p.orders.0, [Some(40), None, Some(41), None, None]);
            assert!(p.win_condition);
            assert!(!p.for_sale);
        }
        _ => panic!("expected a spawned piece"),
    }
}

#[test]
fn damage_destroys_at_zero() {
    let mut h = Health { max_health: 10, current_health: 10 };
    assert_eq!(apply_damage(&mut h, false, 4), DamageOutcome::Damaged);
    assert_eq!(h.current_health, 4);
    assert_eq!(apply_damage(&mut h, true, 0), DamageOutcome::Destroyed { check_for_winner: true });
    assert_eq!(h.current_health, 4);
    assert_eq!(apply_damage(&mut h, false, 0), DamageOutcome::Destroyed { check_for_winner: false });
}

#[test]
fn activating_toggles() {
    assert_eq!(set_active_piece(None, Some(5)), (Some(5), true));
    assert_eq!(set_active_piece(Some(5), Some(5)), (None, true));
    assert_eq!(set_active_piece(Some(5), Some(6)), (Some(6), true));
    assert_eq!(set_active_piece(Some(5), None), (None, false));
    let (first, _) = set_active_piece(Some(1), Some(5));
    let (second, _) = set_active_piece(first, Some(5));
    assert_eq!(second, None);
}

#[test]
fn facing_offsets_wrap() {
    assert_eq!(FacingDirection(0).offset_index(-1), 5);
    assert_eq!(FacingDirection(5).offset_index(1), 0);
    assert_eq!(FacingDirection(1).offset_index(-2), 5);
    assert_eq!(FacingDirection(3).offset_index(2), 5);
    assert_eq!(FacingDirection(4).offset_index(-128), 2);
}

#[test]
fn pieces_and_orders_from_assets() {
    let proxy = ProxyPiece {
        name: String::from("Drill"),
        model_path: String::from("drill.glb"),
        health: 4,
        is_win_condition: false,
        order1_path: Some(String::from("a.order.ron")),
        order2_path: None,
        order3_path: None,
        order4_path: Some(String::from("b.order.ron")),
        order5_path: None,
    };
    let p = piece_from_proxy(proxy, 8, [1, 2, 3, 4, 5]);
    assert_eq!(p.name, "Drill");
    assert_eq!(p.model, 8);
    assert_eq!(p.health, 4);
    assert_eq!(p.default_orders, [Some(1), None, None, Some(4), None]);

    let order = ProxyOrder {
        name: String::from("Step"),
        proxy_action: ProxyAction {
            functionality: ProxyActionFunctionality::MoveSelf,
            eligibility_method: ProxyDeterminationMethod::AllTiles,
            selection_count_bounds: GameDesignBounds(Bounds { min_tiles: 1, max_tiles: 1 }),
        },
        description: String::from("moves"),
        icon_path: String::from("step.png"),
    };
    let o = order_from_proxy(order, 0, 77);
    assert_eq!(o.name, "Step");
    assert_eq!(o.icon, 77);
    assert_eq!(o.action.functionality, ActionFunctionality::MoveSelfToTile);
    assert_eq!(o.description, "moves");
}

#[test]
fn clicks_of_no_use_cancel() {
    let mut c = ClickCounter(0);
    c.register_click();
    assert!(c.cancel_input_sequence());
    assert_eq!(c.0, 0);
    c.register_click();
    c.register_click();
    assert!(!c.cancel_input_sequence());
    assert!(!c.cancel_input_sequence());
}

#[test]
fn default_refresh_groups_for_players() {
    let g = default_refresh_groups();
    assert_eq!(g.len(), 3);
    assert_eq!(g[0], RefreshProperties::default());
    assert_eq!(g[1], RefreshProperties { max_offer_count: 3, duration: 3, group_type: GroupType::Standard });
    assert_eq!(g[2], RefreshProperties { max_offer_count: 1, duration: 4, group_type: GroupType::Standard });
    assert_eq!(RefreshGroups(vec![4, 5]).groups(), vec![4, 5]);
}
