use hexlog::actions::{
    ActionFunctionality, ActionSource, Bounds, DamageType, EligibilityDeterminationMethod, GameAction,
    GameDesignBounds, SetActionTo,
};
use hexlog::execution::{
    execute_action_functionality, find_occupant, handle_action_change, modify_orders_remaining,
    move_piece, place_piece, remove_piece, rotate_piece, validate_execution_request, ActionEffect,
    ExecutionError,
};
use hexlog::pieces::{FacingDirection, Health, LogPiece, OrdersPerTurn, PieceOrders, SpawnLogPiece};
use hexlog::players::{LogPlayer, PlayerState};
use hexlog::setup::spawn_tiles;
use hexlog::tiles::{Board, SelectionState};

fn action(f: ActionFunctionality) -> GameAction {
    GameAction {
        functionality: f,
        eligibility_method: EligibilityDeterminationMethod::AllTiles,
        selection_count_bounds: GameDesignBounds(Bounds { min_tiles: 1, max_tiles: 1 }),
    }
}

fn piece(entity: u64, owner: u64, orders: Option<u32>, value: Option<u32>) -> LogPiece {
    LogPiece {
        entity,
        owner,
        tile: None,
        health: Health { max_health: 3, current_health: 3 },
        orders: PieceOrders([None; 5]),
        win_condition: false,
        facing: None,
        command_point: false,
        for_sale: false,
        orders_per_turn: orders.map(|n| OrdersPerTurn { current: n, max: 2 }),
        value,
    }
}

fn player(entity: u64, orders: Option<u32>) -> LogPlayer {
    LogPlayer { entity, state: PlayerState::Alive, orders_remaining: orders, next_player: Some(entity) }
}

fn board() -> Board {
    let mut b = Board::new();
    spawn_tiles(&mut b, &vec![1, 2, 3]);
    b.set_occupant(2, Some(50));
    b.set_occupant(3, Some(60));
    b
}

const ORDER: ActionSource = ActionSource::Order { index_in_piece_orders: 0 };

#[test]
fn changing_the_action_resets_the_selection() {
    let mut b = board();
    b.make_eligible_at(0);
    b.select_tile(1);
    let mut current = None;
    let mut source = None;
    let a = action(ActionFunctionality::DeleteTile);
    let clear = handle_action_change(
        SetActionTo::Action { action: a, source: ActionSource::Card { inventory_index: 2 } },
        &mut current,
        &mut source,
        &mut b,
    );
    assert!(clear);
    assert_eq!(current, Some(a));
    assert_eq!(source, Some(ActionSource::Card { inventory_index: 2 }));
    assert!(b.selected().as_read_only_list().is_empty());
    assert!(b.tiles().iter().all(|t| t.selection.read() == SelectionState::Neither));
    assert!(!handle_action_change(SetActionTo::Action { action: a, source: ORDER }, &mut current, &mut source, &mut b));
    assert!(!handle_action_change(SetActionTo::NoAction, &mut current, &mut source, &mut b));
    assert_eq!(current, None);
    assert_eq!(source, None);
}

#[test]
fn validation_of_requests() {
    let players = vec![player(7, Some(1)), player(8, Some(0))];
    let pieces = vec![piece(50, 7, Some(1), None), piece(60, 8, Some(1), None), piece(70, 7, None, None)];
    let mover = Some(action(ActionFunctionality::MoveSelfToTile));
    let one = vec![1];
    assert_eq!(validate_execution_request(None, Some(ORDER), &one, 7, Some(50), &players, &pieces), Ok(false));
    assert_eq!(validate_execution_request(mover, None, &one, 7, Some(50), &players, &pieces), Ok(false));
    assert_eq!(validate_execution_request(mover, Some(ORDER), &one, 7, None, &players, &pieces), Ok(false));
    assert_eq!(validate_execution_request(mover, Some(ORDER), &one, 7, Some(50), &players, &pieces), Ok(true));
    assert_eq!(validate_execution_request(mover, Some(ORDER), &vec![1, 2], 7, Some(50), &players, &pieces), Ok(false));
    assert_eq!(validate_execution_request(mover, Some(ORDER), &one, 7, Some(60), &players, &pieces), Ok(false));
    assert_eq!(validate_execution_request(mover, Some(ORDER), &one, 8, Some(60), &players, &pieces), Ok(false));
    assert_eq!(
        validate_execution_request(mover, Some(ORDER), &one, 7, Some(99), &players, &pieces),
        Err(ExecutionError::PieceUnavailable(99))
    );
    assert_eq!(
        validate_execution_request(mover, Some(ORDER), &one, 7, Some(70), &players, &pieces),
        Err(ExecutionError::PieceUnavailable(70))
    );
    assert_eq!(
        validate_execution_request(mover, Some(ORDER), &one, 9, Some(50), &players, &pieces),
        Err(ExecutionError::PlayerUnavailable(9))
    );
    let card = Some(ActionSource::Card { inventory_index: 0 });
    let deleter = Some(action(ActionFunctionality::DeleteTile));
    assert_eq!(validate_execution_request(deleter, card, &vec![], 9, None, &players, &pieces), Ok(true));
    let double = Some(action(ActionFunctionality::DoubleTakeTest(4)));
    assert_eq!(validate_execution_request(double, card, &one, 9, None, &players, &pieces), Ok(false));
}

#[test]
fn orders_are_spent_by_player_and_piece() {
    let mut players = vec![player(7, Some(2)), player(8, Some(1))];
    let mut pieces = vec![piece(50, 7, Some(1), None), piece(60, 7, None, None)];
    assert_eq!(modify_orders_remaining(Some(ORDER), Some(50), 7, &mut players, &mut pieces), Ok(()));
    assert_eq!(players[0].orders_remaining, Some(1));
    assert_eq!(players[1].orders_remaining, Some(1));
    assert_eq!(pieces[0].orders_per_turn, Some(OrdersPerTurn { current: 0, max: 2 }));
    let card = Some(ActionSource::Card { inventory_index: 0 });
    assert_eq!(modify_orders_remaining(card, Some(50), 7, &mut players, &mut pieces), Ok(()));
    assert_eq!(players[0].orders_remaining, Some(1));
    assert_eq!(
        modify_orders_remaining(Some(ORDER), Some(60), 7, &mut players, &mut pieces),
        Err(ExecutionError::PieceUnavailable(60))
    );
    assert_eq!(players[0].orders_remaining, Some(0));
    assert_eq!(
        modify_orders_remaining(Some(ORDER), Some(60), 5, &mut players, &mut pieces),
        Err(ExecutionError::PlayerUnavailable(5))
    );
}

#[test]
fn occupants_of_tiles() {
    let b = board();
    assert_eq!(find_occupant(&b, 1), None);
    assert_eq!(find_occupant(&b, 2), Some(50));
    assert_eq!(find_occupant(&b, 9), None);
}

#[test]
fn effects_of_simple_actions() {
    let b = board();
    let pieces: Vec<LogPiece> = vec![];
    let sel = vec![3, 1];
    let (e, err) = execute_action_functionality(None, &sel, 7, None, &b, &pieces);
    assert!(e.is_empty() && err.is_none());
    let (e, err) = execute_action_functionality(Some(action(ActionFunctionality::DeleteTile)), &sel, 7, None, &b, &pieces);
    assert_eq!(e, vec![ActionEffect::DeleteTile(3), ActionEffect::DeleteTile(1)]);
    assert!(err.is_none());
    let (e, _) = execute_action_functionality(Some(action(ActionFunctionality::SpawnPiece(4))), &sel, 7, None, &b, &pieces);
    assert_eq!(
        e,
        vec![
            ActionEffect::SpawnPiece(SpawnLogPiece { player: 7, piece: 4, log_tile: 3 }),
            ActionEffect::SpawnPiece(SpawnLogPiece { player: 7, piece: 4, log_tile: 1 }),
        ]
    );
    let (e, _) = execute_action_functionality(Some(action(ActionFunctionality::DoubleTakeTest(4))), &sel, 7, None, &b, &pieces);
    assert_eq!(
        e,
        vec![
            ActionEffect::DeleteTile(1),
            ActionEffect::SpawnPiece(SpawnLogPiece { player: 7, piece: 4, log_tile: 3 }),
        ]
    );
    let (e, _) = execute_action_functionality(
        Some(action(ActionFunctionality::AlterActivePlayerCoinCount(-4))),
        &sel,
        7,
        None,
        &b,
        &pieces,
    );
    assert_eq!(e, vec![ActionEffect::ChangePlayerCoins { delta: -4, player: 7 }]);
    let (e, _) = execute_action_functionality(Some(action(ActionFunctionality::MoveSelfToTile)), &sel, 7, Some(50), &b, &pieces);
    assert_eq!(e, vec![ActionEffect::MovePiece { log_piece: 50, target_tile: 3 }]);
    let (e, _) = execute_action_functionality(Some(action(ActionFunctionality::RotateSelf)), &sel, 7, Some(50), &b, &pieces);
    assert_eq!(e, vec![ActionEffect::RotatePiece { log_piece: 50, target_tile: 3 }]);
}

#[test]
fn attacks_hit_pieces_on_selected_tiles() {
    let b = board();
    let pieces: Vec<LogPiece> = vec![];
    let hit = DamageType::Constant(2);
    let (e, err) = execute_action_functionality(
        Some(action(ActionFunctionality::AttackPiece(hit))),
        &vec![3, 1, 2],
        7,
        None,
        &b,
        &pieces,
    );
    assert!(err.is_none());
    assert_eq!(
        e,
        vec![
            ActionEffect::DamagePiece { log_piece: 60, method: hit, source_player: Some(7) },
            ActionEffect::DamagePiece { log_piece: 50, method: hit, source_player: Some(7) },
        ]
    );
}

#[test]
fn buying_pieces() {
    let b = board();
    let pieces = vec![piece(50, 8, None, Some(6)), piece(60, 8, None, None)];
    let buy = Some(action(ActionFunctionality::PurchasePiece));
    let (e, err) = execute_action_functionality(buy, &vec![2], 7, None, &b, &pieces);
    assert!(err.is_none());
    assert_eq!(
        e,
        vec![
            ActionEffect::TransferPieceOwnership { piece: 50, to_player: 7 },
            ActionEffect::WithdrawFromSale(50),
            ActionEffect::ChangePlayerCoins { delta: -6, player: 7 },
        ]
    );
    let (e, err) = execute_action_functionality(buy, &vec![3], 7, None, &b, &pieces);
    assert_eq!(err, Some(ExecutionError::PieceHasNoValue(60)));
    assert_eq!(
        e,
        vec![ActionEffect::TransferPieceOwnership { piece: 60, to_player: 7 }, ActionEffect::WithdrawFromSale(60)]
    );
    let (e, err) = execute_action_functionality(buy, &vec![1], 7, None, &b, &pieces);
    assert_eq!(err, Some(ExecutionError::TileHasNoPiece(1)));
    assert!(e.is_empty());
}

#[test]
fn moving_a_piece_frees_its_tile() {
    let mut b = board();
    let mut p = piece(50, 7, None, None);
    p.tile = Some(2);
    let mut pieces = vec![p, piece(60, 7, None, None)];
    assert!(move_piece(&mut b, &mut pieces, 50, 1));
    assert_eq!(find_occupant(&b, 1), Some(50));
    assert_eq!(find_occupant(&b, 2), None);
    assert_eq!(find_occupant(&b, 3), Some(60));
    assert_eq!(pieces[0].tile, Some(1));
    assert!(!move_piece(&mut b, &mut pieces, 99, 3));
    assert_eq!(find_occupant(&b, 3), Some(60));
}

#[test]
fn turning_a_piece_towards_a_neighbour() {
    let mut b = board();
    b.link(1, 0, 2);
    b.link(2, 1, 3);
    let mut p = piece(50, 7, None, None);
    p.tile = Some(2);
    let mut pieces = vec![p];
    assert!(rotate_piece(&b, &mut pieces, 50, 1));
    assert_eq!(pieces[0].facing, Some(FacingDirection(3)));
    assert!(rotate_piece(&b, &mut pieces, 50, 3));
    assert_eq!(pieces[0].facing, Some(FacingDirection(1)));
    assert!(!rotate_piece(&b, &mut pieces, 50, 2));
    assert!(!rotate_piece(&b, &mut pieces, 77, 1));
    assert_eq!(pieces[0].facing, Some(FacingDirection(1)));
}

#[test]
fn placing_and_removing_pieces() {
    let mut b = board();
    let mut pieces = vec![piece(50, 7, None, None)];
    let mut p = piece(70, 8, None, None);
    p.tile = Some(1);
    place_piece(&mut b, &mut pieces, p);
    assert_eq!(find_occupant(&b, 1), Some(70));
    assert_eq!(pieces.len(), 2);
    assert_eq!(pieces[1].entity, 70);
    let removed = remove_piece(&mut b, &mut pieces, 70).unwrap();
    assert_eq!(removed.entity, 70);
    assert_eq!(find_occupant(&b, 1), None);
    assert_eq!(pieces.len(), 1);
    assert!(remove_piece(&mut b, &mut pieces, 70).is_none());
    // A piece whose tile records someone else leaves that record alone.
    let mut q = piece(80, 8, None, None);
    q.tile = Some(2);
    pieces.push(q);
    assert!(remove_piece(&mut b, &mut pieces, 80).is_some());
    assert_eq!(find_occupant(&b, 2), Some(50));
}
