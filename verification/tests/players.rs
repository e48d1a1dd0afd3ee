use hexlog::pieces::{Health, LogPiece, OrdersPerTurn, PieceOrders};
use hexlog::players::{
    calculate_player_orders_this_turn, check_if_player_dead_or_game_over, create_basic_players,
    create_ghost_player, replenish_piece_orders, sell_pieces, switch_player, transfer_piece_ownership,
    LogPlayer, PlayerState, SwitchOutcome, TurnError,
};

fn piece(entity: u64, owner: u64) -> LogPiece {
    LogPiece {
        entity,
        owner,
        tile: None,
        health: Health { max_health: 1, current_health: 1 },
        orders: PieceOrders([None; 5]),
        win_condition: false,
        facing: None,
        command_point: false,
        for_sale: false,
        orders_per_turn: None,
        value: None,
    }
}

fn with_state(mut players: Vec<LogPlayer>, e: u64, s: PlayerState) -> Vec<LogPlayer> {
    for p in players.iter_mut() {
        if p.entity == e {
            p.state = s;
        }
    }
    players
}

#[test]
fn players_take_turns_in_order() {
    let (players, first) = create_basic_players(&vec![10, 20, 30]);
    assert_eq!(first, 10);
    assert_eq!(players.len(), 3);
    assert_eq!(players[0].next_player, Some(20));
    assert_eq!(players[1].next_player, Some(30));
    assert_eq!(players[2].next_player, Some(10));
    assert!(players.iter().all(|p| p.state == PlayerState::HasNoTowerYet && p.orders_remaining == Some(0)));
    let ghost = create_ghost_player(99);
    assert_eq!(ghost.state, PlayerState::Dead);
    assert_eq!(ghost.next_player, None);
}

#[test]
fn a_player_without_tower_keeps_the_turn() {
    let (players, _) = create_basic_players(&vec![10, 20]);
    assert_eq!(switch_player(&players, 10), Ok(SwitchOutcome::Kept));
}

#[test]
fn turns_skip_dead_players() {
    let (players, _) = create_basic_players(&vec![10, 20, 30]);
    let players = with_state(players, 10, PlayerState::Alive);
    let players = with_state(players, 20, PlayerState::Dead);
    assert_eq!(
        switch_player(&players, 10),
        Ok(SwitchOutcome::Switched { next: 30, check_for_winner: false })
    );
    let players = with_state(players, 30, PlayerState::Dead);
    assert_eq!(
        switch_player(&players, 10),
        Ok(SwitchOutcome::Switched { next: 10, check_for_winner: true })
    );
    assert_eq!(switch_player(&players, 77), Err(TurnError::NotAPlayer(77)));
}

#[test]
fn orders_per_turn_count_command_points() {
    let (mut players, _) = create_basic_players(&vec![10, 20]);
    let mut a = piece(1, 10);
    a.command_point = true;
    let mut b = piece(2, 20);
    b.command_point = true;
    let mut c = piece(3, 10);
    c.command_point = true;
    let pieces = vec![a, b, c, piece(4, 10)];
    assert_eq!(calculate_player_orders_this_turn(&mut players, &pieces, 10), Ok(()));
    assert_eq!(players[0].orders_remaining, Some(4));
    assert_eq!(players[1].orders_remaining, Some(0));
    let mut with_ghost = vec![create_ghost_player(99)];
    assert_eq!(
        calculate_player_orders_this_turn(&mut with_ghost, &pieces, 99),
        Err(TurnError::NotAPlayer(99))
    );
}

#[test]
fn replenishing_stops_at_a_piece_without_orders() {
    let mut a = piece(1, 10);
    a.orders_per_turn = Some(OrdersPerTurn { current: 0, max: 2 });
    let b = piece(2, 10);
    let mut c = piece(3, 10);
    c.orders_per_turn = Some(OrdersPerTurn { current: 1, max: 3 });
    let mut d = piece(4, 20);
    d.orders_per_turn = Some(OrdersPerTurn { current: 0, max: 1 });
    let mut pieces = vec![a, b, c, d];
    assert_eq!(replenish_piece_orders(&mut pieces, 10), Some(2));
    assert_eq!(pieces[0].orders_per_turn, Some(OrdersPerTurn { current: 2, max: 2 }));
    assert_eq!(pieces[2].orders_per_turn, Some(OrdersPerTurn { current: 1, max: 3 }));
    assert_eq!(replenish_piece_orders(&mut pieces, 20), None);
    assert_eq!(pieces[3].orders_per_turn, Some(OrdersPerTurn { current: 1, max: 1 }));
}

#[test]
fn losing_the_tower_kills_and_ends_the_game() {
    let (players, _) = create_basic_players(&vec![10, 20, 30]);
    let players = with_state(players, 10, PlayerState::Alive);
    let mut players = with_state(players, 20, PlayerState::Alive);
    let mut tower = piece(1, 20);
    tower.win_condition = true;
    // 10 owns only a drill, 20 owns its tower, 30 owns nothing and is not considered
    let pieces = vec![piece(5, 10), tower];
    let check = check_if_player_dead_or_game_over(&mut players, &pieces, 10);
    assert_eq!(check.died, vec![10]);
    assert!(check.switch_player);
    assert_eq!(check.game_over, Some(Some(20)));
    assert_eq!(players[0].state, PlayerState::Dead);
    assert_eq!(players[1].state, PlayerState::Alive);
    assert_eq!(players[2].state, PlayerState::HasNoTowerYet);
}

#[test]
fn two_living_players_keep_playing() {
    let (mut players, _) = create_basic_players(&vec![10, 20]);
    let pieces = vec![piece(5, 10), piece(6, 20)];
    let check = check_if_player_dead_or_game_over(&mut players, &pieces, 10);
    assert!(check.died.is_empty());
    assert!(!check.switch_player);
    assert_eq!(check.game_over, None);
    let no_pieces: Vec<LogPiece> = vec![];
    let check = check_if_player_dead_or_game_over(&mut players, &no_pieces, 10);
    assert_eq!(check.game_over, Some(None));
}

#[test]
fn the_dead_sell_their_pieces_to_the_ghost() {
    let mut pieces = vec![piece(1, 10), piece(2, 20), piece(3, 10)];
    assert_eq!(sell_pieces(&mut pieces, 10, 99), Ok(()));
    assert!(pieces[0].for_sale && pieces[0].owner == 99);
    assert!(!pieces[1].for_sale && pieces[1].owner == 20);
    assert!(pieces[2].for_sale && pieces[2].owner == 99);
    assert_eq!(sell_pieces(&mut pieces, 10, 99), Err(TurnError::NotAPlayer(10)));
    assert!(transfer_piece_ownership(&mut pieces, 2, 10));
    assert_eq!(pieces[1].owner, 10);
    assert!(!transfer_piece_ownership(&mut pieces, 42, 10));
}
