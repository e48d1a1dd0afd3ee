use hexlog::actions::{
    ActionFunctionality, Bounds, EligibilityDeterminationMethod, FanWidth, GameAction,
    GameDesignBounds, OccupationStatus,
};
use hexlog::eligibility::{evaluate_tiles, make_fan_directions, EvaluationError};
use hexlog::pieces::{FacingDirection, Health, LogPiece, PieceOrders};
use hexlog::setup::spawn_tiles;
use hexlog::tiles::{Board, SelectionState};

fn line(n: u64) -> Board {
    let mut b = Board::new();
    let ids: Vec<u64> = (1..=n).collect();
    spawn_tiles(&mut b, &ids);
    for e in 1..n {
        b.link(e, 0, e + 1);
    }
    b
}

fn piece(entity: u64, tile: u64, facing: Option<u8>, for_sale: bool) -> LogPiece {
    LogPiece {
        entity,
        owner: 500,
        tile: Some(tile),
        health: Health { max_health: 3, current_health: 3 },
        orders: PieceOrders([None; 5]),
        win_condition: false,
        facing: facing.map(FacingDirection),
        command_point: false,
        for_sale,
        orders_per_turn: None,
        value: None,
    }
}

fn act(m: EligibilityDeterminationMethod, max: usize) -> Option<GameAction> {
    Some(GameAction {
        functionality: ActionFunctionality::DeleteTile,
        eligibility_method: m,
        selection_count_bounds: GameDesignBounds(Bounds { min_tiles: 0, max_tiles: max }),
    })
}

fn states(b: &Board) -> Vec<SelectionState> {
    b.tiles().iter().map(|t| t.selection.read()).collect()
}

use SelectionState::{Eligible as E, Neither as N, Selected as S};

#[test]
fn no_action_changes_nothing() {
    let mut b = line(3);
    assert_eq!(evaluate_tiles(&mut b, None, &vec![], None), Ok(()));
    assert_eq!(states(&b), vec![N, N, N]);
}

#[test]
fn all_tiles_and_occupancy() {
    let mut b = line(3);
    b.set_occupant(2, Some(10));
    evaluate_tiles(&mut b, act(EligibilityDeterminationMethod::AllTiles, 5), &vec![], None).unwrap();
    assert_eq!(states(&b), vec![E, E, E]);
    evaluate_tiles(&mut b, act(EligibilityDeterminationMethod::AllPieces, 5), &vec![], None).unwrap();
    assert_eq!(states(&b), vec![N, E, N]);
    evaluate_tiles(&mut b, act(EligibilityDeterminationMethod::UnoccupiedTiles, 5), &vec![], None).unwrap();
    assert_eq!(states(&b), vec![E, N, E]);
    evaluate_tiles(&mut b, act(EligibilityDeterminationMethod::NoEligibility, 5), &vec![], None).unwrap();
    assert_eq!(states(&b), vec![E, N, E]);
}

#[test]
fn full_selection_closes_eligibility() {
    let mut b = line(3);
    evaluate_tiles(&mut b, act(EligibilityDeterminationMethod::AllTiles, 5), &vec![], None).unwrap();
    b.select_tile(1);
    evaluate_tiles(&mut b, act(EligibilityDeterminationMethod::AllTiles, 1), &vec![], None).unwrap();
    assert_eq!(states(&b), vec![S, N, N]);
}

#[test]
fn piece_chain_follows_neighbours() {
    let mut b = line(4);
    for e in [1, 2, 4] {
        b.set_occupant(e, Some(100 + e));
    }
    let chain = act(EligibilityDeterminationMethod::PieceChain, 10);
    evaluate_tiles(&mut b, chain, &vec![], None).unwrap();
    assert_eq!(states(&b), vec![E, E, N, E]);
    b.select_tile(1);
    evaluate_tiles(&mut b, chain, &vec![], None).unwrap();
    assert_eq!(states(&b), vec![S, E, N, N]);
    b.select_tile(2);
    evaluate_tiles(&mut b, chain, &vec![], None).unwrap();
    assert_eq!(states(&b), vec![S, S, N, N]);
}

#[test]
fn fan_reaches_its_depth() {
    let mut b = line(4);
    let pieces = vec![piece(7, 1, Some(0), false)];
    let fan = |depth| act(
        EligibilityDeterminationMethod::Fan { width: FanWidth::One, depth, occupied_or_not: OccupationStatus::Either },
        10,
    );
    evaluate_tiles(&mut b, fan(2), &pieces, Some(7)).unwrap();
    assert_eq!(states(&b), vec![N, E, E, N]);
    let mut b = line(4);
    evaluate_tiles(&mut b, fan(1), &pieces, Some(7)).unwrap();
    assert_eq!(states(&b), vec![N, E, N, N]);
    let mut b = line(4);
    evaluate_tiles(&mut b, fan(0), &pieces, Some(7)).unwrap();
    assert_eq!(states(&b), vec![N, N, N, N]);
}

#[test]
fn fan_in_every_direction_and_by_occupancy() {
    let mut b = line(4);
    b.set_occupant(3, Some(8));
    let pieces = vec![piece(7, 2, Some(0), false)];
    let all = act(
        EligibilityDeterminationMethod::Fan { width: FanWidth::All, depth: 1, occupied_or_not: OccupationStatus::Either },
        10,
    );
    evaluate_tiles(&mut b, all, &pieces, Some(7)).unwrap();
    assert_eq!(states(&b), vec![E, N, E, N]);
    let mut b = line(4);
    b.set_occupant(3, Some(8));
    let vacant = act(
        EligibilityDeterminationMethod::Fan { width: FanWidth::All, depth: 2, occupied_or_not: OccupationStatus::Vacant },
        10,
    );
    evaluate_tiles(&mut b, vacant, &pieces, Some(7)).unwrap();
    // two steps from tile 2 reach 1, 3, 4 and tile 2 itself; 3 is occupied
    assert_eq!(states(&b), vec![E, E, N, E]);
}

#[test]
fn fan_directions_turn_around() {
    assert_eq!(make_fan_directions(FanWidth::One, FacingDirection(4)), vec![4]);
    assert_eq!(make_fan_directions(FanWidth::Three, FacingDirection(0)), vec![5, 1, 0]);
    assert_eq!(make_fan_directions(FanWidth::Five, FacingDirection(5)), vec![4, 0, 3, 1, 5]);
    assert_eq!(make_fan_directions(FanWidth::All, FacingDirection(2)), vec![0, 1, 2, 3, 4, 5]);
}

#[test]
fn fan_without_a_usable_piece() {
    let mut b = line(2);
    let fan = act(
        EligibilityDeterminationMethod::Fan { width: FanWidth::One, depth: 1, occupied_or_not: OccupationStatus::Either },
        10,
    );
    assert_eq!(evaluate_tiles(&mut b, fan, &vec![], Some(7)), Err(EvaluationError::ActivePieceUnavailable));
    let unfaced = vec![piece(7, 1, None, false)];
    assert_eq!(evaluate_tiles(&mut b, fan, &unfaced, Some(7)), Err(EvaluationError::ActivePieceUnavailable));
    assert_eq!(states(&b), vec![N, N]);
}

#[test]
fn pieces_for_sale() {
    let mut b = line(3);
    evaluate_tiles(&mut b, act(EligibilityDeterminationMethod::AllTiles, 10), &vec![], None).unwrap();
    let pieces = vec![piece(7, 1, Some(0), true), piece(8, 2, Some(0), false), piece(9, 3, None, false)];
    let sale = act(EligibilityDeterminationMethod::PiecesForSale, 10);
    evaluate_tiles(&mut b, sale, &pieces, None).unwrap();
    assert_eq!(states(&b), vec![E, N, E]);
    let stray = vec![
        piece(7, 1, Some(0), false),
        piece(10, 66, None, true),
        piece(9, 55, Some(1), true),
        piece(8, 3, Some(0), false),
    ];
    assert_eq!(evaluate_tiles(&mut b, sale, &stray, None), Err(EvaluationError::TileNotFound(55)));
    assert_eq!(states(&b), vec![N, N, E]);
}
