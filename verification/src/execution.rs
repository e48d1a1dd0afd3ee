//! Choosing, checking and carrying out the current action.

use vstd::prelude::*;
use crate::actions::{
    ActionFunctionality, ActionSource, DamageType, GameAction, SelectionBounds, SetActionTo,
};
use crate::pieces::{
    find_piece, piece_present, pieces_distinct, FacingDirection, LogPiece, OrdersPerTurn, SpawnLogPiece,
};
use crate::players::{find_player, lemma_player_of, player_present, players_distinct, LogPlayer};
use crate::tiles::{distinct_entities, neighbour, tile_of, tile_present, Board, LogTile};

verus! {

/// Replaces the current action and its source, and starts the selection
/// over. Returns whether the active piece must be cleared, which is the case
/// when the new action comes from a card.
pub fn handle_action_change(
    instructions: SetActionTo,
    current_action: &mut Option<GameAction>,
    current_source: &mut Option<ActionSource>,
    board: &mut Board,
) -> (clear_active_piece: bool)
    requires
        old(board).wf(),
    ensures
        final(board).wf(),
        final(board).selected_view() == Seq::<u64>::empty(),
        final(board)@.len() == old(board)@.len(),
        forall|k: int|
            0 <= k < old(board)@.len() ==> {
                &&& (#[trigger] final(board)@[k]).entity == old(board)@[k].entity
                &&& final(board)@[k].occupant == old(board)@[k].occupant
                &&& final(board)@[k].adjacents == old(board)@[k].adjacents
                &&& final(board)@[k].tile_type == old(board)@[k].tile_type
                &&& final(board)@[k].selection@ == crate::tiles::SelectionState::Neither
            },
        match instructions {
            SetActionTo::NoAction => *final(current_action) is None && *final(current_source) is None
                && !clear_active_piece,
            SetActionTo::Action { action, source } => *final(current_action) == Some(action)
                && *final(current_source) == Some(source) && clear_active_piece == (source is Card),
        },
{
    let clear = match instructions {
        SetActionTo::NoAction => {
            *current_action = None;
            *current_source = None;
            false
        },
        SetActionTo::Action { action, source } => {
            *current_action = Some(action);
            *current_source = Some(source);
            match source {
                ActionSource::Card { .. } => true,
                ActionSource::Order { .. } => false,
                ActionSource::OrphanPiecePurchasing => false,
            }
        },
    };
    board.reset_selection();
    clear
}

/// Why an action could not be checked or carried out.
#[derive(Debug, Clone, Copy, PartialEq, Eq, Structural)]
pub enum ExecutionError {
    /// The piece does not exist, or has no orders per turn.
    PieceUnavailable(u64),
    /// The player does not exist, or has no orders remaining.
    PlayerUnavailable(u64),
    /// The tile holds no piece.
    TileHasNoPiece(u64),
    /// The piece has no price.
    PieceHasNoValue(u64),
}

/// The piece with id `e` (meaningful when it exists).
pub open spec fn piece_of(pieces: Seq<LogPiece>, e: u64) -> LogPiece {
    pieces[choose|i: int| 0 <= i < pieces.len() && (#[trigger] pieces[i]).entity == e]
}

/// The orders per turn of the piece `e`, when it exists and has them.
pub open spec fn piece_orders(pieces: Seq<LogPiece>, e: u64) -> Option<OrdersPerTurn> {
    if piece_present(pieces, e) {
        piece_of(pieces, e).orders_per_turn
    } else {
        None
    }
}

/// The orders remaining to the player `e`, when it exists and has them.
pub open spec fn player_orders(players: Seq<LogPlayer>, e: u64) -> Option<u32> {
    if player_present(players, e) {
        crate::players::player_of(players, e).orders_remaining
    } else {
        None
    }
}

/// What checking a request to execute the current action gives: whether to
/// execute it, or why the check failed.
pub open spec fn execution_check(
    action: Option<GameAction>,
    source: Option<ActionSource>,
    selected: nat,
    active_player: u64,
    active_piece: Option<u64>,
    players: Seq<LogPlayer>,
    pieces: Seq<LogPiece>,
) -> Result<bool, ExecutionError> {
    match (action, source) {
        (Some(a), Some(s)) => {
            let in_bounds = a.functionality.spec_bounds().min_tiles <= selected
                <= a.functionality.spec_bounds().max_tiles;
            match s {
                ActionSource::Order { .. } => match active_piece {
                    None => Ok(false),
                    Some(p) => match piece_orders(pieces, p) {
                        None => Err(ExecutionError::PieceUnavailable(p)),
                        Some(o) => match player_orders(players, active_player) {
                            None => Err(ExecutionError::PlayerUnavailable(active_player)),
                            Some(n) => Ok(
                                in_bounds && n > 0 && o.current > 0 && piece_of(pieces, p).owner
                                    == active_player,
                            ),
                        },
                    },
                },
                _ => Ok(in_bounds),
            }
        },
        _ => Ok(false),
    }
}

/// Checks a request to execute the current action: there must be an action
/// and a source, the number of selected tiles must fit what the action does,
/// and an order needs the active player's piece, with orders left to both.
pub fn validate_execution_request(
    action: Option<GameAction>,
    source: Option<ActionSource>,
    selected: &Vec<u64>,
    active_player: u64,
    active_piece: Option<u64>,
    players: &Vec<LogPlayer>,
    pieces: &Vec<LogPiece>,
) -> (r: Result<bool, ExecutionError>)
    requires
        pieces_distinct(pieces@),
        players_distinct(players@),
    ensures
        r == execution_check(
            action,
            source,
            selected@.len(),
            active_player,
            active_piece,
            players@,
            pieces@,
        ),
{
    let action_info = match action {
        None => {
            return Ok(false);
        },
        Some(a) => a,
    };
    let source = match source {
        None => {
            return Ok(false);
        },
        Some(s) => s,
    };
    let amount_selected = selected.len();
    let order_count_ok = match source {
        ActionSource::Order { .. } => {
            let piece = match active_piece {
                None => {
                    return Ok(false);
                },
                Some(p) => p,
            };
            let (piece_orders_remaining, owner) = match find_piece(pieces, piece) {
                None => {
                    return Err(ExecutionError::PieceUnavailable(piece));
                },
                Some(i) => {
                    proof {
                        lemma_piece_of(pieces@, i as int);
                    }
                    match pieces[i].orders_per_turn {
                        None => {
                            return Err(ExecutionError::PieceUnavailable(piece));
                        },
                        Some(o) => (o.current, pieces[i].owner),
                    }
                },
            };
            let player_orders_remaining = match find_player(players, active_player) {
                None => {
                    return Err(ExecutionError::PlayerUnavailable(active_player));
                },
                Some(j) => {
                    proof {
                        lemma_player_of(players@, j as int);
                    }
                    match players[j].orders_remaining {
                        None => {
                            return Err(ExecutionError::PlayerUnavailable(active_player));
                        },
                        Some(n) => n,
                    }
                },
            };
            player_orders_remaining > 0 && piece_orders_remaining > 0 && owner == active_player
        },
        _ => true,
    };
    Ok(amount_selected >= action_info.functionality.bounds().min_tiles && amount_selected
        <= action_info.functionality.bounds().max_tiles && order_count_ok)
}

proof fn lemma_piece_of(pieces: Seq<LogPiece>, i: int)
    requires
        pieces_distinct(pieces),
        0 <= i < pieces.len(),
    ensures
        piece_present(pieces, pieces[i].entity),
        piece_of(pieces, pieces[i].entity) == pieces[i],
{
    let e = pieces[i].entity;
    assert(piece_present(pieces, e));
    let c = choose|c: int| 0 <= c < pieces.len() && (#[trigger] pieces[c]).entity == e;
    assert(c == i);
}

/// The state after an order was carried out: the active player and the
/// active piece each have one order less.
pub open spec fn orders_spent(
    source: Option<ActionSource>,
    active_piece: Option<u64>,
) -> bool {
    source matches Some(ActionSource::Order { .. }) && active_piece is Some
}

/// After an order from the active piece was carried out, takes one order
/// from the active player and one from the piece.
pub fn modify_orders_remaining(
    source: Option<ActionSource>,
    active_piece: Option<u64>,
    active_player: u64,
    players: &mut Vec<LogPlayer>,
    pieces: &mut Vec<LogPiece>,
) -> (r: Result<(), ExecutionError>)
    requires
        pieces_distinct(old(pieces)@),
        players_distinct(old(players)@),
        orders_spent(source, active_piece) ==> (player_orders(old(players)@, active_player) matches Some(
            n,
        ) ==> n > 0),
        orders_spent(source, active_piece) ==> (piece_orders(old(pieces)@, active_piece->0) matches Some(
            o,
        ) ==> o.current > 0),
    ensures
        pieces_distinct(final(pieces)@),
        players_distinct(final(players)@),
        final(players)@.len() == old(players)@.len(),
        final(pieces)@.len() == old(pieces)@.len(),
        !orders_spent(source, active_piece) ==> r is Ok && final(players)@ == old(players)@
            && final(pieces)@ == old(pieces)@,
        orders_spent(source, active_piece) ==> orders_taken(
            old(players)@,
            old(pieces)@,
            final(players)@,
            final(pieces)@,
            active_player,
            active_piece->0,
            r,
        ),
{
    let piece = match (source, active_piece) {
        (Some(ActionSource::Order { .. }), Some(p)) => p,
        _ => {
            return Ok(());
        },
    };
    let j = match find_player(players, active_player) {
        None => {
            return Err(ExecutionError::PlayerUnavailable(active_player));
        },
        Some(j) => j,
    };
    proof {
        lemma_player_of(players@, j as int);
    }
    let mut pl = players[j];
    match pl.orders_remaining {
        None => {
            return Err(ExecutionError::PlayerUnavailable(active_player));
        },
        Some(n) => {
            pl.orders_remaining = Some(n - 1);
        },
    }
    players.set(j, pl);
    proof {
        assert forall|x: int, y: int|
            0 <= x < players@.len() && 0 <= y < players@.len() && x != y implies (#[trigger] players@[x]).entity
                != (#[trigger] players@[y]).entity by {
            assert(old(players)@[x].entity != old(players)@[y].entity);
        }
        assert forall|k: int| 0 <= k < old(players)@.len() && k != j implies old(players)@[k].entity != active_player by {}
    }
    let i = match find_piece(pieces, piece) {
        None => {
            return Err(ExecutionError::PieceUnavailable(piece));
        },
        Some(i) => i,
    };
    proof {
        lemma_piece_of(pieces@, i as int);
    }
    let mut pc = pieces[i];
    match pc.orders_per_turn {
        None => {
            return Err(ExecutionError::PieceUnavailable(piece));
        },
        Some(o) => {
            pc.orders_per_turn = Some(OrdersPerTurn { current: o.current - 1, max: o.max });
        },
    }
    pieces.set(i, pc);
    proof {
        assert forall|x: int, y: int|
            0 <= x < pieces@.len() && 0 <= y < pieces@.len() && x != y implies (#[trigger] pieces@[x]).entity
                != (#[trigger] pieces@[y]).entity by {
            assert(old(pieces)@[x].entity != old(pieces)@[y].entity);
        }
        assert forall|k: int| 0 <= k < old(pieces)@.len() && k != i implies old(pieces)@[k].entity != piece by {}
    }
    Ok(())
}

/// The player `p` with one order less.
pub open spec fn one_order_less(p: LogPlayer) -> LogPlayer {
    LogPlayer { orders_remaining: Some((p.orders_remaining->0 - 1) as u32), ..p }
}

/// The piece `p` with one order less this turn.
pub open spec fn piece_one_order_less(p: LogPiece) -> LogPiece {
    LogPiece {
        orders_per_turn: Some(
            OrdersPerTurn {
                current: (p.orders_per_turn->0.current - 1) as u32,
                max: p.orders_per_turn->0.max,
            },
        ),
        ..p
    }
}

/// How taking an order away changed players and pieces. The player loses an
/// order first; when the player has none to lose the check stops there, and
/// when the piece has none, the player's order is already gone.
pub open spec fn orders_taken(
    players: Seq<LogPlayer>,
    pieces: Seq<LogPiece>,
    new_players: Seq<LogPlayer>,
    new_pieces: Seq<LogPiece>,
    player: u64,
    piece: u64,
    r: Result<(), ExecutionError>,
) -> bool {
    let players_after = forall|k: int|
        0 <= k < players.len() ==> #[trigger] new_players[k] == if players[k].entity == player {
            one_order_less(players[k])
        } else {
            players[k]
        };
    let pieces_after = forall|k: int|
        0 <= k < pieces.len() ==> #[trigger] new_pieces[k] == if pieces[k].entity == piece {
            piece_one_order_less(pieces[k])
        } else {
            pieces[k]
        };
    if player_orders(players, player) is None {
        r == Err::<(), ExecutionError>(ExecutionError::PlayerUnavailable(player)) && new_players
            == players && new_pieces == pieces
    } else if piece_orders(pieces, piece) is None {
        r == Err::<(), ExecutionError>(ExecutionError::PieceUnavailable(piece)) && players_after
            && new_pieces == pieces
    } else {
        r is Ok && players_after && pieces_after
    }
}

/// An order that passed the execution check can be paid for: the active
/// player and the active piece both have an order left to spend, and taking
/// the order away succeeds.
pub proof fn lemma_checked_order_can_be_paid(
    action: Option<GameAction>,
    source: Option<ActionSource>,
    selected: nat,
    active_player: u64,
    active_piece: Option<u64>,
    players: Seq<LogPlayer>,
    pieces: Seq<LogPiece>,
)
    requires
        execution_check(action, source, selected, active_player, active_piece, players, pieces)
            == Ok::<bool, ExecutionError>(true),
        orders_spent(source, active_piece),
    ensures
        player_orders(players, active_player) matches Some(n) && n > 0,
        piece_orders(pieces, active_piece->0) matches Some(o) && o.current > 0,
        piece_of(pieces, active_piece->0).owner == active_player,
        action matches Some(a) && a.functionality.spec_bounds().min_tiles <= selected
            <= a.functionality.spec_bounds().max_tiles,
        forall|new_players: Seq<LogPlayer>, new_pieces: Seq<LogPiece>, r: Result<(), ExecutionError>|
            #[trigger] orders_taken(
                players,
                pieces,
                new_players,
                new_pieces,
                active_player,
                active_piece->0,
                r,
            ) ==> r is Ok,
{
}

/// Who stands on the tile `t` once `piece` moved from the tile `from` to
/// the tile `target`.
pub open spec fn moved_occupant(t: LogTile, piece: u64, from: Option<u64>, target: u64) -> Option<u64> {
    if t.entity == target {
        Some(piece)
    } else if from == Some(t.entity) {
        None
    } else {
        t.occupant
    }
}

/// Moves the piece `piece` to the tile `target`: the tile it stood on is
/// freed and the target records it. Returns whether the piece exists;
/// nothing changes when it does not.
pub fn move_piece(board: &mut Board, pieces: &mut Vec<LogPiece>, piece: u64, target: u64) -> (moved: bool)
    requires
        old(board).wf(),
        pieces_distinct(old(pieces)@),
    ensures
        final(board).wf(),
        final(board).selected_view() == old(board).selected_view(),
        pieces_distinct(final(pieces)@),
        moved == piece_present(old(pieces)@, piece),
        !moved ==> final(board)@ == old(board)@ && final(pieces)@ == old(pieces)@,
        final(pieces)@.len() == old(pieces)@.len(),
        final(board)@.len() == old(board)@.len(),
        moved ==> forall|k: int|
            0 <= k < old(pieces)@.len() ==> #[trigger] final(pieces)@[k] == if old(pieces)@[k].entity
                == piece {
                LogPiece { tile: Some(target), ..old(pieces)@[k] }
            } else {
                old(pieces)@[k]
            },
        moved ==> forall|k: int|
            0 <= k < old(board)@.len() ==> #[trigger] final(board)@[k] == (LogTile {
                occupant: moved_occupant(old(board)@[k], piece, piece_of(old(pieces)@, piece).tile, target),
                ..old(board)@[k]
            }),
        occupancy_agrees(old(board)@, old(pieces)@) && vacant(old(board)@, target) ==> occupancy_agrees(
            final(board)@,
            final(pieces)@,
        ),
{
    match find_piece(pieces, piece) {
        None => false,
        Some(i) => {
            proof {
                lemma_piece_of(pieces@, i as int);
            }
            let ghost board0 = board@;
            let from = pieces[i].tile;
            match from {
                Some(f) => board.set_occupant(f, None),
                None => {},
            }
            let ghost board1 = board@;
            board.set_occupant(target, Some(piece));
            proof {
                assert forall|k: int| 0 <= k < board0.len() implies #[trigger] board@[k] == (LogTile {
                    occupant: moved_occupant(board0[k], piece, from, target),
                    ..board0[k]
                }) by {
                    assert(board1[k].entity == board0[k].entity);
                }
            }
            let mut p = pieces[i];
            p.tile = Some(target);
            pieces.set(i, p);
            proof {
                assert forall|x: int, y: int|
                    0 <= x < pieces@.len() && 0 <= y < pieces@.len() && x != y implies (#[trigger] pieces@[x]).entity
                        != (#[trigger] pieces@[y]).entity by {
                    assert(old(pieces)@[x].entity != old(pieces)@[y].entity);
                }
                assert forall|k: int| 0 <= k < old(pieces)@.len() && k != i implies old(pieces)@[k].entity != piece by {}
                if occupancy_agrees(old(board)@, old(pieces)@) && vacant(old(board)@, target) {
                    lemma_move_agrees(old(board)@, old(pieces)@, board@, pieces@, piece, target);
                }
            }
            true
        },
    }
}

/// Pieces and tiles agree on who stands where: a tile of the board on which a
/// piece stands records that piece, and a tile that records an occupant
/// records a piece standing on it. So no two pieces share a tile.
pub open spec fn occupancy_agrees(tiles: Seq<LogTile>, pieces: Seq<LogPiece>) -> bool {
    &&& forall|i: int, k: int|
        #![trigger pieces[i], tiles[k]]
        0 <= i < pieces.len() && 0 <= k < tiles.len() && pieces[i].tile == Some(tiles[k].entity)
            ==> tiles[k].occupant == Some(pieces[i].entity)
    &&& forall|k: int|
        #![trigger tiles[k]]
        0 <= k < tiles.len() && tiles[k].occupant is Some ==> exists|i: int|
            0 <= i < pieces.len() && (#[trigger] pieces[i]).entity == tiles[k].occupant->0
                && pieces[i].tile == Some(tiles[k].entity)
}

/// The tile `t`, when it is on the board, records no occupant.
pub open spec fn vacant(tiles: Seq<LogTile>, t: u64) -> bool {
    forall|k: int| 0 <= k < tiles.len() && (#[trigger] tiles[k]).entity == t ==> tiles[k].occupant is None
}

proof fn lemma_place_agrees(
    tiles: Seq<LogTile>,
    pieces: Seq<LogPiece>,
    new_tiles: Seq<LogTile>,
    piece: LogPiece,
)
    requires
        occupancy_agrees(tiles, pieces),
        piece.tile matches Some(t) ==> vacant(tiles, t),
        new_tiles.len() == tiles.len(),
        forall|k: int|
            0 <= k < tiles.len() ==> #[trigger] new_tiles[k] == if piece.tile == Some(tiles[k].entity) {
                LogTile { occupant: Some(piece.entity), ..tiles[k] }
            } else {
                tiles[k]
            },
    ensures
        occupancy_agrees(new_tiles, pieces.push(piece)),
{
    let np = pieces.push(piece);
    let n = pieces.len() as int;
    assert forall|i: int, k: int|
        #![trigger np[i], new_tiles[k]]
        0 <= i < np.len() && 0 <= k < new_tiles.len() && np[i].tile == Some(new_tiles[k].entity)
            implies new_tiles[k].occupant == Some(np[i].entity) by {
        assert(new_tiles[k] == if piece.tile == Some(tiles[k].entity) {
            LogTile { occupant: Some(piece.entity), ..tiles[k] }
        } else {
            tiles[k]
        });
        if i < n {
            assert(np[i] == pieces[i]);
            if piece.tile == Some(tiles[k].entity) {
                assert(tiles[k].occupant == Some(pieces[i].entity));
                assert(tiles[k].occupant is None);
            }
        }
    }
    assert forall|k: int|
        #![trigger new_tiles[k]]
        0 <= k < new_tiles.len() && new_tiles[k].occupant is Some implies exists|i: int|
            0 <= i < np.len() && (#[trigger] np[i]).entity == new_tiles[k].occupant->0
                && np[i].tile == Some(new_tiles[k].entity) by {
        if piece.tile == Some(tiles[k].entity) {
            assert(np[n] == piece);
        } else {
            assert(new_tiles[k] == tiles[k]);
            let i = choose|i: int|
                0 <= i < pieces.len() && (#[trigger] pieces[i]).entity == tiles[k].occupant->0
                    && pieces[i].tile == Some(tiles[k].entity);
            assert(np[i] == pieces[i]);
        }
    }
}

proof fn lemma_remove_agrees(
    tiles: Seq<LogTile>,
    pieces: Seq<LogPiece>,
    new_tiles: Seq<LogTile>,
    i0: int,
)
    requires
        occupancy_agrees(tiles, pieces),
        pieces_distinct(pieces),
        0 <= i0 < pieces.len(),
        new_tiles.len() == tiles.len(),
        forall|k: int|
            0 <= k < tiles.len() ==> #[trigger] new_tiles[k] == if pieces[i0].tile == Some(tiles[k].entity)
                && tiles[k].occupant == Some(pieces[i0].entity) {
                LogTile { occupant: None, ..tiles[k] }
            } else {
                tiles[k]
            },
    ensures
        occupancy_agrees(new_tiles, pieces.remove(i0)),
{
    let np = pieces.remove(i0);
    let p = pieces[i0];
    assert forall|i: int, k: int|
        #![trigger np[i], new_tiles[k]]
        0 <= i < np.len() && 0 <= k < new_tiles.len() && np[i].tile == Some(new_tiles[k].entity)
            implies new_tiles[k].occupant == Some(np[i].entity) by {
        let oi = if i < i0 { i } else { i + 1 };
        assert(np[i] == pieces[oi]);
        assert(pieces[oi].entity != p.entity);
        assert(new_tiles[k].entity == tiles[k].entity);
        assert(tiles[k].occupant == Some(pieces[oi].entity));
    }
    assert forall|k: int|
        #![trigger new_tiles[k]]
        0 <= k < new_tiles.len() && new_tiles[k].occupant is Some implies exists|i: int|
            0 <= i < np.len() && (#[trigger] np[i]).entity == new_tiles[k].occupant->0
                && np[i].tile == Some(new_tiles[k].entity) by {
        assert(new_tiles[k] == tiles[k]);
        let i = choose|i: int|
            0 <= i < pieces.len() && (#[trigger] pieces[i]).entity == tiles[k].occupant->0
                && pieces[i].tile == Some(tiles[k].entity);
        assert(i != i0);
        let ni = if i < i0 { i } else { i - 1 };
        assert(np[ni] == pieces[i]);
    }
}

proof fn lemma_move_agrees(
    tiles: Seq<LogTile>,
    pieces: Seq<LogPiece>,
    new_tiles: Seq<LogTile>,
    new_pieces: Seq<LogPiece>,
    piece: u64,
    target: u64,
)
    requires
        occupancy_agrees(tiles, pieces),
        pieces_distinct(pieces),
        distinct_entities(tiles),
        piece_present(pieces, piece),
        vacant(tiles, target),
        new_pieces.len() == pieces.len(),
        new_tiles.len() == tiles.len(),
        forall|k: int|
            0 <= k < pieces.len() ==> #[trigger] new_pieces[k] == if pieces[k].entity == piece {
                LogPiece { tile: Some(target), ..pieces[k] }
            } else {
                pieces[k]
            },
        forall|k: int|
            0 <= k < tiles.len() ==> #[trigger] new_tiles[k] == (LogTile {
                occupant: moved_occupant(tiles[k], piece, piece_of(pieces, piece).tile, target),
                ..tiles[k]
            }),
    ensures
        occupancy_agrees(new_tiles, new_pieces),
{
    let ip = choose|i: int| 0 <= i < pieces.len() && (#[trigger] pieces[i]).entity == piece;
    let from = pieces[ip].tile;
    assert(piece_of(pieces, piece) == pieces[ip]) by {
        let c = choose|c: int| 0 <= c < pieces.len() && (#[trigger] pieces[c]).entity == piece;
        if c != ip {
            assert(pieces[c].entity != pieces[ip].entity);
        }
    }
    assert forall|i: int, k: int|
        #![trigger new_pieces[i], new_tiles[k]]
        0 <= i < new_pieces.len() && 0 <= k < new_tiles.len() && new_pieces[i].tile == Some(
            new_tiles[k].entity,
        ) implies new_tiles[k].occupant == Some(new_pieces[i].entity) by {
        assert(new_tiles[k].entity == tiles[k].entity);
        if pieces[i].entity == piece {
        } else {
            assert(new_pieces[i] == pieces[i]);
            assert(tiles[k].occupant == Some(pieces[i].entity));
            if tiles[k].entity == target {
                assert(tiles[k].occupant is None);
            }
            if from == Some(tiles[k].entity) {
                assert(tiles[k].occupant == Some(pieces[ip].entity));
                assert(pieces[i].entity != pieces[ip].entity);
            }
        }
    }
    assert forall|k: int|
        #![trigger new_tiles[k]]
        0 <= k < new_tiles.len() && new_tiles[k].occupant is Some implies exists|i: int|
            0 <= i < new_pieces.len() && (#[trigger] new_pieces[i]).entity == new_tiles[k].occupant->0
                && new_pieces[i].tile == Some(new_tiles[k].entity) by {
        if tiles[k].entity == target {
            assert(new_pieces[ip].entity == piece);
        } else {
            assert(new_tiles[k].occupant == tiles[k].occupant);
            let i = choose|i: int|
                0 <= i < pieces.len() && (#[trigger] pieces[i]).entity == tiles[k].occupant->0
                    && pieces[i].tile == Some(tiles[k].entity);
            if i == ip {
                assert(from == Some(tiles[k].entity));
            }
            assert(new_pieces[i] == pieces[i]);
        }
    }
}

/// Puts a newly spawned piece into play: it joins the pieces, and the tile
/// it stands on records it as its occupant.
pub fn place_piece(board: &mut Board, pieces: &mut Vec<LogPiece>, piece: LogPiece)
    requires
        old(board).wf(),
        pieces_distinct(old(pieces)@),
        !piece_present(old(pieces)@, piece.entity),
    ensures
        final(board).wf(),
        final(board).selected_view() == old(board).selected_view(),
        pieces_distinct(final(pieces)@),
        final(pieces)@ == old(pieces)@.push(piece),
        final(board)@.len() == old(board)@.len(),
        forall|k: int|
            0 <= k < old(board)@.len() ==> #[trigger] final(board)@[k] == if piece.tile == Some(
                old(board)@[k].entity,
            ) {
                LogTile { occupant: Some(piece.entity), ..old(board)@[k] }
            } else {
                old(board)@[k]
            },
        occupancy_agrees(old(board)@, old(pieces)@) && (piece.tile matches Some(t) ==> vacant(
            old(board)@,
            t,
        )) ==> occupancy_agrees(final(board)@, final(pieces)@),
{
    match piece.tile {
        Some(t) => board.set_occupant(t, Some(piece.entity)),
        None => {},
    }
    pieces.push(piece);
    proof {
        if occupancy_agrees(old(board)@, old(pieces)@) && (piece.tile matches Some(t) ==> vacant(
            old(board)@,
            t,
        )) {
            lemma_place_agrees(old(board)@, old(pieces)@, board@, piece);
        }
        assert forall|x: int, y: int|
            0 <= x < pieces@.len() && 0 <= y < pieces@.len() && x != y implies (#[trigger] pieces@[x]).entity
                != (#[trigger] pieces@[y]).entity by {
            if x < old(pieces)@.len() && y < old(pieces)@.len() {
                assert(old(pieces)@[x].entity != old(pieces)@[y].entity);
            } else if x < old(pieces)@.len() {
                assert(pieces@[x] == old(pieces)@[x]);
            } else {
                assert(pieces@[y] == old(pieces)@[y]);
            }
        }
    }
}

/// Takes a destroyed piece out of play: it leaves the pieces, and the tile
/// it stood on, when that tile records it, has no occupant any more. Returns
/// the piece, or `None`, changing nothing, when there is no such piece.
pub fn remove_piece(board: &mut Board, pieces: &mut Vec<LogPiece>, entity: u64) -> (r: Option<LogPiece>)
    requires
        old(board).wf(),
        pieces_distinct(old(pieces)@),
    ensures
        final(board).wf(),
        final(board).selected_view() == old(board).selected_view(),
        pieces_distinct(final(pieces)@),
        r is None <==> !piece_present(old(pieces)@, entity),
        r is None ==> final(board)@ == old(board)@ && final(pieces)@ == old(pieces)@,
        final(board)@.len() == old(board)@.len(),
        r matches Some(p) ==> {
            &&& p == piece_of(old(pieces)@, entity)
            &&& p.entity == entity
            &&& exists|i: int|
                0 <= i < old(pieces)@.len() && #[trigger] old(pieces)@[i] == p && final(pieces)@
                    == old(pieces)@.remove(i)
            &&& forall|k: int|
                0 <= k < old(board)@.len() ==> #[trigger] final(board)@[k] == if p.tile == Some(
                    old(board)@[k].entity,
                ) && old(board)@[k].occupant == Some(entity) {
                    LogTile { occupant: None, ..old(board)@[k] }
                } else {
                    old(board)@[k]
                }
        },
        occupancy_agrees(old(board)@, old(pieces)@) ==> occupancy_agrees(final(board)@, final(pieces)@),
{
    let i = match find_piece(pieces, entity) {
        None => {
            return None;
        },
        Some(i) => i,
    };
    proof {
        lemma_piece_of(pieces@, i as int);
    }
    let p = pieces.remove(i);
    proof {
        assert forall|x: int, y: int|
            0 <= x < pieces@.len() && 0 <= y < pieces@.len() && x != y implies (#[trigger] pieces@[x]).entity
                != (#[trigger] pieces@[y]).entity by {
            let ox = if x < i { x } else { x + 1 };
            let oy = if y < i { y } else { y + 1 };
            assert(old(pieces)@[ox].entity != old(pieces)@[oy].entity);
        }
    }
    match p.tile {
        Some(t) => {
            match board.find(t) {
                Some(ti) => {
                    if board.tiles()[ti].occupant == Some(entity) {
                        board.set_occupant(t, None);
                        proof {
                            assert forall|k: int| 0 <= k < old(board)@.len() && k != ti implies old(board)@[k].entity
                                != t by {
                                assert(old(board)@[k].entity != old(board)@[ti as int].entity);
                            }
                        }
                    } else {
                        proof {
                            assert forall|k: int| 0 <= k < old(board)@.len() && old(board)@[k].entity == t implies k == ti by {
                                if k != ti {
                                    assert(old(board)@[k].entity != old(board)@[ti as int].entity);
                                }
                            }
                        }
                    }
                },
                None => {},
            }
        },
        None => {},
    }
    proof {
        if occupancy_agrees(old(board)@, old(pieces)@) {
            lemma_remove_agrees(old(board)@, old(pieces)@, board@, i as int);
        }
    }
    Some(p)
}

/// The first direction, from `d` on, in which the tile `t` has `target` as
/// its neighbour.
pub open spec fn direction_to(t: LogTile, target: u64, d: int) -> Option<int>
    decreases 6 - d,
{
    if d < 0 || d >= 6 {
        None
    } else if neighbour(t, d) == Some(target) {
        Some(d)
    } else {
        direction_to(t, target, d + 1)
    }
}

/// The direction in which the piece `piece` would face the tile `target`:
/// the first direction in which the tile it stands on has `target` as a
/// neighbour.
pub open spec fn facing_towards(tiles: Seq<LogTile>, pieces: Seq<LogPiece>, piece: u64, target: u64) -> Option<int> {
    if piece_present(pieces, piece) && piece_of(pieces, piece).tile is Some && tile_present(
        tiles,
        piece_of(pieces, piece).tile->0,
    ) {
        direction_to(tile_of(tiles, piece_of(pieces, piece).tile->0), target, 0)
    } else {
        None
    }
}

/// Turns the piece `piece` to face its neighbouring tile `target`. Returns
/// whether it turned; nothing changes when the piece, the tile it stands on,
/// or such a neighbour is missing.
pub fn rotate_piece(board: &Board, pieces: &mut Vec<LogPiece>, piece: u64, target: u64) -> (turned: bool)
    requires
        board.wf(),
        pieces_distinct(old(pieces)@),
    ensures
        pieces_distinct(final(pieces)@),
        final(pieces)@.len() == old(pieces)@.len(),
        turned == facing_towards(board@, old(pieces)@, piece, target) is Some,
        !turned ==> final(pieces)@ == old(pieces)@,
        turned ==> forall|k: int|
            0 <= k < old(pieces)@.len() ==> #[trigger] final(pieces)@[k] == if old(pieces)@[k].entity
                == piece {
                LogPiece {
                    facing: Some(
                        FacingDirection(facing_towards(board@, old(pieces)@, piece, target)->0 as u8),
                    ),
                    ..old(pieces)@[k]
                }
            } else {
                old(pieces)@[k]
            },
{
    let i = match find_piece(pieces, piece) {
        None => {
            return false;
        },
        Some(i) => i,
    };
    proof {
        lemma_piece_of(pieces@, i as int);
    }
    let tile = match pieces[i].tile {
        None => {
            return false;
        },
        Some(t) => t,
    };
    let ti = match board.find(tile) {
        None => {
            return false;
        },
        Some(ti) => ti,
    };
    let t = board.tiles()[ti];
    proof {
        let c = choose|c: int| 0 <= c < board@.len() && (#[trigger] board@[c]).entity == tile;
        assert(board@[ti as int].entity == tile);
        assert(c == ti);
        reveal(tile_of);
        assert(t == tile_of(board@, tile));
    }
    let mut d: usize = 0;
    while d < 6
        invariant
            d <= 6,
            direction_to(t, target, 0) == direction_to(t, target, d as int),
        ensures
            d <= 6,
            direction_to(t, target, 0) == direction_to(t, target, d as int),
            d < 6 ==> neighbour(t, d as int) == Some(target),
        decreases 6 - d,
    {
        if t.adjacents.0[d] == Some(target) {
            break;
        }
        d = d + 1;
    }
    if d == 6 {
        return false;
    }
    let mut p = pieces[i];
    p.facing = Some(FacingDirection(d as u8));
    pieces.set(i, p);
    proof {
        assert forall|x: int, y: int|
            0 <= x < pieces@.len() && 0 <= y < pieces@.len() && x != y implies (#[trigger] pieces@[x]).entity
                != (#[trigger] pieces@[y]).entity by {
            assert(old(pieces)@[x].entity != old(pieces)@[y].entity);
        }
        assert forall|k: int| 0 <= k < old(pieces)@.len() && k != i implies old(pieces)@[k].entity != piece by {}
    }
    true
}

/// Something the execution of an action asks the rest of the game to do.
#[derive(Debug, Clone, Copy, PartialEq, Eq, Structural)]
pub enum ActionEffect {
    DeleteTile(u64),
    SpawnPiece(SpawnLogPiece),
    ChangePlayerCoins { delta: i32, player: u64 },
    DamagePiece { log_piece: u64, method: DamageType, source_player: Option<u64> },
    MovePiece { log_piece: u64, target_tile: u64 },
    RotatePiece { log_piece: u64, target_tile: u64 },
    TransferPieceOwnership { piece: u64, to_player: u64 },
    /// The piece is no longer for sale.
    WithdrawFromSale(u64),
}

/// The piece standing on the tile `t`, when `t` is a tile and holds one.
pub open spec fn occupant_of(tiles: Seq<LogTile>, t: u64) -> Option<u64> {
    if tile_present(tiles, t) {
        tiles[choose|i: int| 0 <= i < tiles.len() && (#[trigger] tiles[i]).entity == t].occupant
    } else {
        None
    }
}

/// The piece standing on the tile `t`.
pub fn find_occupant(board: &Board, t: u64) -> (r: Option<u64>)
    requires
        board.wf(),
    ensures
        r == occupant_of(board@, t),
{
    match board.find(t) {
        None => None,
        Some(i) => {
            proof {
                let c = choose|c: int| 0 <= c < board@.len() && (#[trigger] board@[c]).entity == t;
                assert(board@[i as int].entity == t);
                assert(c == i);
            }
            board.tiles()[i].occupant
        },
    }
}

/// The attacks on the pieces standing on the selected tiles, in order;
/// selected tiles without a piece are passed over.
pub open spec fn attack_effects(
    tiles: Seq<LogTile>,
    selected: Seq<u64>,
    method: DamageType,
    player: u64,
) -> Seq<ActionEffect>
    decreases selected.len(),
{
    if selected.len() == 0 {
        Seq::empty()
    } else {
        attack_effects(tiles, selected.drop_last(), method, player) + match occupant_of(
            tiles,
            selected.last(),
        ) {
            Some(p) => seq![ActionEffect::DamagePiece { log_piece: p, method, source_player: Some(player) }],
            None => Seq::<ActionEffect>::empty(),
        }
    }
}

/// What executing an action asks for, and why it stopped early, if it did.
pub open spec fn execution_effects(
    functionality: ActionFunctionality,
    selected: Seq<u64>,
    player: u64,
    active_piece: Option<u64>,
    tiles: Seq<LogTile>,
    pieces: Seq<LogPiece>,
) -> (Seq<ActionEffect>, Option<ExecutionError>) {
    match functionality {
        ActionFunctionality::DeleteTile => (selected.map_values(|t: u64| ActionEffect::DeleteTile(t)), None),
        ActionFunctionality::SpawnPiece(piece) => (
            selected.map_values(
                |t: u64| ActionEffect::SpawnPiece(SpawnLogPiece { player, piece, log_tile: t }),
            ),
            None,
        ),
        ActionFunctionality::DoubleTakeTest(piece) => (
            seq![
                ActionEffect::DeleteTile(selected[1]),
                ActionEffect::SpawnPiece(SpawnLogPiece { player, piece, log_tile: selected[0] }),
            ],
            None,
        ),
        ActionFunctionality::AlterActivePlayerCoinCount(delta) => (
            seq![ActionEffect::ChangePlayerCoins { delta, player }],
            None,
        ),
        ActionFunctionality::AttackPiece(method) => (attack_effects(tiles, selected, method, player), None),
        ActionFunctionality::MoveSelfToTile => (
            seq![ActionEffect::MovePiece { log_piece: active_piece->0, target_tile: selected[0] }],
            None,
        ),
        ActionFunctionality::RotateSelf => (
            seq![ActionEffect::RotatePiece { log_piece: active_piece->0, target_tile: selected[0] }],
            None,
        ),
        ActionFunctionality::PurchasePiece => match occupant_of(tiles, selected[0]) {
            None => (Seq::empty(), Some(ExecutionError::TileHasNoPiece(selected[0]))),
            Some(p) => {
                let handed = seq![
                    ActionEffect::TransferPieceOwnership { piece: p, to_player: player },
                    ActionEffect::WithdrawFromSale(p),
                ];
                if piece_present(pieces, p) && piece_of(pieces, p).value is Some {
                    (
                        handed.push(
                            ActionEffect::ChangePlayerCoins {
                                delta: (-(piece_of(pieces, p).value->0 as i32)) as i32,
                                player,
                            },
                        ),
                        None,
                    )
                } else {
                    (handed, Some(ExecutionError::PieceHasNoValue(p)))
                }
            },
        },
    }
}

/// Executing the action cannot fail outright: enough tiles are selected for
/// the actions that use the first or second of them, an action on the active
/// piece has one, and the price of a bought piece can be negated.
pub open spec fn execution_defined(
    functionality: ActionFunctionality,
    selected: Seq<u64>,
    active_piece: Option<u64>,
    tiles: Seq<LogTile>,
    pieces: Seq<LogPiece>,
) -> bool {
    match functionality {
        ActionFunctionality::DoubleTakeTest(_) => selected.len() >= 2,
        ActionFunctionality::MoveSelfToTile => selected.len() >= 1 && active_piece is Some,
        ActionFunctionality::RotateSelf => selected.len() >= 1 && active_piece is Some,
        ActionFunctionality::PurchasePiece => selected.len() >= 1 && match occupant_of(
            tiles,
            selected[0],
        ) {
            Some(p) => piece_present(pieces, p) && piece_of(pieces, p).value is Some ==> (piece_of(
                pieces,
                p,
            ).value->0 as i32) != i32::MIN,
            None => true,
        },
        _ => true,
    }
}

/// Carries out the current action on the selected tiles, for the active
/// player. Returns what the rest of the game must do, in order, and why the
/// execution stopped early, if it did.
pub fn execute_action_functionality(
    action: Option<GameAction>,
    selected: &Vec<u64>,
    active_player: u64,
    active_piece: Option<u64>,
    board: &Board,
    pieces: &Vec<LogPiece>,
) -> (r: (Vec<ActionEffect>, Option<ExecutionError>))
    requires
        board.wf(),
        pieces_distinct(pieces@),
        action matches Some(a) ==> execution_defined(
            a.functionality,
            selected@,
            active_piece,
            board@,
            pieces@,
        ),
    ensures
        action is None ==> r.0@.len() == 0 && r.1 is None,
        action matches Some(a) ==> (r.0@, r.1) == execution_effects(
            a.functionality,
            selected@,
            active_player,
            active_piece,
            board@,
            pieces@,
        ),
{
    let functionality = match action {
        None => {
            return (Vec::new(), None);
        },
        Some(a) => a.functionality,
    };
    let mut effects: Vec<ActionEffect> = Vec::new();
    match functionality {
        ActionFunctionality::DeleteTile => {
            let mut i: usize = 0;
            while i < selected.len()
                invariant
                    i <= selected@.len(),
                    effects@ == selected@.take(i as int).map_values(|t: u64| ActionEffect::DeleteTile(t)),
                decreases selected@.len() - i,
            {
                effects.push(ActionEffect::DeleteTile(selected[i]));
                proof {
                    assert(selected@.take(i + 1).map_values(|t: u64| ActionEffect::DeleteTile(t))
                        =~= selected@.take(i as int).map_values(|t: u64| ActionEffect::DeleteTile(t)).push(
                        ActionEffect::DeleteTile(selected@[i as int]),
                    ));
                }
                i = i + 1;
            }
            proof {
                assert(selected@.take(selected@.len() as int) =~= selected@);
            }
            (effects, None)
        },
        ActionFunctionality::SpawnPiece(piece) => {
            let mut i: usize = 0;
            while i < selected.len()
                invariant
                    i <= selected@.len(),
                    effects@ == selected@.take(i as int).map_values(
                        |t: u64|
                            ActionEffect::SpawnPiece(
                                SpawnLogPiece { player: active_player, piece, log_tile: t },
                            ),
                    ),
                decreases selected@.len() - i,
            {
                effects.push(
                    ActionEffect::SpawnPiece(
                        SpawnLogPiece { player: active_player, piece, log_tile: selected[i] },
                    ),
                );
                proof {
                    assert(selected@.take(i + 1).map_values(
                        |t: u64|
                            ActionEffect::SpawnPiece(
                                SpawnLogPiece { player: active_player, piece, log_tile: t },
                            ),
                    ) =~= selected@.take(i as int).map_values(
                        |t: u64|
                            ActionEffect::SpawnPiece(
                                SpawnLogPiece { player: active_player, piece, log_tile: t },
                            ),
                    ).push(
                        ActionEffect::SpawnPiece(
                            SpawnLogPiece { player: active_player, piece, log_tile: selected@[i as int] },
                        ),
                    ));
                }
                i = i + 1;
            }
            proof {
                assert(selected@.take(selected@.len() as int) =~= selected@);
            }
            (effects, None)
        },
        ActionFunctionality::DoubleTakeTest(piece) => {
            effects.push(ActionEffect::DeleteTile(selected[1]));
            effects.push(
                ActionEffect::SpawnPiece(
                    SpawnLogPiece { player: active_player, piece, log_tile: selected[0] },
                ),
            );
            proof {
                assert(effects@ =~= seq![
                    ActionEffect::DeleteTile(selected@[1]),
                    ActionEffect::SpawnPiece(SpawnLogPiece { player: active_player, piece, log_tile: selected@[0] }),
                ]);
            }
            (effects, None)
        },
        ActionFunctionality::AlterActivePlayerCoinCount(delta_coins) => {
            effects.push(ActionEffect::ChangePlayerCoins { delta: delta_coins, player: active_player });
            proof {
                assert(effects@ =~= seq![ActionEffect::ChangePlayerCoins { delta: delta_coins, player: active_player }]);
            }
            (effects, None)
        },
        ActionFunctionality::AttackPiece(damage_type) => {
            let mut i: usize = 0;
            while i < selected.len()
                invariant
                    board.wf(),
                    i <= selected@.len(),
                    effects@ == attack_effects(board@, selected@.take(i as int), damage_type, active_player),
                decreases selected@.len() - i,
            {
                proof {
                    assert(selected@.take(i + 1).drop_last() =~= selected@.take(i as int));
                }
                match find_occupant(board, selected[i]) {
                    None => {
                        proof {
                            assert(effects@ =~= effects@ + Seq::<ActionEffect>::empty());
                        }
                    },
                    Some(log_piece) => {
                        effects.push(
                            ActionEffect::DamagePiece {
                                log_piece,
                                method: damage_type,
                                source_player: Some(active_player),
                            },
                        );
                    },
                }
                proof {
                    let s = selected@.take(i + 1);
                    assert(s.last() == selected@[i as int]);
                }
                i = i + 1;
            }
            proof {
                assert(selected@.take(selected@.len() as int) =~= selected@);
            }
            (effects, None)
        },
        ActionFunctionality::MoveSelfToTile => {
            effects.push(
                ActionEffect::MovePiece { log_piece: active_piece.unwrap(), target_tile: selected[0] },
            );
            proof {
                assert(effects@ =~= seq![ActionEffect::MovePiece { log_piece: active_piece->0, target_tile: selected@[0] }]);
            }
            (effects, None)
        },
        ActionFunctionality::RotateSelf => {
            effects.push(
                ActionEffect::RotatePiece { log_piece: active_piece.unwrap(), target_tile: selected[0] },
            );
            proof {
                assert(effects@ =~= seq![ActionEffect::RotatePiece { log_piece: active_piece->0, target_tile: selected@[0] }]);
            }
            (effects, None)
        },
        ActionFunctionality::PurchasePiece => {
            let log_piece = match find_occupant(board, selected[0]) {
                None => {
                    return (effects, Some(ExecutionError::TileHasNoPiece(selected[0])));
                },
                Some(p) => p,
            };
            effects.push(ActionEffect::TransferPieceOwnership { piece: log_piece, to_player: active_player });
            effects.push(ActionEffect::WithdrawFromSale(log_piece));
            let value = match find_piece(pieces, log_piece) {
                None => {
                    proof {
                        assert(effects@ =~= seq![
                            ActionEffect::TransferPieceOwnership { piece: log_piece, to_player: active_player },
                            ActionEffect::WithdrawFromSale(log_piece),
                        ]);
                    }
                    return (effects, Some(ExecutionError::PieceHasNoValue(log_piece)));
                },
                Some(i) => {
                    proof {
                        lemma_piece_of(pieces@, i as int);
                    }
                    match pieces[i].value {
                        None => {
                            proof {
                                assert(effects@ =~= seq![
                                    ActionEffect::TransferPieceOwnership { piece: log_piece, to_player: active_player },
                                    ActionEffect::WithdrawFromSale(log_piece),
                                ]);
                            }
                            return (effects, Some(ExecutionError::PieceHasNoValue(log_piece)));
                        },
                        Some(v) => v,
                    }
                },
            };
            let price = value as i32;
            effects.push(ActionEffect::ChangePlayerCoins { delta: -price, player: active_player });
            proof {
                assert(effects@ =~= seq![
                    ActionEffect::TransferPieceOwnership { piece: log_piece, to_player: active_player },
                    ActionEffect::WithdrawFromSale(log_piece),
                ].push(ActionEffect::ChangePlayerCoins { delta: (-price) as i32, player: active_player }));
            }
            (effects, None)
        },
    }
}

} // verus!
