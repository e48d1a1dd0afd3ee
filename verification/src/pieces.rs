//! Logical pieces: what they are made from, where they stand, who owns them,
//! their health, orders and the piece that is currently active.

use vstd::prelude::*;
use crate::actions::{converted_functionality, converted_method, GameAction, ProxyAction};

verus! {

/// The direction a piece faces, from 0 to 5, counter clockwise from two o'clock.
#[derive(Debug, Clone, Copy, PartialEq, Eq, Structural)]
pub struct FacingDirection(pub u8);

impl FacingDirection {
    /// The direction `offset` steps counter clockwise (clockwise when
    /// negative) from this one.
    pub open spec fn spec_offset_index(&self, offset: i8) -> u8 {
        ((self.0 as int + offset as int) % 6) as u8
    }

    pub fn offset_index(&self, offset: i8) -> (r: u8)
        requires
            self.0 < 6,
        ensures
            r == self.spec_offset_index(offset),
            r < 6,
    {
        let sum: i16 = self.0 as i16 + offset as i16 + 6 * 22;
        (sum % 6) as u8
    }
}

/// How many orders a piece may still give this turn, and how many it gets
/// each turn.
#[derive(Debug, Clone, Copy, PartialEq, Eq, Structural)]
pub struct OrdersPerTurn {
    pub current: u32,
    pub max: u32,
}

#[derive(Debug, Clone, Copy, PartialEq, Eq, Structural)]
pub struct Health {
    pub max_health: u32,
    pub current_health: u32,
}

/// The orders of a piece, as handles of order assets; at most five.
#[derive(Debug, Clone, Copy, PartialEq, Eq)]
pub struct PieceOrders(pub [Option<u64>; 5]);

/// A kind of piece, as loaded from its asset. Handles are asset ids.
#[derive(Debug, Clone)]
pub struct Piece {
    pub name: String,
    pub model: u64,
    pub health: u32,
    pub default_orders: [Option<u64>; 5],
    pub is_win_condtion: bool,
}

/// A kind of piece as written in an asset file: at most five orders, each
/// named by the path of its asset.
#[derive(Debug, Clone)]
pub struct ProxyPiece {
    pub name: String,
    pub model_path: String,
    pub health: u32,
    pub is_win_condition: bool,
    pub order1_path: Option<String>,
    pub order2_path: Option<String>,
    pub order3_path: Option<String>,
    pub order4_path: Option<String>,
    pub order5_path: Option<String>,
}

/// Builds a kind of piece from its asset form. `model` is the handle that
/// loading the model path gave, and `orders[i]` the handle that loading the
/// path of order `i + 1` gave; it is ignored when that order has no path.
pub fn piece_from_proxy(proxy: ProxyPiece, model: u64, orders: [u64; 5]) -> (r: Piece)
    ensures
        r.name@ == proxy.name@,
        r.model == model,
        r.health == proxy.health,
        r.is_win_condtion == proxy.is_win_condition,
        r.default_orders@ == seq![
            if proxy.order1_path is Some { Some(orders@[0]) } else { None },
            if proxy.order2_path is Some { Some(orders@[1]) } else { None },
            if proxy.order3_path is Some { Some(orders@[2]) } else { None },
            if proxy.order4_path is Some { Some(orders@[3]) } else { None },
            if proxy.order5_path is Some { Some(orders@[4]) } else { None },
        ],
{
    let default_orders = [
        if proxy.order1_path.is_some() { Some(orders[0]) } else { None },
        if proxy.order2_path.is_some() { Some(orders[1]) } else { None },
        if proxy.order3_path.is_some() { Some(orders[2]) } else { None },
        if proxy.order4_path.is_some() { Some(orders[3]) } else { None },
        if proxy.order5_path.is_some() { Some(orders[4]) } else { None },
    ];
    let r = Piece {
        name: proxy.name,
        model,
        health: proxy.health,
        default_orders,
        is_win_condtion: proxy.is_win_condition,
    };
    proof {
        assert(r.default_orders@ =~= seq![
            if proxy.order1_path is Some { Some(orders@[0]) } else { None },
            if proxy.order2_path is Some { Some(orders@[1]) } else { None },
            if proxy.order3_path is Some { Some(orders@[2]) } else { None },
            if proxy.order4_path is Some { Some(orders@[3]) } else { None },
            if proxy.order5_path is Some { Some(orders@[4]) } else { None },
        ]);
    }
    r
}

/// An order a piece can give, as loaded from its asset. Handles are asset ids.
#[derive(Debug, Clone)]
pub struct Order {
    pub name: String,
    pub action: GameAction,
    pub description: String,
    pub icon: u64,
}

/// An order as written in an asset file.
#[derive(Debug, Clone)]
pub struct ProxyOrder {
    pub name: String,
    pub proxy_action: ProxyAction,
    pub description: String,
    pub icon_path: String,
}

/// Builds an order from its asset form; `icon` is the handle that loading
/// the icon path gave, and `piece` the one that loading the piece path named
/// by the action gave.
pub fn order_from_proxy(proxy: ProxyOrder, piece: u64, icon: u64) -> (r: Order)
    ensures
        r.name@ == proxy.name@,
        r.action.functionality == converted_functionality(proxy.proxy_action.functionality, piece),
        r.action.eligibility_method == converted_method(proxy.proxy_action.eligibility_method),
        r.action.selection_count_bounds == proxy.proxy_action.selection_count_bounds,
        r.description@ == proxy.description@,
        r.icon == icon,
{
    Order {
        name: proxy.name,
        action: GameAction::from_proxy(proxy.proxy_action, piece),
        description: proxy.description,
        icon,
    }
}

/// One piece on the board.
#[derive(Debug, Clone, Copy)]
pub struct LogPiece {
    pub entity: u64,
    /// The player that owns the piece.
    pub owner: u64,
    /// The tile the piece stands on, if it still stands on one.
    pub tile: Option<u64>,
    pub health: Health,
    pub orders: PieceOrders,
    pub win_condition: bool,
    pub facing: Option<FacingDirection>,
    pub command_point: bool,
    pub for_sale: bool,
    pub orders_per_turn: Option<OrdersPerTurn>,
    /// The price of the piece, when it has one.
    pub value: Option<u32>,
}

pub open spec fn pieces_distinct(pieces: Seq<LogPiece>) -> bool {
    forall|i: int, j: int|
        0 <= i < pieces.len() && 0 <= j < pieces.len() && i != j ==> (#[trigger] pieces[i]).entity
            != (#[trigger] pieces[j]).entity
}

pub open spec fn piece_present(pieces: Seq<LogPiece>, e: u64) -> bool {
    exists|i: int| 0 <= i < pieces.len() && (#[trigger] pieces[i]).entity == e
}

/// The index of the piece with the given id.
pub fn find_piece(pieces: &Vec<LogPiece>, e: u64) -> (r: Option<usize>)
    ensures
        r matches Some(i) ==> i < pieces@.len() && pieces@[i as int].entity == e,
        r is None <==> !piece_present(pieces@, e),
{
    let mut i: usize = 0;
    while i < pieces.len()
        invariant
            i <= pieces@.len(),
            forall|k: int| 0 <= k < i ==> (#[trigger] pieces@[k]).entity != e,
        decreases pieces@.len() - i,
    {
        if pieces[i].entity == e {
            return Some(i);
        }
        i = i + 1;
    }
    None
}

/// A request to put a new piece of kind `piece` for `player` on `log_tile`.
#[derive(Debug, Clone, Copy, PartialEq, Eq, Structural)]
pub struct SpawnLogPiece {
    pub piece: u64,
    pub player: u64,
    pub log_tile: u64,
}

/// What came of a request to spawn a piece.
#[derive(Debug, Clone, Copy)]
pub enum SpawnOutcome {
    /// The tile already held a piece; nothing was spawned.
    TileOccupied,
    /// The piece asset was not loaded yet; nothing was spawned.
    AssetNotLoaded,
    /// The new piece, to be placed on the tile.
    Spawned(LogPiece),
}

/// The piece that a spawn request creates, given the entity id it gets.
pub open spec fn spawned_piece(request: SpawnLogPiece, kind: Piece, entity: u64) -> LogPiece {
    LogPiece {
        entity,
        owner: request.player,
        tile: Some(request.log_tile),
        health: Health { max_health: kind.health, current_health: kind.health },
        orders: PieceOrders(kind.default_orders),
        win_condition: kind.is_win_condtion,
        facing: None,
        command_point: false,
        for_sale: false,
        orders_per_turn: None,
        value: None,
    }
}

/// A spawned piece is what its kind says and what the request asks: it
/// belongs to the requesting player, stands on the requested tile, starts at
/// full health, gives the kind's orders, and is a win condition exactly when
/// its kind is one. It is neither a command point nor for sale, and faces no
/// direction yet.
pub proof fn lemma_spawned_piece_follows_its_kind(request: SpawnLogPiece, kind: Piece, entity: u64)
    ensures
        ({
            let p = spawned_piece(request, kind, entity);
            &&& p.entity == entity
            &&& p.owner == request.player
            &&& p.tile == Some(request.log_tile)
            &&& p.health.current_health == kind.health
            &&& p.health.max_health == kind.health
            &&& p.win_condition == kind.is_win_condtion
            &&& p.orders.0 == kind.default_orders
            &&& !p.command_point
            &&& !p.for_sale
            &&& p.facing is None
        }),
{
}

/// Decides a spawn request: a piece is made only on a free tile and from a
/// loaded piece asset; it starts at full health with the asset's orders.
pub fn spawn_logpiece(
    request: SpawnLogPiece,
    tile_occupied: bool,
    kind: Option<&Piece>,
    new_entity: u64,
) -> (r: SpawnOutcome)
    ensures
        tile_occupied ==> r is TileOccupied,
        !tile_occupied && kind is None ==> r is AssetNotLoaded,
        !tile_occupied && kind is Some ==> r == SpawnOutcome::Spawned(
            spawned_piece(request, *kind->0, new_entity),
        ),
        !tile_occupied && kind is Some ==> (r matches SpawnOutcome::Spawned(p) && p.entity == new_entity
            && p.owner == request.player && p.tile == Some(request.log_tile) && p.health.max_health
            == kind->0.health && p.health.current_health == kind->0.health && p.win_condition
            == kind->0.is_win_condtion && p.orders.0 == kind->0.default_orders && !p.command_point
            && !p.for_sale),
{
    if tile_occupied {
        SpawnOutcome::TileOccupied
    } else {
        match kind {
            None => SpawnOutcome::AssetNotLoaded,
            Some(piece_instructions) => SpawnOutcome::Spawned(
                LogPiece {
                    entity: new_entity,
                    owner: request.player,
                    tile: Some(request.log_tile),
                    health: Health {
                        max_health: piece_instructions.health,
                        current_health: piece_instructions.health,
                    },
                    orders: PieceOrders(piece_instructions.default_orders),
                    win_condition: piece_instructions.is_win_condtion,
                    facing: None,
                    command_point: false,
                    for_sale: false,
                    orders_per_turn: None,
                    value: None,
                },
            ),
        }
    }
}

/// What damage did to a piece.
#[derive(Debug, Clone, Copy, PartialEq, Eq, Structural)]
pub enum DamageOutcome {
    /// The piece has no health left and is removed; when it was a win
    /// condition, the game checks for a winner.
    Destroyed { check_for_winner: bool },
    /// The piece lives on with its new health.
    Damaged,
}

/// Applies the health a piece has left after an attack.
pub fn apply_damage(health: &mut Health, win_condition: bool, new_health: u32) -> (r: DamageOutcome)
    ensures
        new_health == 0 ==> r == (DamageOutcome::Destroyed { check_for_winner: win_condition }),
        new_health == 0 ==> *final(health) == *old(health),
        new_health != 0 ==> r == DamageOutcome::Damaged && *final(health) == (Health {
            current_health: new_health,
            ..*old(health)
        }),
{
    if new_health == 0 {
        DamageOutcome::Destroyed { check_for_winner: win_condition }
    } else {
        health.current_health = new_health;
        DamageOutcome::Damaged
    }
}

/// The active piece after a request to make `requested` active: no request
/// clears it, the active piece again toggles it off, any other piece
/// becomes active.
pub open spec fn spec_next_active(current: Option<u64>, requested: Option<u64>) -> Option<u64> {
    match requested {
        None => None,
        Some(p) => if current == Some(p) {
            None
        } else {
            Some(p)
        },
    }
}

/// Handles a request to make a piece active. Returns the new active piece
/// and whether the current action must be cleared, which happens for every
/// request that names a piece.
pub fn set_active_piece(current: Option<u64>, requested: Option<u64>) -> (r: (Option<u64>, bool))
    ensures
        r.0 == spec_next_active(current, requested),
        r.1 == (requested is Some),
{
    if requested.is_none() {
        return (None, false);
    }
    if let Some(piece) = current {
        if requested.unwrap() == piece {
            return (None, true);
        }
    }
    (requested, true)
}

/// Toggling: asking twice in a row for the same piece leaves no active piece.
pub proof fn lemma_activation_toggles(current: Option<u64>, p: u64)
    ensures
        spec_next_active(spec_next_active(current, Some(p)), Some(p)) is None
            || spec_next_active(current, Some(p)) is None,
        current != Some(p) ==> spec_next_active(spec_next_active(current, Some(p)), Some(p)) is None,
{
}

} // verus!
