//! Game actions: what an action does, how eligible tiles are found, and how
//! many tiles a player must select before the action can run.

use vstd::prelude::*;

verus! {

/// The least and the most tiles that may be selected for an action.
#[derive(Debug, Clone, Copy, PartialEq, Eq, Structural)]
pub struct Bounds {
    pub min_tiles: usize,
    pub max_tiles: usize,
}

/// The selection bounds that a designer wrote for an action.
#[derive(Debug, Clone, Copy, PartialEq, Eq, Structural)]
pub struct GameDesignBounds(pub Bounds);

/// How damage against a piece is measured.
///
/// The fractions are kept as the IEEE-754 bit pattern of an `f32`
/// (`f32::to_bits`); the library carries them and never reads them.
#[derive(Debug, Clone, Copy, PartialEq, Eq, Structural)]
pub enum DamageType {
    Constant(u32),
    FractionOfMissing(u32),
    FractionOfMax(u32),
}

/// What an action does once it is executed. Piece handles are asset ids.
#[derive(Debug, Clone, Copy, PartialEq, Eq, Structural)]
pub enum ActionFunctionality {
    DeleteTile,
    SpawnPiece(u64),
    DoubleTakeTest(u64),
    AlterActivePlayerCoinCount(i32),
    AttackPiece(DamageType),
    MoveSelfToTile,
    /// Only adjacent tiles are expected to be selected for this action.
    RotateSelf,
    PurchasePiece,
}

/// Whether a fan of tiles counts vacant tiles, occupied tiles, or both.
#[derive(Debug, Clone, Copy, PartialEq, Eq, Structural)]
pub enum OccupationStatus {
    Vacant,
    Occupied,
    Either,
}

/// How many directions, around the direction a piece faces, a fan spreads in.
#[derive(Debug, Clone, Copy, PartialEq, Eq, Structural)]
pub enum FanWidth {
    One,
    Three,
    Five,
    All,
}

/// How the tiles that may be selected for an action are determined.
#[derive(Debug, Clone, Copy, PartialEq, Eq, Structural)]
pub enum EligibilityDeterminationMethod {
    AllTiles,
    AllPieces,
    UnoccupiedTiles,
    PieceChain,
    /// No tile becomes eligible.
    NoEligibility,
    Fan { width: FanWidth, depth: u32, occupied_or_not: OccupationStatus },
    GeneralSpawning,
    PiecesForSale,
}

/// An action: what it does, how eligible tiles are found, and its selection bounds.
#[derive(Debug, Clone, Copy, PartialEq, Eq, Structural)]
pub struct GameAction {
    pub functionality: ActionFunctionality,
    pub eligibility_method: EligibilityDeterminationMethod,
    pub selection_count_bounds: GameDesignBounds,
}

/// Where the current action came from.
#[derive(Debug, Clone, Copy, PartialEq, Eq, Structural)]
pub enum ActionSource {
    Card { inventory_index: usize },
    Order { index_in_piece_orders: usize },
    OrphanPiecePurchasing,
}

/// A request to replace the current action.
#[derive(Debug, Clone, Copy, PartialEq, Eq, Structural)]
pub enum SetActionTo {
    /// Clear the current action.
    NoAction,
    Action { action: GameAction, source: ActionSource },
}

/// What an action does, as written in an asset file. Pieces are named by the
/// path of their asset.
#[derive(Debug, Clone)]
pub enum ProxyActionFunctionality {
    DeleteTile,
    SpawnPiece { path_to_proxy_piece: String },
    DoubleTakeTest { path_to_proxy_piece: String },
    AlterActivePlayerCoinCount(i32),
    AttackPiece(DamageType),
    MoveSelf,
    RotateSelf,
}

/// How eligible tiles are found, as written in an asset file.
#[derive(Debug, Clone, Copy, PartialEq, Eq, Structural)]
pub enum ProxyDeterminationMethod {
    AllTiles,
    AllPieces,
    UnoccupiedTiles,
    PieceChain,
    NoEligibility,
    Fan { width: FanWidth, depth: u32, occupied_or_not: OccupationStatus },
    RotateSelf,
}

/// An action as written in an asset file.
#[derive(Debug, Clone)]
pub struct ProxyAction {
    pub functionality: ProxyActionFunctionality,
    pub eligibility_method: ProxyDeterminationMethod,
    pub selection_count_bounds: GameDesignBounds,
}

impl ProxyAction {
    /// The path of the piece asset that this action names, if it names one.
    pub fn piece_path(&self) -> (r: Option<&String>)
        ensures
            r == (match self.functionality {
                ProxyActionFunctionality::SpawnPiece { path_to_proxy_piece } => Some(
                    &path_to_proxy_piece,
                ),
                ProxyActionFunctionality::DoubleTakeTest { path_to_proxy_piece } => Some(
                    &path_to_proxy_piece,
                ),
                _ => Option::<&String>::None,
            }),
    {
        match &self.functionality {
            ProxyActionFunctionality::SpawnPiece { path_to_proxy_piece } => Some(
                path_to_proxy_piece,
            ),
            ProxyActionFunctionality::DoubleTakeTest { path_to_proxy_piece } => Some(
                path_to_proxy_piece,
            ),
            _ => Option::None,
        }
    }
}

/// The functionality an asset's functionality becomes, where `piece` is the
/// handle that loading the named piece asset gave.
pub open spec fn converted_functionality(
    f: ProxyActionFunctionality,
    piece: u64,
) -> ActionFunctionality {
    match f {
        ProxyActionFunctionality::DeleteTile => ActionFunctionality::DeleteTile,
        ProxyActionFunctionality::SpawnPiece { .. } => ActionFunctionality::SpawnPiece(piece),
        ProxyActionFunctionality::DoubleTakeTest { .. } => ActionFunctionality::DoubleTakeTest(
            piece,
        ),
        ProxyActionFunctionality::AlterActivePlayerCoinCount(c) =>
            ActionFunctionality::AlterActivePlayerCoinCount(c),
        ProxyActionFunctionality::AttackPiece(d) => ActionFunctionality::AttackPiece(d),
        ProxyActionFunctionality::MoveSelf => ActionFunctionality::MoveSelfToTile,
        ProxyActionFunctionality::RotateSelf => ActionFunctionality::RotateSelf,
    }
}

/// The eligibility method an asset's method becomes; rotating oneself is a
/// fan of depth one in every direction, over any tile.
pub open spec fn converted_method(m: ProxyDeterminationMethod) -> EligibilityDeterminationMethod {
    match m {
        ProxyDeterminationMethod::AllTiles => EligibilityDeterminationMethod::AllTiles,
        ProxyDeterminationMethod::AllPieces => EligibilityDeterminationMethod::AllPieces,
        ProxyDeterminationMethod::UnoccupiedTiles => EligibilityDeterminationMethod::UnoccupiedTiles,
        ProxyDeterminationMethod::PieceChain => EligibilityDeterminationMethod::PieceChain,
        ProxyDeterminationMethod::NoEligibility => EligibilityDeterminationMethod::NoEligibility,
        ProxyDeterminationMethod::Fan { width, depth, occupied_or_not } =>
            EligibilityDeterminationMethod::Fan { width, depth, occupied_or_not },
        ProxyDeterminationMethod::RotateSelf => EligibilityDeterminationMethod::Fan {
            width: FanWidth::All,
            depth: 1,
            occupied_or_not: OccupationStatus::Either,
        },
    }
}

impl GameAction {
    /// Builds an action from its asset form. `piece` is the handle that loading
    /// the piece asset named by the proxy (see `ProxyAction::piece_path`) gave;
    /// it is ignored when the proxy names no piece.
    pub fn from_proxy(proxy: ProxyAction, piece: u64) -> (r: GameAction)
        ensures
            r.functionality == converted_functionality(proxy.functionality, piece),
            r.eligibility_method == converted_method(proxy.eligibility_method),
            r.selection_count_bounds == proxy.selection_count_bounds,
    {
        let converted_action_func = match proxy.functionality {
            ProxyActionFunctionality::DeleteTile => ActionFunctionality::DeleteTile,
            ProxyActionFunctionality::SpawnPiece { .. } => ActionFunctionality::SpawnPiece(piece),
            ProxyActionFunctionality::DoubleTakeTest { .. } => ActionFunctionality::DoubleTakeTest(
                piece,
            ),
            ProxyActionFunctionality::AlterActivePlayerCoinCount(change) => {
                ActionFunctionality::AlterActivePlayerCoinCount(change)
            },
            ProxyActionFunctionality::AttackPiece(damage_type) => {
                ActionFunctionality::AttackPiece(damage_type)
            },
            ProxyActionFunctionality::MoveSelf => ActionFunctionality::MoveSelfToTile,
            ProxyActionFunctionality::RotateSelf => ActionFunctionality::RotateSelf,
        };
        let converted_action_method = match proxy.eligibility_method {
            ProxyDeterminationMethod::AllTiles => EligibilityDeterminationMethod::AllTiles,
            ProxyDeterminationMethod::AllPieces => EligibilityDeterminationMethod::AllPieces,
            ProxyDeterminationMethod::UnoccupiedTiles => {
                EligibilityDeterminationMethod::UnoccupiedTiles
            },
            ProxyDeterminationMethod::PieceChain => EligibilityDeterminationMethod::PieceChain,
            ProxyDeterminationMethod::NoEligibility => EligibilityDeterminationMethod::NoEligibility,
            ProxyDeterminationMethod::Fan { width, depth, occupied_or_not } => {
                EligibilityDeterminationMethod::Fan { width, depth, occupied_or_not }
            },
            ProxyDeterminationMethod::RotateSelf => EligibilityDeterminationMethod::Fan {
                width: FanWidth::All,
                depth: 1,
                occupied_or_not: OccupationStatus::Either,
            },
        };
        GameAction {
            functionality: converted_action_func,
            eligibility_method: converted_action_method,
            selection_count_bounds: proxy.selection_count_bounds,
        }
    }
}

/// Selection bounds of an action or of one of its parts.
pub trait SelectionBounds {
    spec fn spec_bounds(&self) -> Bounds;

    fn bounds(&self) -> (b: Bounds)
        ensures
            b == self.spec_bounds(),
    ;
}

/// Whether an action, or one of its parts, needs an active piece to run.
pub trait RequiresActivePiece {
    spec fn spec_requires_active_piece(&self) -> bool;

    fn requires_active_piece(&self) -> (r: bool)
        ensures
            r == self.spec_requires_active_piece(),
    ;
}

/// Bounds that allow any number of tiles.
pub open spec fn unbounded() -> Bounds {
    Bounds { min_tiles: 0, max_tiles: usize::MAX }
}

/// Bounds that allow exactly `n` tiles.
pub open spec fn exactly(n: usize) -> Bounds {
    Bounds { min_tiles: n, max_tiles: n }
}

impl SelectionBounds for ActionFunctionality {
    open spec fn spec_bounds(&self) -> Bounds {
        match self {
            ActionFunctionality::DoubleTakeTest(_) => exactly(2),
            ActionFunctionality::MoveSelfToTile => exactly(1),
            ActionFunctionality::RotateSelf => exactly(1),
            ActionFunctionality::PurchasePiece => exactly(1),
            _ => unbounded(),
        }
    }

    fn bounds(&self) -> (b: Bounds) {
        match self {
            ActionFunctionality::DeleteTile => Bounds { min_tiles: 0, max_tiles: usize::MAX },
            ActionFunctionality::DoubleTakeTest(_) => Bounds { min_tiles: 2, max_tiles: 2 },
            ActionFunctionality::AlterActivePlayerCoinCount(_) => Bounds {
                min_tiles: 0,
                max_tiles: usize::MAX,
            },
            ActionFunctionality::SpawnPiece(_) => Bounds { min_tiles: 0, max_tiles: usize::MAX },
            ActionFunctionality::AttackPiece(_) => Bounds { min_tiles: 0, max_tiles: usize::MAX },
            ActionFunctionality::MoveSelfToTile => Bounds { min_tiles: 1, max_tiles: 1 },
            ActionFunctionality::RotateSelf => Bounds { min_tiles: 1, max_tiles: 1 },
            ActionFunctionality::PurchasePiece => Bounds { min_tiles: 1, max_tiles: 1 },
        }
    }
}

impl SelectionBounds for EligibilityDeterminationMethod {
    open spec fn spec_bounds(&self) -> Bounds {
        unbounded()
    }

    fn bounds(&self) -> (b: Bounds) {
        match self {
            EligibilityDeterminationMethod::AllTiles => Bounds {
                min_tiles: 0,
                max_tiles: usize::MAX,
            },
            EligibilityDeterminationMethod::AllPieces => Bounds {
                min_tiles: 0,
                max_tiles: usize::MAX,
            },
            EligibilityDeterminationMethod::UnoccupiedTiles => Bounds {
                min_tiles: 0,
                max_tiles: usize::MAX,
            },
            EligibilityDeterminationMethod::PieceChain => Bounds {
                min_tiles: 0,
                max_tiles: usize::MAX,
            },
            EligibilityDeterminationMethod::NoEligibility => Bounds { min_tiles: 0, max_tiles: usize::MAX },
            EligibilityDeterminationMethod::Fan { .. } => Bounds {
                min_tiles: 0,
                max_tiles: usize::MAX,
            },
            EligibilityDeterminationMethod::GeneralSpawning => Bounds {
                min_tiles: 0,
                max_tiles: usize::MAX,
            },
            EligibilityDeterminationMethod::PiecesForSale => Bounds {
                min_tiles: 0,
                max_tiles: usize::MAX,
            },
        }
    }
}

impl SelectionBounds for GameAction {
    open spec fn spec_bounds(&self) -> Bounds {
        self.selection_count_bounds.0
    }

    fn bounds(&self) -> (b: Bounds) {
        self.selection_count_bounds.0
    }
}

impl RequiresActivePiece for EligibilityDeterminationMethod {
    open spec fn spec_requires_active_piece(&self) -> bool {
        self is Fan
    }

    fn requires_active_piece(&self) -> (r: bool) {
        match self {
            EligibilityDeterminationMethod::AllTiles => false,
            EligibilityDeterminationMethod::AllPieces => false,
            EligibilityDeterminationMethod::UnoccupiedTiles => false,
            EligibilityDeterminationMethod::PieceChain => false,
            EligibilityDeterminationMethod::NoEligibility => false,
            EligibilityDeterminationMethod::Fan { .. } => true,
            EligibilityDeterminationMethod::GeneralSpawning => false,
            EligibilityDeterminationMethod::PiecesForSale => false,
        }
    }
}

impl RequiresActivePiece for ActionFunctionality {
    open spec fn spec_requires_active_piece(&self) -> bool {
        self is MoveSelfToTile || self is RotateSelf
    }

    fn requires_active_piece(&self) -> (r: bool) {
        match self {
            ActionFunctionality::DeleteTile => false,
            ActionFunctionality::SpawnPiece(..) => false,
            ActionFunctionality::DoubleTakeTest(..) => false,
            ActionFunctionality::AlterActivePlayerCoinCount(_) => false,
            ActionFunctionality::AttackPiece(..) => false,
            ActionFunctionality::MoveSelfToTile => true,
            ActionFunctionality::RotateSelf => true,
            ActionFunctionality::PurchasePiece => false,
        }
    }
}

/// Only moving or turning oneself needs an active piece. So an action that
/// does anything else, whose eligibility is not a fan and whose bounds are
/// valid, can be played from a card.
pub proof fn lemma_only_self_moves_need_a_piece(f: ActionFunctionality, a: GameAction)
    ensures
        f.spec_requires_active_piece() <==> (f == ActionFunctionality::MoveSelfToTile || f
            == ActionFunctionality::RotateSelf),
        a.spec_is_valid() && !(a.eligibility_method is Fan) && a.functionality
            != ActionFunctionality::MoveSelfToTile && a.functionality != ActionFunctionality::RotateSelf
            ==> a.spec_is_valid_for_card(),
{
}

impl GameAction {
    /// An action is valid when its own bounds lie inside the bounds of both
    /// its functionality and its eligibility method, and are not empty.
    pub open spec fn spec_is_valid(&self) -> bool {
        let own = self.spec_bounds();
        let func = self.functionality.spec_bounds();
        let elig = self.eligibility_method.spec_bounds();
        &&& own.min_tiles >= elig.min_tiles
        &&& own.min_tiles >= func.min_tiles
        &&& own.max_tiles >= own.min_tiles
        &&& func.max_tiles >= own.max_tiles
        &&& elig.max_tiles >= own.max_tiles
    }

    /// A card action must be valid and must not need an active piece.
    pub open spec fn spec_is_valid_for_card(&self) -> bool {
        &&& self.spec_is_valid()
        &&& !self.eligibility_method.spec_requires_active_piece()
        &&& !self.functionality.spec_requires_active_piece()
    }

    pub fn is_valid(&self) -> (r: bool)
        ensures
            r == self.spec_is_valid(),
    {
        (self.bounds().min_tiles >= self.eligibility_method.bounds().min_tiles) && (
        self.bounds().min_tiles >= self.functionality.bounds().min_tiles) && self.bounds().max_tiles
            >= self.bounds().min_tiles && self.functionality.bounds().max_tiles
            >= self.bounds().max_tiles && self.eligibility_method.bounds().max_tiles
            >= self.bounds().max_tiles
    }

    pub fn is_valid_for_card(&self) -> (r: bool)
        ensures
            r == self.spec_is_valid_for_card(),
    {
        self.is_valid() && !self.eligibility_method.requires_active_piece()
            && !self.functionality.requires_active_piece()
    }
}

} // verus!
