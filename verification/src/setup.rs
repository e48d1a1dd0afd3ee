//! Setting up a game: its phases, the size of the board, and the players to
//! create.

use vstd::prelude::*;
use crate::tiles::{tile_present, Board, TileType};

verus! {

/// The phases of the program.
#[derive(Debug, Clone, Copy, PartialEq, Eq, Structural)]
pub enum AppState {
    GameParameters,
    PlayerCreation,
    InGame,
    PostGame,
}

#[derive(Debug, Clone, Copy, PartialEq, Eq, Structural)]
pub enum BoardSize {
    Small,
    Medium,
    Large,
    ExtraLarge,
}

/// How many rings of hexagons, counting the centre one, a board of each
/// size has.
pub open spec fn spec_board_depth(size: BoardSize) -> u32 {
    match size {
        BoardSize::Small => 4,
        BoardSize::Medium => 5,
        BoardSize::Large => 6,
        BoardSize::ExtraLarge => 10,
    }
}

pub fn board_depth(size: BoardSize) -> (r: u32)
    ensures
        r == spec_board_depth(size),
{
    match size {
        BoardSize::Small => 4,
        BoardSize::Medium => 5,
        BoardSize::Large => 6,
        BoardSize::ExtraLarge => 10,
    }
}

/// What a new player is called and which base plate its pieces stand on.
#[derive(Debug, Clone)]
pub struct PlayerCreationInstructions {
    pub name: String,
    pub base_pate_path: String,
}

/// The players to create, in turn order.
#[derive(Debug, Clone)]
pub struct PlayersToCreate(pub Vec<PlayerCreationInstructions>);

/// A request to start a game.
#[derive(Debug, Clone)]
pub struct CreateGame {
    pub board_size: BoardSize,
    pub player_instructions: PlayersToCreate,
}

/// Puts a basic tile on the board for each new id, in order; every new tile
/// starts unlinked, unoccupied, and neither eligible nor selected.
pub fn spawn_tiles(board: &mut Board, ids: &Vec<u64>)
    requires
        old(board).wf(),
        forall|i: int, j: int|
            0 <= i < ids@.len() && 0 <= j < ids@.len() && i != j ==> ids@[i] != ids@[j],
        forall|i: int|
            0 <= i < ids@.len() ==> !tile_present(old(board)@, #[trigger] ids@[i]) && !old(
                board,
            ).selected_view().contains(ids@[i]),
    ensures
        final(board).wf(),
        final(board).selected_view() == old(board).selected_view(),
        final(board)@.len() == old(board)@.len() + ids@.len(),
        final(board)@.take(old(board)@.len() as int) == old(board)@,
        forall|i: int|
            0 <= i < ids@.len() ==> {
                let t = #[trigger] final(board)@[old(board)@.len() + i];
                &&& t.entity == ids@[i]
                &&& t.tile_type == TileType::Basic
                &&& t.occupant is None
                &&& t.selection@ == crate::tiles::SelectionState::Neither
                &&& forall|d: int| 0 <= d < 6 ==> #[trigger] crate::tiles::neighbour(t, d) is None
            },
{
    let n0 = board.tiles().len();
    let mut i: usize = 0;
    while i < ids.len()
        invariant
            board.wf(),
            i <= ids@.len(),
            n0 == old(board)@.len(),
            board.selected_view() == old(board).selected_view(),
            board@.len() == n0 + i,
            board@.take(n0 as int) == old(board)@,
            forall|a: int, b: int|
                0 <= a < ids@.len() && 0 <= b < ids@.len() && a != b ==> ids@[a] != ids@[b],
            forall|a: int|
                0 <= a < ids@.len() ==> !tile_present(old(board)@, #[trigger] ids@[a]) && !old(
                    board,
                ).selected_view().contains(ids@[a]),
            forall|a: int|
                0 <= a < i ==> {
                    let t = #[trigger] board@[n0 + a];
                    &&& t.entity == ids@[a]
                    &&& t.tile_type == TileType::Basic
                    &&& t.occupant is None
                    &&& t.selection@ == crate::tiles::SelectionState::Neither
                    &&& forall|d: int| 0 <= d < 6 ==> #[trigger] crate::tiles::neighbour(t, d) is None
                },
        decreases ids@.len() - i,
    {
        proof {
            let e = ids@[i as int];
            if tile_present(board@, e) {
                let k = choose|k: int| 0 <= k < board@.len() && (#[trigger] board@[k]).entity == e;
                if k < n0 {
                    assert(board@.take(n0 as int)[k] == board@[k]);
                    assert(tile_present(old(board)@, e));
                } else {
                    let a = k - n0;
                    assert(board@[n0 + a].entity == ids@[a]);
                }
            }
        }
        let ghost before = board@;
        board.add_tile(ids[i], TileType::Basic);
        proof {
            assert(board@.take(n0 as int) =~= before.take(n0 as int));
            assert forall|a: int| 0 <= a < i + 1 implies {
                let t = #[trigger] board@[n0 + a];
                &&& t.entity == ids@[a]
                &&& t.tile_type == TileType::Basic
                &&& t.occupant is None
                &&& t.selection@ == crate::tiles::SelectionState::Neither
                &&& forall|d: int| 0 <= d < 6 ==> #[trigger] crate::tiles::neighbour(t, d) is None
            } by {
                if a < i {
                    assert(board@[n0 + a] == before[n0 + a]);
                }
            }
        }
        i = i + 1;
    }
}

} // verus!
