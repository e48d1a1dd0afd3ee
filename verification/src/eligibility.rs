//! Working out which tiles may be selected next for the current action.

use vstd::prelude::*;
use crate::actions::{
    EligibilityDeterminationMethod, FanWidth, GameAction, OccupationStatus, SelectionBounds,
};
use crate::pieces::{find_piece, pieces_distinct, piece_present, FacingDirection, LogPiece};
use crate::tiles::{
    after_make_eligible, after_make_ineligible, neighbour, tile_present, Board, LogTile,
    SelectionState,
};

verus! {

/// What happens to the selection state of one tile: left alone (`None`),
/// made eligible (`Some(true)`), or made ineligible (`Some(false)`). Neither
/// change touches a selected tile.
pub open spec fn applied(s: SelectionState, d: Option<bool>) -> SelectionState {
    match d {
        None => s,
        Some(true) => after_make_eligible(s),
        Some(false) => after_make_ineligible(s),
    }
}

/// The two boards hold the same tiles, in the same order, with the same
/// links, occupants and kinds; only selection states may differ.
pub open spec fn same_but_selection(new: Seq<LogTile>, old: Seq<LogTile>) -> bool {
    &&& new.len() == old.len()
    &&& forall|k: int|
        0 <= k < old.len() ==> {
            &&& (#[trigger] new[k]).entity == old[k].entity
            &&& new[k].occupant == old[k].occupant
            &&& new[k].adjacents == old[k].adjacents
            &&& new[k].tile_type == old[k].tile_type
        }
}

/// Applies one decision per tile, tile `k` getting `decisions[k]`.
pub fn apply_decisions(board: &mut Board, decisions: &Vec<Option<bool>>)
    requires
        old(board).wf(),
        decisions@.len() == old(board)@.len(),
    ensures
        final(board).wf(),
        final(board).selected_view() == old(board).selected_view(),
        same_but_selection(final(board)@, old(board)@),
        forall|k: int|
            0 <= k < old(board)@.len() ==> (#[trigger] final(board)@[k]).selection@ == applied(
                old(board)@[k].selection@,
                decisions@[k],
            ),
{
    let n = board.tiles().len();
    let mut i: usize = 0;
    while i < n
        invariant
            board.wf(),
            n == old(board)@.len(),
            i <= n,
            decisions@.len() == n,
            board.selected_view() == old(board).selected_view(),
            same_but_selection(board@, old(board)@),
            forall|k: int|
                0 <= k < n ==> (#[trigger] board@[k]).selection@ == if k < i {
                    applied(old(board)@[k].selection@, decisions@[k])
                } else {
                    old(board)@[k].selection@
                },
        decreases n - i,
    {
        match decisions[i] {
            None => {},
            Some(true) => {
                board.make_eligible_at(i);
            },
            Some(false) => {
                board.make_ineligible_at(i);
            },
        }
        i = i + 1;
    }
}

/// Working out eligibility never selects or deselects a tile: a selected
/// tile stays selected whatever is decided for it, and a tile that was not
/// selected does not become selected.
pub proof fn lemma_decisions_keep_selection(s: SelectionState, d: Option<bool>)
    ensures
        (applied(s, d) == SelectionState::Selected) == (s == SelectionState::Selected),
{
}

pub open spec fn occupied(t: LogTile) -> bool {
    t.occupant is Some
}

/// The same decision for every tile.
pub fn uniform_decisions(n: usize, d: Option<bool>) -> (r: Vec<Option<bool>>)
    ensures
        r@.len() == n,
        forall|k: int| 0 <= k < n ==> #[trigger] r@[k] == d,
{
    let mut r: Vec<Option<bool>> = Vec::new();
    let mut i: usize = 0;
    while i < n
        invariant
            i <= n,
            r@.len() == i,
            forall|k: int| 0 <= k < i ==> #[trigger] r@[k] == d,
        decreases n - i,
    {
        r.push(d);
        i = i + 1;
    }
    r
}

/// Eligibility granted to the tiles whose occupancy is `want_occupied`, and
/// withdrawn from the others.
pub fn occupancy_decisions(board: &Board, want_occupied: bool) -> (r: Vec<Option<bool>>)
    ensures
        r@.len() == board@.len(),
        forall|k: int|
            0 <= k < board@.len() ==> #[trigger] r@[k] == Some(
                occupied(board@[k]) == want_occupied,
            ),
{
    let tiles = board.tiles();
    let mut r: Vec<Option<bool>> = Vec::new();
    let mut i: usize = 0;
    while i < tiles.len()
        invariant
            tiles@ == board@,
            i <= tiles@.len(),
            r@.len() == i,
            forall|k: int|
                0 <= k < i ==> #[trigger] r@[k] == Some(occupied(board@[k]) == want_occupied),
        decreases tiles@.len() - i,
    {
        r.push(Some(tiles[i].occupant.is_some() == want_occupied));
        i = i + 1;
    }
    r
}

/// Some tile listed in `sel` has the tile `e` as a neighbour.
pub open spec fn adjacent_to_selection(tiles: Seq<LogTile>, sel: Seq<u64>, e: u64) -> bool {
    exists|k: int, i: int, d: int|
        #![trigger sel[k], neighbour(tiles[i], d)]
        0 <= k < sel.len() && 0 <= i < tiles.len() && 0 <= d < 6 && tiles[i].entity == sel[k]
            && neighbour(tiles[i], d) == Some(e)
}

spec fn adjacent_to_prefix(tiles: Seq<LogTile>, sel: Seq<u64>, a: int, e: u64) -> bool {
    exists|k: int, i: int, d: int|
        #![trigger sel[k], neighbour(tiles[i], d)]
        0 <= k < a && 0 <= i < tiles.len() && 0 <= d < 6 && tiles[i].entity == sel[k]
            && neighbour(tiles[i], d) == Some(e)
}

spec fn adjacent_in_dirs(t: LogTile, x: int, e: u64) -> bool {
    exists|d: int| 0 <= d < x && #[trigger] neighbour(t, d) == Some(e)
}

/// Once some tiles are selected, only occupied neighbours of selected tiles
/// are eligible; before that, every occupied tile is.
pub fn piece_chain_decisions(board: &Board) -> (r: Vec<Option<bool>>)
    requires
        board.wf(),
    ensures
        r@.len() == board@.len(),
        forall|k: int|
            0 <= k < board@.len() ==> #[trigger] r@[k] == Some(
                occupied(board@[k]) && (board.selected_view().len() == 0 || adjacent_to_selection(
                    board@,
                    board.selected_view(),
                    board@[k].entity,
                )),
            ),
{
    let sel = board.selected().as_read_only_list();
    if sel.len() == 0 {
        return occupancy_decisions(board, true);
    }
    let tiles = board.tiles();
    let ghost ts = board@;
    let n = tiles.len();
    let mut r = uniform_decisions(n, Some(false));
    let mut a: usize = 0;
    while a < sel.len()
        invariant
            tiles@ == ts,
            ts == board@,
            board.wf(),
            sel@ == board.selected_view(),
            n == ts.len(),
            a <= sel@.len(),
            r@.len() == n,
            forall|k: int|
                0 <= k < n ==> #[trigger] r@[k] == Some(
                    occupied(ts[k]) && adjacent_to_prefix(ts, sel@, a as int, ts[k].entity),
                ),
        decreases sel@.len() - a,
    {
        match board.find(sel[a]) {
            None => {
                proof {
                    assert forall|k: int| 0 <= k < n implies #[trigger] r@[k] == Some(
                        occupied(ts[k]) && adjacent_to_prefix(ts, sel@, a + 1, ts[k].entity),
                    ) by {
                        if adjacent_to_prefix(ts, sel@, a + 1, ts[k].entity) {
                            let (kk, i, d) = choose|kk: int, i: int, d: int|
                                0 <= kk < a + 1 && 0 <= i < ts.len() && 0 <= d < 6 && ts[i].entity == sel@[kk] && neighbour(ts[i], d)
                                    == Some(ts[k].entity);
                            if kk == a {
                                assert(tile_present(ts, sel@[a as int]));
                            }
                        }
                    }
                }
            },
            Some(i) => {
                let mut x: usize = 0;
                while x < 6
                    invariant
                        tiles@ == ts,
                        ts == board@,
                        board.wf(),
                        sel@ == board.selected_view(),
                        n == ts.len(),
                        a < sel@.len(),
                        i < n,
                        ts[i as int].entity == sel@[a as int],
                        x <= 6,
                        r@.len() == n,
                        forall|k: int|
                            0 <= k < n ==> #[trigger] r@[k] == Some(
                                occupied(ts[k]) && (adjacent_to_prefix(
                                    ts,
                                    sel@,
                                    a as int,
                                    ts[k].entity,
                                ) || adjacent_in_dirs(ts[i as int], x as int, ts[k].entity)),
                            ),
                    decreases 6 - x,
                {
                    match tiles[i].adjacents.0[x] {
                        None => {},
                        Some(u) => {
                            match board.find(u) {
                                None => {},
                                Some(j) => {
                                    if tiles[j].occupant.is_some() {
                                        r.set(j, Some(true));
                                    }
                                    proof {
                                        assert(neighbour(ts[i as int], x as int) == Some(ts[j as int].entity));
                                        assert forall|k: int| 0 <= k < n && k != j implies ts[k].entity != u by {}
                                    }
                                },
                            }
                        },
                    }
                    proof {
                        assert forall|k: int| 0 <= k < n implies #[trigger] r@[k] == Some(
                            occupied(ts[k]) && (adjacent_to_prefix(ts, sel@, a as int, ts[k].entity)
                                || adjacent_in_dirs(ts[i as int], x + 1, ts[k].entity)),
                        ) by {
                            if neighbour(ts[i as int], x as int) == Some(ts[k].entity) {
                                assert(adjacent_in_dirs(ts[i as int], x + 1, ts[k].entity));
                            }
                            if adjacent_in_dirs(ts[i as int], x + 1, ts[k].entity) && !adjacent_in_dirs(ts[i as int], x as int, ts[k].entity) {
                                let d = choose|d: int| 0 <= d < x + 1 && #[trigger] neighbour(ts[i as int], d) == Some(ts[k].entity);
                                assert(d == x);
                                assert(tile_present(ts, ts[k].entity));
                            }
                        }
                    }
                    x = x + 1;
                }
                proof {
                    assert forall|k: int| 0 <= k < n implies #[trigger] r@[k] == Some(
                        occupied(ts[k]) && adjacent_to_prefix(ts, sel@, a + 1, ts[k].entity),
                    ) by {
                        let e = ts[k].entity;
                        if adjacent_in_dirs(ts[i as int], 6, e) {
                            let d = choose|d: int| 0 <= d < 6 && #[trigger] neighbour(ts[i as int], d) == Some(e);
                            assert(adjacent_to_prefix(ts, sel@, a + 1, e));
                        }
                        if adjacent_to_prefix(ts, sel@, a as int, e) {
                            let (kk, ii, d) = choose|kk: int, ii: int, d: int|
                                0 <= kk < a && 0 <= ii < ts.len() && 0 <= d < 6 && ts[ii].entity == sel@[kk] && neighbour(ts[ii], d)
                                    == Some(e);
                            assert(adjacent_to_prefix(ts, sel@, a + 1, e));
                        }
                        if adjacent_to_prefix(ts, sel@, a + 1, e) {
                            let (kk, ii, d) = choose|kk: int, ii: int, d: int|
                                0 <= kk < a + 1 && 0 <= ii < ts.len() && 0 <= d < 6 && ts[ii].entity == sel@[kk] && neighbour(ts[ii], d)
                                    == Some(e);
                            if kk == a {
                                assert(ii == i);
                                assert(adjacent_in_dirs(ts[i as int], 6, e));
                            } else {
                                assert(adjacent_to_prefix(ts, sel@, a as int, e));
                            }
                        }
                    }
                }
            },
        }
        a = a + 1;
    }
    proof {
        assert forall|k: int| 0 <= k < n implies adjacent_to_prefix(ts, sel@, sel@.len() as int, ts[k].entity)
            == adjacent_to_selection(ts, sel@, ts[k].entity) by {
            let e = ts[k].entity;
            if adjacent_to_selection(ts, sel@, e) {
                let (kk, ii, d) = choose|kk: int, ii: int, d: int|
                    0 <= kk < sel@.len() && 0 <= ii < ts.len() && 0 <= d < 6 && ts[ii].entity
                        == sel@[kk] && neighbour(ts[ii], d) == Some(e);
                assert(adjacent_to_prefix(ts, sel@, sel@.len() as int, e));
            }
        }
    }
    r
}

/// Whether a tile counts for a fan that looks for `mode` tiles.
pub open spec fn occupation_ok(mode: OccupationStatus, t: LogTile) -> bool {
    match mode {
        OccupationStatus::Vacant => !occupied(t),
        OccupationStatus::Occupied => occupied(t),
        OccupationStatus::Either => true,
    }
}

/// The directions a fan spreads in, around the direction `f` a piece faces.
pub open spec fn fan_directions(width: FanWidth, f: FacingDirection) -> Seq<u8> {
    match width {
        FanWidth::One => seq![f.0],
        FanWidth::Three => seq![f.spec_offset_index(-1i8), f.spec_offset_index(1i8), f.0],
        FanWidth::Five => seq![
            f.spec_offset_index(-1i8),
            f.spec_offset_index(1i8),
            f.spec_offset_index(-2i8),
            f.spec_offset_index(2i8),
            f.0,
        ],
        FanWidth::All => seq![0u8, 1u8, 2u8, 3u8, 4u8, 5u8],
    }
}

pub fn make_fan_directions(width: FanWidth, f: FacingDirection) -> (r: Vec<u8>)
    requires
        f.0 < 6,
    ensures
        r@ == fan_directions(width, f),
        forall|x: int| 0 <= x < r@.len() ==> #[trigger] r@[x] < 6,
{
    let mut directional_indices_of_fan: Vec<u8> = Vec::new();
    match width {
        FanWidth::One => directional_indices_of_fan.push(f.0),
        FanWidth::Three => {
            directional_indices_of_fan.push(f.offset_index(-1));
            directional_indices_of_fan.push(f.offset_index(1));
            directional_indices_of_fan.push(f.0);
        },
        FanWidth::Five => {
            directional_indices_of_fan.push(f.offset_index(-1));
            directional_indices_of_fan.push(f.offset_index(1));
            directional_indices_of_fan.push(f.offset_index(-2));
            directional_indices_of_fan.push(f.offset_index(2));
            directional_indices_of_fan.push(f.0);
        },
        FanWidth::All => {
            directional_indices_of_fan = vec![0, 1, 2, 3, 4, 5];
        },
    }
    proof {
        assert(directional_indices_of_fan@ =~= fan_directions(width, f));
    }
    directional_indices_of_fan
}

/// The tile `u` is the neighbour of the tile `w` in one of the directions `dirs`.
pub open spec fn fan_step(tiles: Seq<LogTile>, dirs: Seq<u8>, w: u64, u: u64) -> bool {
    exists|i: int, x: int|
        #![trigger tiles[i], dirs[x]]
        0 <= i < tiles.len() && tiles[i].entity == w && 0 <= x < dirs.len() && neighbour(
            tiles[i],
            dirs[x] as int,
        ) == Some(u)
}

/// The tile `u` can be reached from `basis` in at most `n` fan steps.
pub open spec fn within_steps(tiles: Seq<LogTile>, dirs: Seq<u8>, basis: u64, n: nat, u: u64) -> bool
    decreases n,
{
    u == basis || (n > 0 && exists|w: u64|
        #[trigger] fan_step(tiles, dirs, w, u) && within_steps(tiles, dirs, basis, (n - 1) as nat, w))
}

/// The tile `u` can be reached from `basis` in one to `depth` fan steps.
pub open spec fn fan_marked(tiles: Seq<LogTile>, dirs: Seq<u8>, basis: u64, depth: nat, u: u64) -> bool {
    depth > 0 && exists|w: u64|
        #[trigger] fan_step(tiles, dirs, w, u) && within_steps(tiles, dirs, basis, (depth - 1) as nat, w)
}

proof fn lemma_within_grows(tiles: Seq<LogTile>, dirs: Seq<u8>, basis: u64, n: nat, u: u64)
    requires
        within_steps(tiles, dirs, basis, n, u),
    ensures
        within_steps(tiles, dirs, basis, n + 1, u),
    decreases n,
{
    if u != basis {
        let w = choose|w: u64| #[trigger] fan_step(tiles, dirs, w, u) && within_steps(tiles, dirs, basis, (n - 1) as nat, w);
        lemma_within_grows(tiles, dirs, basis, (n - 1) as nat, w);
    }
}

/// A fan step from one of the first `a` tiles of `ws`.
spec fn step_from_prefix(tiles: Seq<LogTile>, dirs: Seq<u8>, ws: Seq<u64>, a: int, u: u64) -> bool {
    exists|b: int| 0 <= b < a && #[trigger] fan_step(tiles, dirs, ws[b], u)
}

/// A step from tile `t` in one of the first `x` directions of `dirs`.
spec fn step_in_first(t: LogTile, dirs: Seq<u8>, x: int, u: u64) -> bool {
    exists|y: int| 0 <= y < x && neighbour(t, #[trigger] dirs[y] as int) == Some(u)
}

pub open spec fn fan_decision(marked: bool, mode: OccupationStatus, t: LogTile) -> Option<bool> {
    if marked && occupation_ok(mode, t) {
        Some(true)
    } else {
        None
    }
}

/// Marks the tiles that one to `depth` fan steps from `basis` reach, when
/// they match `mode`; every other tile is left alone.
pub fn fan_decisions(
    board: &Board,
    basis: u64,
    dirs: &Vec<u8>,
    depth: u32,
    mode: OccupationStatus,
) -> (r: Vec<Option<bool>>)
    requires
        board.wf(),
        tile_present(board@, basis),
        forall|x: int| 0 <= x < dirs@.len() ==> #[trigger] dirs@[x] < 6,
    ensures
        r@.len() == board@.len(),
        forall|k: int|
            0 <= k < board@.len() ==> #[trigger] r@[k] == (if fan_marked(
                board@,
                dirs@,
                basis,
                depth as nat,
                board@[k].entity,
            ) && occupation_ok(mode, board@[k]) {
                Some(true)
            } else {
                None
            }),
{
    let tiles = board.tiles();
    let ghost ts = board@;
    let ghost ds = dirs@;
    let n = tiles.len();
    let mut decisions = uniform_decisions(n, None);
    let mut eligible_tiles: Vec<u64> = vec![basis];
    let mut j: u32 = 0;
    while j < depth
        invariant
            tiles@ == ts,
            ts == board@,
            ds == dirs@,
            board.wf(),
            n == ts.len(),
            j <= depth,
            forall|x: int| 0 <= x < ds.len() ==> #[trigger] ds[x] < 6,
            forall|b: int| 0 <= b < eligible_tiles@.len() ==> tile_present(ts, #[trigger] eligible_tiles@[b]),
            forall|u: u64| eligible_tiles@.contains(u) <==> within_steps(ts, ds, basis, j as nat, u),
            decisions@.len() == n,
            forall|k: int|
                0 <= k < n ==> #[trigger] decisions@[k] == fan_decision(
                    fan_marked(ts, ds, basis, j as nat, ts[k].entity),
                    mode,
                    ts[k],
                ),
        decreases depth - j,
    {
        let snapshot = eligible_tiles.clone();
        proof {
            assert(snapshot@ =~= eligible_tiles@);
        }
        let mut a: usize = 0;
        while a < snapshot.len()
            invariant
                tiles@ == ts,
                ts == board@,
                ds == dirs@,
                board.wf(),
                n == ts.len(),
                j < depth,
                a <= snapshot@.len(),
                forall|x: int| 0 <= x < ds.len() ==> #[trigger] ds[x] < 6,
                forall|b: int| 0 <= b < snapshot@.len() ==> tile_present(ts, #[trigger] snapshot@[b]),
                forall|u: u64| snapshot@.contains(u) <==> within_steps(ts, ds, basis, j as nat, u),
                forall|b: int| 0 <= b < eligible_tiles@.len() ==> tile_present(ts, #[trigger] eligible_tiles@[b]),
                forall|u: u64|
                    eligible_tiles@.contains(u) <==> (within_steps(ts, ds, basis, j as nat, u)
                        || step_from_prefix(ts, ds, snapshot@, a as int, u)),
                decisions@.len() == n,
                forall|k: int|
                    0 <= k < n ==> #[trigger] decisions@[k] == fan_decision(
                        fan_marked(ts, ds, basis, j as nat, ts[k].entity) || step_from_prefix(
                            ts,
                            ds,
                            snapshot@,
                            a as int,
                            ts[k].entity,
                        ),
                        mode,
                        ts[k],
                    ),
            decreases snapshot@.len() - a,
        {
            let tile = snapshot[a];
            proof {
                assert(tile_present(ts, snapshot@[a as int]));
            }
            let i = board.find(tile).unwrap();
            let mut x: usize = 0;
            while x < dirs.len()
                invariant
                    tiles@ == ts,
                    ts == board@,
                    ds == dirs@,
                    board.wf(),
                    n == ts.len(),
                    a < snapshot@.len(),
                    i < n,
                    ts[i as int].entity == snapshot@[a as int],
                    x <= ds.len(),
                    forall|y: int| 0 <= y < ds.len() ==> #[trigger] ds[y] < 6,
                    forall|b: int| 0 <= b < eligible_tiles@.len() ==> tile_present(ts, #[trigger] eligible_tiles@[b]),
                    forall|u: u64|
                        eligible_tiles@.contains(u) <==> (within_steps(ts, ds, basis, j as nat, u)
                            || step_from_prefix(ts, ds, snapshot@, a as int, u) || step_in_first(
                            ts[i as int],
                            ds,
                            x as int,
                            u,
                        )),
                    decisions@.len() == n,
                    forall|k: int|
                        0 <= k < n ==> #[trigger] decisions@[k] == fan_decision(
                            fan_marked(ts, ds, basis, j as nat, ts[k].entity) || step_from_prefix(
                                ts,
                                ds,
                                snapshot@,
                                a as int,
                                ts[k].entity,
                            ) || step_in_first(ts[i as int], ds, x as int, ts[k].entity),
                            mode,
                            ts[k],
                        ),
                decreases ds.len() - x,
            {
                let direction = dirs[x];
                let ghost before_list = eligible_tiles@;
                let ghost before_dec = decisions@;
                match tiles[i].adjacents.0[direction as usize] {
                    None => {
                        proof {
                            lemma_step_in_first_none(ts[i as int], ds, x as int);
                            assert forall|u: u64|
                                eligible_tiles@.contains(u) <==> (within_steps(ts, ds, basis, j as nat, u)
                                    || step_from_prefix(ts, ds, snapshot@, a as int, u) || step_in_first(
                                    ts[i as int],
                                    ds,
                                    x + 1,
                                    u,
                                )) by {
                                assert(step_in_first(ts[i as int], ds, x + 1, u) == step_in_first(ts[i as int], ds, x as int, u));
                            }
                        }
                    },
                    Some(adjacent_tile) => {
                        proof {
                            assert(neighbour(ts[i as int], ds[x as int] as int) == Some(adjacent_tile));
                            assert(tile_present(ts, adjacent_tile));
                        }
                        let jdx = board.find(adjacent_tile).unwrap();
                        eligible_tiles.push(adjacent_tile);
                        let is_occupied = tiles[jdx].occupant.is_some();
                        let ok = match mode {
                            OccupationStatus::Vacant => !is_occupied,
                            OccupationStatus::Occupied => is_occupied,
                            OccupationStatus::Either => true,
                        };
                        if ok {
                            decisions.set(jdx, Some(true));
                        }
                        proof {
                            lemma_step_in_first_some(ts[i as int], ds, x as int, adjacent_tile);
                            assert(eligible_tiles@ == before_list.push(adjacent_tile));
                            lemma_push_contains(before_list, adjacent_tile);
                            assert forall|b: int| 0 <= b < eligible_tiles@.len() implies tile_present(ts, #[trigger] eligible_tiles@[b]) by {
                                if b < before_list.len() {
                                    assert(eligible_tiles@[b] == before_list[b]);
                                }
                            }
                            assert forall|k: int| 0 <= k < n && k != jdx implies ts[k].entity != adjacent_tile by {}
                            assert forall|u: u64|
                                eligible_tiles@.contains(u) <==> (within_steps(ts, ds, basis, j as nat, u)
                                    || step_from_prefix(ts, ds, snapshot@, a as int, u) || step_in_first(
                                    ts[i as int],
                                    ds,
                                    x + 1,
                                    u,
                                )) by {
                                assert(step_in_first(ts[i as int], ds, x + 1, u) == (step_in_first(ts[i as int], ds, x as int, u) || u == adjacent_tile));
                                assert(before_list.push(adjacent_tile).contains(u) <==> (before_list.contains(u) || u == adjacent_tile));
                            }
                        }
                    },
                }
                x = x + 1;
            }
            proof {
                lemma_prefix_step(ts, ds, snapshot@, a as int, i as int);
            }
            a = a + 1;
        }
        proof {
            lemma_layer_done(ts, ds, basis, j as nat, snapshot@);
        }
        j = j + 1;
    }
    decisions
}

proof fn lemma_push_contains(s: Seq<u64>, v: u64)
    ensures
        forall|u: u64| #[trigger] s.push(v).contains(u) <==> (s.contains(u) || u == v),
{
    assert forall|u: u64| #[trigger] s.push(v).contains(u) <==> (s.contains(u) || u == v) by {
        if s.push(v).contains(u) {
            let b = choose|b: int| 0 <= b < s.push(v).len() && s.push(v)[b] == u;
            if b < s.len() {
                assert(s[b] == u);
            }
        }
        if s.contains(u) {
            let b = choose|b: int| 0 <= b < s.len() && s[b] == u;
            assert(s.push(v)[b] == u);
        }
        if u == v {
            assert(s.push(v)[s.len() as int] == u);
        }
    }
}

proof fn lemma_step_in_first_none(t: LogTile, dirs: Seq<u8>, x: int)
    requires
        0 <= x < dirs.len(),
        neighbour(t, dirs[x] as int) is None,
    ensures
        forall|u: u64| step_in_first(t, dirs, x + 1, u) == step_in_first(t, dirs, x, u),
{
    assert forall|u: u64| step_in_first(t, dirs, x + 1, u) implies step_in_first(t, dirs, x, u) by {
        let y = choose|y: int| 0 <= y < x + 1 && neighbour(t, #[trigger] dirs[y] as int) == Some(u);
        assert(y != x);
    }
    assert forall|u: u64| step_in_first(t, dirs, x, u) implies step_in_first(t, dirs, x + 1, u) by {
        let y = choose|y: int| 0 <= y < x && neighbour(t, #[trigger] dirs[y] as int) == Some(u);
    }
}

proof fn lemma_step_in_first_some(t: LogTile, dirs: Seq<u8>, x: int, v: u64)
    requires
        0 <= x < dirs.len(),
        neighbour(t, dirs[x] as int) == Some(v),
    ensures
        forall|u: u64| step_in_first(t, dirs, x + 1, u) == (step_in_first(t, dirs, x, u) || u == v),
{
    assert forall|u: u64| step_in_first(t, dirs, x + 1, u) implies (step_in_first(t, dirs, x, u) || u == v) by {
        let y = choose|y: int| 0 <= y < x + 1 && neighbour(t, #[trigger] dirs[y] as int) == Some(u);
        if y < x {
        }
    }
    assert forall|u: u64| step_in_first(t, dirs, x, u) || u == v implies step_in_first(t, dirs, x + 1, u) by {
        if step_in_first(t, dirs, x, u) {
            let y = choose|y: int| 0 <= y < x && neighbour(t, #[trigger] dirs[y] as int) == Some(u);
        } else {
            assert(neighbour(t, dirs[x] as int) == Some(u));
        }
    }
}

proof fn lemma_prefix_step(tiles: Seq<LogTile>, dirs: Seq<u8>, ws: Seq<u64>, a: int, i: int)
    requires
        0 <= a < ws.len(),
        0 <= i < tiles.len(),
        tiles[i].entity == ws[a],
        crate::tiles::distinct_entities(tiles),
    ensures
        forall|u: u64|
            step_from_prefix(tiles, dirs, ws, a + 1, u) == (step_from_prefix(tiles, dirs, ws, a, u)
                || step_in_first(tiles[i], dirs, dirs.len() as int, u)),
{
    assert forall|u: u64| step_from_prefix(tiles, dirs, ws, a + 1, u) implies (step_from_prefix(tiles, dirs, ws, a, u)
        || step_in_first(tiles[i], dirs, dirs.len() as int, u)) by {
        let b = choose|b: int| 0 <= b < a + 1 && #[trigger] fan_step(tiles, dirs, ws[b], u);
        if b == a {
            let (ii, x) = choose|ii: int, x: int|
                #![trigger tiles[ii], dirs[x]]
                0 <= ii < tiles.len() && tiles[ii].entity == ws[a] && 0 <= x < dirs.len() && neighbour(
                    tiles[ii],
                    dirs[x] as int,
                ) == Some(u);
            assert(ii == i);
            assert(neighbour(tiles[i], dirs[x] as int) == Some(u));
        }
    }
    assert forall|u: u64| step_from_prefix(tiles, dirs, ws, a, u) || step_in_first(tiles[i], dirs, dirs.len() as int, u)
        implies step_from_prefix(tiles, dirs, ws, a + 1, u) by {
        if step_from_prefix(tiles, dirs, ws, a, u) {
            let b = choose|b: int| 0 <= b < a && #[trigger] fan_step(tiles, dirs, ws[b], u);
        } else {
            let y = choose|y: int| 0 <= y < dirs.len() && neighbour(tiles[i], #[trigger] dirs[y] as int) == Some(u);
            assert(tiles[i] == tiles[i] && dirs[y] == dirs[y]);
            assert(fan_step(tiles, dirs, ws[a], u));
        }
    }
}

proof fn lemma_layer_done(tiles: Seq<LogTile>, dirs: Seq<u8>, basis: u64, j: nat, ws: Seq<u64>)
    requires
        forall|u: u64| ws.contains(u) <==> within_steps(tiles, dirs, basis, j, u),
    ensures
        forall|u: u64|
            (within_steps(tiles, dirs, basis, j, u) || step_from_prefix(tiles, dirs, ws, ws.len() as int, u))
                == within_steps(tiles, dirs, basis, j + 1, u),
        forall|u: u64|
            (fan_marked(tiles, dirs, basis, j, u) || step_from_prefix(tiles, dirs, ws, ws.len() as int, u))
                == fan_marked(tiles, dirs, basis, j + 1, u),
{
    assert forall|u: u64| step_from_prefix(tiles, dirs, ws, ws.len() as int, u)
        == fan_marked(tiles, dirs, basis, j + 1, u) by {
        if step_from_prefix(tiles, dirs, ws, ws.len() as int, u) {
            let b = choose|b: int| 0 <= b < ws.len() && #[trigger] fan_step(tiles, dirs, ws[b], u);
            assert(ws.contains(ws[b]));
            assert(within_steps(tiles, dirs, basis, j, ws[b]));
        }
        if fan_marked(tiles, dirs, basis, j + 1, u) {
            let w = choose|w: u64| #[trigger] fan_step(tiles, dirs, w, u) && within_steps(tiles, dirs, basis, j, w);
            assert(ws.contains(w));
            let b = choose|b: int| 0 <= b < ws.len() && ws[b] == w;
            assert(fan_step(tiles, dirs, ws[b], u));
        }
    }
    assert forall|u: u64| (within_steps(tiles, dirs, basis, j, u) || fan_marked(tiles, dirs, basis, j + 1, u))
        == within_steps(tiles, dirs, basis, j + 1, u) by {
        if within_steps(tiles, dirs, basis, j, u) {
            lemma_within_grows(tiles, dirs, basis, j, u);
        }
        if within_steps(tiles, dirs, basis, j + 1, u) && u != basis {
            assert(fan_marked(tiles, dirs, basis, j + 1, u));
        }
    }
    assert forall|u: u64| fan_marked(tiles, dirs, basis, j, u) implies fan_marked(tiles, dirs, basis, j + 1, u) by {
        let w = choose|w: u64| #[trigger] fan_step(tiles, dirs, w, u) && within_steps(tiles, dirs, basis, (j - 1) as nat, w);
        lemma_within_grows(tiles, dirs, basis, (j - 1) as nat, w);
    }
}

/// The tile that a piece speaks for when pieces for sale are looked for: a
/// piece is counted only once it stands on a tile and faces some direction.
pub open spec fn sale_tile(p: LogPiece) -> Option<u64> {
    if p.facing is Some {
        p.tile
    } else {
        None
    }
}

/// Eligibility for the tile `e` from the pieces for sale among the first
/// `lim` pieces that are counted (see `sale_tile`): granted when the last of
/// them on `e` is for sale, withdrawn when it is not, left alone when none
/// is counted there.
pub open spec fn sale_decision(pieces: Seq<LogPiece>, lim: int, e: u64) -> Option<bool>
    decreases lim,
{
    if lim <= 0 {
        None
    } else if sale_tile(pieces[lim - 1]) == Some(e) {
        Some(pieces[lim - 1].for_sale)
    } else {
        sale_decision(pieces, lim - 1, e)
    }
}

/// Every piece among the first `lim` that is counted stands on a tile of the
/// board.
pub open spec fn sale_tiles_present(pieces: Seq<LogPiece>, tiles: Seq<LogTile>, lim: int) -> bool {
    forall|b: int|
        0 <= b < lim && sale_tile(#[trigger] pieces[b]) is Some ==> tile_present(tiles, sale_tile(pieces[b])->0)
}

/// Decides eligibility from the pieces for sale, piece by piece, counting
/// only pieces that stand on a tile and face some direction; stops at the
/// first counted piece whose tile is not on the board and returns its index.
pub fn sale_decisions(board: &Board, pieces: &Vec<LogPiece>) -> (r: (Vec<Option<bool>>, Option<usize>))
    requires
        board.wf(),
    ensures
        r.0@.len() == board@.len(),
        r.1 is None ==> sale_tiles_present(pieces@, board@, pieces@.len() as int) && forall|k: int|
            0 <= k < board@.len() ==> #[trigger] r.0@[k] == sale_decision(
                pieces@,
                pieces@.len() as int,
                board@[k].entity,
            ),
        r.1 matches Some(b) ==> {
            &&& b < pieces@.len()
            &&& sale_tiles_present(pieces@, board@, b as int)
            &&& sale_tile(pieces@[b as int]) is Some
            &&& !tile_present(board@, sale_tile(pieces@[b as int])->0)
            &&& forall|k: int|
                0 <= k < board@.len() ==> #[trigger] r.0@[k] == sale_decision(
                    pieces@,
                    b as int,
                    board@[k].entity,
                )
        },
{
    let tiles = board.tiles();
    let ghost ts = board@;
    let n = tiles.len();
    let mut decisions = uniform_decisions(n, None);
    let mut b: usize = 0;
    while b < pieces.len()
        invariant
            tiles@ == ts,
            ts == board@,
            board.wf(),
            n == ts.len(),
            b <= pieces@.len(),
            decisions@.len() == n,
            sale_tiles_present(pieces@, ts, b as int),
            forall|k: int|
                0 <= k < n ==> #[trigger] decisions@[k] == sale_decision(pieces@, b as int, ts[k].entity),
        decreases pieces@.len() - b,
    {
        match (pieces[b].tile, pieces[b].facing) {
            (None, _) | (_, None) => {},
            (Some(log_tile), Some(_)) => {
                match board.find(log_tile) {
                    None => {
                        return (decisions, Some(b));
                    },
                    Some(j) => {
                        decisions.set(j, Some(pieces[b].for_sale));
                        proof {
                            assert forall|k: int| 0 <= k < n && k != j implies ts[k].entity != log_tile by {}
                        }
                    },
                }
            },
        }
        proof {
            assert forall|k: int| 0 <= k < n implies #[trigger] decisions@[k] == sale_decision(pieces@, b + 1, ts[k].entity) by {
                assert(sale_decision(pieces@, b + 1, ts[k].entity) == if sale_tile(pieces@[b as int]) == Some(ts[k].entity) {
                    Some(pieces@[b as int].for_sale)
                } else {
                    sale_decision(pieces@, b as int, ts[k].entity)
                });
            }
            assert forall|c: int|
                0 <= c < b + 1 && sale_tile(#[trigger] pieces@[c]) is Some implies tile_present(
                    ts,
                    sale_tile(pieces@[c])->0,
                ) by {
                if c == b {
                    let j = choose|j: int| 0 <= j < ts.len() && (#[trigger] ts[j]).entity == sale_tile(pieces@[c])->0;
                    assert(ts[j].entity == sale_tile(pieces@[c])->0);
                }
            }
        }
        b = b + 1;
    }
    (decisions, None)
}

/// Why working out eligible tiles stopped early.
#[derive(Debug, Clone, Copy, PartialEq, Eq, Structural)]
pub enum EvaluationError {
    /// A fan needs the active piece, on a tile and facing some way.
    ActivePieceUnavailable,
    /// A piece stands on a tile that is not on the board.
    TileNotFound(u64),
}

/// The active piece, when it is a piece that stands on a tile and faces a
/// direction; the fan starts from its tile.
pub open spec fn fan_origin(pieces: Seq<LogPiece>, active: u64) -> Option<(u64, FacingDirection)> {
    if exists|i: int| 0 <= i < pieces.len() && (#[trigger] pieces[i]).entity == active {
        let p = pieces[choose|i: int| 0 <= i < pieces.len() && (#[trigger] pieces[i]).entity == active];
        if p.tile is Some && p.facing is Some {
            Some((p.tile->0, p.facing->0))
        } else {
            None
        }
    } else {
        None
    }
}

/// The decision that an eligibility method makes for the tile at index `k`,
/// where a fan starts from `origin`.
pub open spec fn method_decision(
    m: EligibilityDeterminationMethod,
    tiles: Seq<LogTile>,
    sel: Seq<u64>,
    pieces: Seq<LogPiece>,
    origin: (u64, FacingDirection),
    k: int,
) -> Option<bool> {
    match m {
        EligibilityDeterminationMethod::AllTiles => Some(true),
        EligibilityDeterminationMethod::AllPieces => Some(occupied(tiles[k])),
        EligibilityDeterminationMethod::UnoccupiedTiles => Some(!occupied(tiles[k])),
        EligibilityDeterminationMethod::PieceChain => Some(
            occupied(tiles[k]) && (sel.len() == 0 || adjacent_to_selection(
                tiles,
                sel,
                tiles[k].entity,
            )),
        ),
        EligibilityDeterminationMethod::NoEligibility => None,
        EligibilityDeterminationMethod::Fan { width, depth, occupied_or_not } => fan_decision(
            fan_marked(tiles, fan_directions(width, origin.1), origin.0, depth as nat, tiles[k].entity),
            occupied_or_not,
            tiles[k],
        ),
        EligibilityDeterminationMethod::GeneralSpawning => None,
        EligibilityDeterminationMethod::PiecesForSale => sale_decision(
            pieces,
            pieces.len() as int,
            tiles[k].entity,
        ),
    }
}

/// The selection is full: every tile that is not selected becomes ineligible.
pub open spec fn selection_full(action: GameAction, sel: Seq<u64>) -> bool {
    sel.len() >= action.spec_bounds().max_tiles
}

/// The inputs on which working out eligibility cannot fail outright: a
/// method is known, and a fan has an active piece whose tile is on the
/// board and whose direction is one of the six.
pub open spec fn evaluation_defined(
    action: Option<GameAction>,
    tiles: Seq<LogTile>,
    sel: Seq<u64>,
    pieces: Seq<LogPiece>,
    active: Option<u64>,
) -> bool {
    match action {
        None => true,
        Some(a) => selection_full(a, sel) || {
            &&& !(a.eligibility_method is GeneralSpawning)
            &&& a.eligibility_method is Fan ==> active is Some && match fan_origin(pieces, active->0) {
                Some(o) => tile_present(tiles, o.0) && o.1.0 < 6,
                None => true,
            }
        },
    }
}

/// What working out eligibility does to the selection states (`old` before,
/// `new` after) and what it returns.
pub open spec fn evaluated(
    action: Option<GameAction>,
    old: Seq<LogTile>,
    sel: Seq<u64>,
    pieces: Seq<LogPiece>,
    active: Option<u64>,
    new: Seq<LogTile>,
    r: Result<(), EvaluationError>,
) -> bool {
    match action {
        None => r is Ok && new == old,
        Some(a) => if selection_full(a, sel) {
            r is Ok && forall|k: int|
                0 <= k < old.len() ==> (#[trigger] new[k]).selection@ == after_make_ineligible(
                    old[k].selection@,
                )
        } else {
            let m = a.eligibility_method;
            let origin = fan_origin(pieces, active->0);
            if m is Fan && origin is None {
                r == Err::<(), EvaluationError>(EvaluationError::ActivePieceUnavailable) && new == old
            } else if m is PiecesForSale && !sale_tiles_present(pieces, old, pieces.len() as int) {
                exists|b: int|
                    0 <= b < pieces.len() && sale_tiles_present(pieces, old, b)
                        && sale_tile(#[trigger] pieces[b]) is Some && !tile_present(old, sale_tile(pieces[b])->0)
                        && r == Err::<(), EvaluationError>(EvaluationError::TileNotFound(sale_tile(pieces[b])->0))
                        && forall|k: int|
                        0 <= k < old.len() ==> (#[trigger] new[k]).selection@ == applied(
                            old[k].selection@,
                            sale_decision(pieces, b, old[k].entity),
                        )
            } else {
                r is Ok && forall|k: int|
                    0 <= k < old.len() ==> (#[trigger] new[k]).selection@ == applied(
                        old[k].selection@,
                        method_decision(m, old, sel, pieces, origin->0, k),
                    )
            }
        },
    }
}

/// A fan grants eligibility only to tiles that suit its mode: after working
/// out a fan, a tile that was not eligible but now is holds a piece when the
/// fan looks for occupied tiles, and holds none when it looks for vacant ones.
pub proof fn lemma_fan_respects_occupancy(
    a: GameAction,
    old: Seq<LogTile>,
    sel: Seq<u64>,
    pieces: Seq<LogPiece>,
    active: Option<u64>,
    new: Seq<LogTile>,
    r: Result<(), EvaluationError>,
)
    requires
        new.len() == old.len(),
        a.eligibility_method is Fan,
        evaluated(Some(a), old, sel, pieces, active, new, r),
    ensures
        forall|k: int|
            0 <= k < old.len() && (#[trigger] new[k]).selection@ == SelectionState::Eligible
                && old[k].selection@ != SelectionState::Eligible ==> match a.eligibility_method->occupied_or_not {
                OccupationStatus::Occupied => old[k].occupant is Some,
                OccupationStatus::Vacant => old[k].occupant is None,
                OccupationStatus::Either => true,
            },
{
    assert forall|k: int|
        0 <= k < old.len() && (#[trigger] new[k]).selection@ == SelectionState::Eligible
            && old[k].selection@ != SelectionState::Eligible implies match a.eligibility_method->occupied_or_not {
            OccupationStatus::Occupied => old[k].occupant is Some,
            OccupationStatus::Vacant => old[k].occupant is None,
            OccupationStatus::Either => true,
        } by {
        if !selection_full(a, sel) {
            let origin = fan_origin(pieces, active->0);
            if origin is Some {
                let m = a.eligibility_method;
                let d = method_decision(m, old, sel, pieces, origin->0, k);
                assert(new[k].selection@ == applied(old[k].selection@, d));
            }
        }
    }
}

/// Working out eligibility, however it ends, leaves the selection as it
/// was: exactly the tiles that were selected are selected afterwards.
pub proof fn lemma_evaluation_keeps_selection(
    action: Option<GameAction>,
    old: Seq<LogTile>,
    sel: Seq<u64>,
    pieces: Seq<LogPiece>,
    active: Option<u64>,
    new: Seq<LogTile>,
    r: Result<(), EvaluationError>,
)
    requires
        new.len() == old.len(),
        evaluated(action, old, sel, pieces, active, new, r),
    ensures
        forall|k: int|
            0 <= k < old.len() ==> ((#[trigger] new[k]).selection@ == SelectionState::Selected)
                == (old[k].selection@ == SelectionState::Selected),
{
    assert forall|k: int| 0 <= k < old.len() implies ((#[trigger] new[k]).selection@
        == SelectionState::Selected) == (old[k].selection@ == SelectionState::Selected) by {
        match action {
            None => {},
            Some(a) => {
                if selection_full(a, sel) {
                } else {
                    let m = a.eligibility_method;
                    let origin = fan_origin(pieces, active->0);
                    if m is Fan && origin is None {
                    } else if m is PiecesForSale && !sale_tiles_present(pieces, old, pieces.len() as int) {
                        let b = choose|b: int|
                            0 <= b < pieces.len() && sale_tiles_present(pieces, old, b)
                                && sale_tile(#[trigger] pieces[b]) is Some && !tile_present(
                                old,
                                sale_tile(pieces[b])->0,
                            ) && r == Err::<(), EvaluationError>(
                                EvaluationError::TileNotFound(sale_tile(pieces[b])->0),
                            ) && forall|j: int|
                                0 <= j < old.len() ==> (#[trigger] new[j]).selection@ == applied(
                                    old[j].selection@,
                                    sale_decision(pieces, b, old[j].entity),
                                );
                        lemma_decisions_keep_selection(
                            old[k].selection@,
                            sale_decision(pieces, b, old[k].entity),
                        );
                    } else {
                        lemma_decisions_keep_selection(
                            old[k].selection@,
                            method_decision(m, old, sel, pieces, origin->0, k),
                        );
                    }
                }
            },
        }
    }
}

/// Works out which tiles may be selected next for the current action.
///
/// Nothing changes without an action. Once as many tiles are selected as the
/// action allows, no tile is eligible any more. Otherwise the action's
/// eligibility method decides, tile by tile, and a selected tile always stays
/// selected.
pub fn evaluate_tiles(
    board: &mut Board,
    action: Option<GameAction>,
    pieces: &Vec<LogPiece>,
    active_piece: Option<u64>,
) -> (r: Result<(), EvaluationError>)
    requires
        old(board).wf(),
        pieces_distinct(pieces@),
        evaluation_defined(action, old(board)@, old(board).selected_view(), pieces@, active_piece),
    ensures
        final(board).wf(),
        final(board).selected_view() == old(board).selected_view(),
        same_but_selection(final(board)@, old(board)@),
        evaluated(
            action,
            old(board)@,
            old(board).selected_view(),
            pieces@,
            active_piece,
            final(board)@,
            r,
        ),
{
    let action = match action {
        None => {
            return Ok(());
        },
        Some(a) => a,
    };
    let n = board.tiles().len();
    if board.selected().as_read_only_list().len() >= action.selection_count_bounds.0.max_tiles {
        let d = uniform_decisions(n, Some(false));
        apply_decisions(board, &d);
        return Ok(());
    }
    let ghost ts = board@;
    let ghost sel = board.selected_view();
    let decisions = match action.eligibility_method {
        EligibilityDeterminationMethod::AllTiles => uniform_decisions(n, Some(true)),
        EligibilityDeterminationMethod::AllPieces => occupancy_decisions(board, true),
        EligibilityDeterminationMethod::UnoccupiedTiles => occupancy_decisions(board, false),
        EligibilityDeterminationMethod::PieceChain => piece_chain_decisions(board),
        EligibilityDeterminationMethod::NoEligibility => {
            return Ok(());
        },
        EligibilityDeterminationMethod::Fan { width, depth, occupied_or_not } => {
            let active = active_piece.unwrap();
            let found = find_piece(pieces, active);
            let (basis_tile, basis_direction) = match found {
                None => {
                    return Err(EvaluationError::ActivePieceUnavailable);
                },
                Some(i) => {
                    proof {
                        assert(pieces@[i as int].entity == active);
                        let c = choose|c: int| 0 <= c < pieces@.len() && (#[trigger] pieces@[c]).entity == active;
                        assert(c == i);
                    }
                    match (pieces[i].tile, pieces[i].facing) {
                        (Some(t), Some(f)) => (t, f),
                        _ => {
                            return Err(EvaluationError::ActivePieceUnavailable);
                        },
                    }
                },
            };
            let dirs = make_fan_directions(width, basis_direction);
            fan_decisions(board, basis_tile, &dirs, depth, occupied_or_not)
        },
        EligibilityDeterminationMethod::GeneralSpawning => {
            assert(false);
            Vec::new()
        },
        EligibilityDeterminationMethod::PiecesForSale => {
            let (d, failed) = sale_decisions(board, pieces);
            apply_decisions(board, &d);
            match failed {
                None => {
                    return Ok(());
                },
                Some(b) => {
                    return Err(EvaluationError::TileNotFound(pieces[b].tile.unwrap()));
                },
            }
        },
    };
    apply_decisions(board, &decisions);
    Ok(())
}

} // verus!
