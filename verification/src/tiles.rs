//! The board: logical tiles, their neighbours, what occupies them, and which
//! of them are eligible for or part of the current selection.

use vstd::prelude::*;

verus! {

/// Where a tile stands in the selection process.
#[derive(Debug, Clone, Copy, PartialEq, Eq, Structural)]
pub enum SelectionState {
    Selected,
    Eligible,
    Neither,
}

impl Default for SelectionState {
    fn default() -> (r: SelectionState)
        ensures
            r == SelectionState::Neither,
    {
        SelectionState::Neither
    }
}

/// The selection state of one tile. Outside this module a tile can only be
/// made eligible or ineligible, and neither change touches a selected tile.
#[derive(Debug, Clone, Copy, PartialEq, Eq, Structural)]
pub struct TileSelectionStatus(SelectionState);

impl View for TileSelectionStatus {
    type V = SelectionState;

    closed spec fn view(&self) -> SelectionState {
        self.0
    }
}

/// A tile that is eligible once eligibility was granted, unless it was selected.
pub open spec fn after_make_eligible(s: SelectionState) -> SelectionState {
    if s == SelectionState::Selected {
        SelectionState::Selected
    } else {
        SelectionState::Eligible
    }
}

/// A tile that is neither once eligibility was withdrawn, unless it was selected.
pub open spec fn after_make_ineligible(s: SelectionState) -> SelectionState {
    if s == SelectionState::Selected {
        SelectionState::Selected
    } else {
        SelectionState::Neither
    }
}

impl TileSelectionStatus {
    /// Unless the tile is already selected, makes it neither eligible nor selected.
    pub fn try_make_ineligble(&mut self)
        ensures
            final(self)@ == after_make_ineligible(old(self)@),
    {
        if self.0 != SelectionState::Selected {
            self.0 = SelectionState::Neither
        }
    }

    /// Unless the tile is already selected, makes it eligible to be selected next.
    pub fn try_make_eligible(&mut self)
        ensures
            final(self)@ == after_make_eligible(old(self)@),
    {
        if self.0 != SelectionState::Selected {
            self.0 = SelectionState::Eligible
        }
    }

    pub fn read(&self) -> (r: SelectionState)
        ensures
            r == self@,
    {
        self.0
    }

    pub fn new() -> (r: TileSelectionStatus)
        ensures
            r@ == SelectionState::Neither,
    {
        TileSelectionStatus(SelectionState::default())
    }
}

/// The kind of a tile.
#[derive(Debug, Clone, Copy, PartialEq, Eq, Structural)]
pub enum TileType {
    Basic,
    PassiveGold,
    Portal,
}

/// Neighbouring tiles, counter clockwise starting from two o'clock. The
/// neighbour in direction `d` sees this tile in direction `(d + 3) % 6`.
#[derive(Debug, Clone, Copy, PartialEq, Eq)]
pub struct AdjacentTiles(pub [Option<u64>; 6]);

/// One logical tile of the board.
#[derive(Debug, Clone, Copy)]
pub struct LogTile {
    pub entity: u64,
    pub selection: TileSelectionStatus,
    /// The piece standing on the tile, if any.
    pub occupant: Option<u64>,
    pub adjacents: AdjacentTiles,
    pub tile_type: TileType,
}

/// The tiles selected so far, in the order they were selected.
#[derive(Debug, Clone)]
pub struct SelectedLogTiles(Vec<u64>);

impl View for SelectedLogTiles {
    type V = Seq<u64>;

    closed spec fn view(&self) -> Seq<u64> {
        self.0@
    }
}

impl SelectedLogTiles {
    pub fn as_read_only_list(&self) -> (r: &Vec<u64>)
        ensures
            r@ == self@,
    {
        &self.0
    }
}

/// The direction opposite to `d`.
pub open spec fn opposite(d: int) -> int {
    (d + 3) % 6
}

/// The neighbour of a tile in direction `d`.
pub open spec fn neighbour(t: LogTile, d: int) -> Option<u64> {
    t.adjacents.0@[d]
}

pub open spec fn tile_present(tiles: Seq<LogTile>, e: u64) -> bool {
    exists|i: int| 0 <= i < tiles.len() && (#[trigger] tiles[i]).entity == e
}

pub open spec fn distinct_entities(tiles: Seq<LogTile>) -> bool {
    forall|i: int, j: int|
        0 <= i < tiles.len() && 0 <= j < tiles.len() && i != j ==> (#[trigger] tiles[i]).entity
            != (#[trigger] tiles[j]).entity
}

/// Every neighbour that a tile names is a tile of the board.
pub open spec fn adjacency_closed(tiles: Seq<LogTile>) -> bool {
    forall|i: int, d: int|
        0 <= i < tiles.len() && 0 <= d < 6 && (#[trigger] neighbour(tiles[i], d)) is Some
            ==> tile_present(tiles, neighbour(tiles[i], d)->0)
}

/// When `a` names `b` as its neighbour in direction `d`, `b` names `a` in the
/// opposite direction.
pub open spec fn adjacency_symmetric(tiles: Seq<LogTile>) -> bool {
    forall|i: int, j: int, d: int, e: int|
        #![trigger neighbour(tiles[i], d), neighbour(tiles[j], e)]
        0 <= i < tiles.len() && 0 <= j < tiles.len() && 0 <= d < 6 && e == opposite(d)
            && neighbour(tiles[i], d) == Some(tiles[j].entity) ==> neighbour(tiles[j], e) == Some(
            tiles[i].entity,
        )
}

/// The selection list has no repeats, lists every selected tile, and every
/// listed tile still on the board is selected.
pub open spec fn selection_consistent(tiles: Seq<LogTile>, selected: Seq<u64>) -> bool {
    &&& selected.no_duplicates()
    &&& forall|i: int|
        0 <= i < tiles.len() && (#[trigger] tiles[i]).selection@ == SelectionState::Selected
            ==> selected.contains(tiles[i].entity)
    &&& forall|i: int, k: int|
        0 <= i < tiles.len() && 0 <= k < selected.len() && (#[trigger] selected[k]) == (
        #[trigger] tiles[i]).entity ==> tiles[i].selection@ == SelectionState::Selected
}

pub open spec fn board_wf(tiles: Seq<LogTile>, selected: Seq<u64>) -> bool {
    &&& distinct_entities(tiles)
    &&& adjacency_closed(tiles)
    &&& adjacency_symmetric(tiles)
    &&& selection_consistent(tiles, selected)
}

/// `new` is `old` with every link to the tile `gone` cut, and nothing else changed.
pub open spec fn unlinked_from(new: LogTile, old: LogTile, gone: u64) -> bool {
    &&& new.entity == old.entity
    &&& new.selection == old.selection
    &&& new.occupant == old.occupant
    &&& new.tile_type == old.tile_type
    &&& forall|d: int|
        0 <= d < 6 ==> #[trigger] neighbour(new, d) == if neighbour(old, d) == Some(gone) {
            None
        } else {
            neighbour(old, d)
        }
}

/// `new` is `old` with every link to a tile of `gone` cut, and nothing else
/// changed.
pub open spec fn unlinked_from_all(new: LogTile, old: LogTile, gone: Seq<u64>) -> bool {
    &&& new.entity == old.entity
    &&& new.selection == old.selection
    &&& new.occupant == old.occupant
    &&& new.tile_type == old.tile_type
    &&& forall|d: int|
        0 <= d < 6 ==> #[trigger] neighbour(new, d) == if neighbour(old, d) is Some && gone.contains(
            neighbour(old, d)->0,
        ) {
            None
        } else {
            neighbour(old, d)
        }
}

/// The tile `e` of the board (meaningful when it exists).
#[verifier::opaque]
pub open spec fn tile_of(tiles: Seq<LogTile>, e: u64) -> LogTile {
    tiles[choose|i: int| 0 <= i < tiles.len() && (#[trigger] tiles[i]).entity == e]
}

/// Every tile of `new` is the tile of the same entity in `old`, with its
/// links to the tiles of `gone` cut.
pub open spec fn survivors_cut(new: Seq<LogTile>, old: Seq<LogTile>, gone: Seq<u64>) -> bool {
    forall|k: int|
        0 <= k < new.len() ==> tile_present(old, (#[trigger] new[k]).entity) && unlinked_from_all(
            new[k],
            tile_of(old, new[k].entity),
            gone,
        )
}

/// The tiles of `new` keep the order that the tiles of the same entity have
/// in `old`.
pub open spec fn survivors_ordered(new: Seq<LogTile>, old: Seq<LogTile>) -> bool {
    forall|k1: int, k2: int, j1: int, j2: int|
        #![trigger new[k1], new[k2], old[j1], old[j2]]
        0 <= k1 < k2 < new.len() && 0 <= j1 < old.len() && 0 <= j2 < old.len() && new[k1].entity
            == old[j1].entity && new[k2].entity == old[j2].entity ==> j1 < j2
}

/// Every tile of `new` is a tile of `old` with its links to the tiles of
/// `gone` cut, and the tiles of `new` keep the order they had in `old`.
pub open spec fn survivors(new: Seq<LogTile>, old: Seq<LogTile>, gone: Seq<u64>) -> bool {
    survivors_cut(new, old, gone) && survivors_ordered(new, old)
}

/// `new` is `old` with `b` recorded as the neighbour of `a` in direction `d`,
/// and `a` as the neighbour of `b` in the opposite direction.
pub open spec fn linked(new: Seq<LogTile>, old: Seq<LogTile>, a: u64, d: int, b: u64) -> bool {
    &&& new.len() == old.len()
    &&& forall|k: int|
        0 <= k < new.len() ==> {
            &&& (#[trigger] new[k]).entity == old[k].entity
            &&& new[k].selection == old[k].selection
            &&& new[k].occupant == old[k].occupant
            &&& new[k].tile_type == old[k].tile_type
            &&& forall|e: int|
                0 <= e < 6 ==> #[trigger] neighbour(new[k], e) == if old[k].entity == a && e == d {
                    Some(b)
                } else if old[k].entity == b && e == opposite(d) {
                    Some(a)
                } else {
                    neighbour(old[k], e)
                }
        }
}

/// `tiles` is `before` after writing `b = before[j]` into slot `d` of tile `i`
/// and `a = before[i]` into the opposite slot of tile `j`.
spec fn link_step(tiles: Seq<LogTile>, before: Seq<LogTile>, i: int, j: int, d: int) -> bool {
    &&& 0 <= i < before.len()
    &&& 0 <= j < before.len()
    &&& 0 <= d < 6
    &&& before[i].entity != before[j].entity
    &&& neighbour(before[i], d) is None
    &&& neighbour(before[j], opposite(d)) is None
    &&& tiles.len() == before.len()
    &&& forall|k: int| 0 <= k < before.len() && k != i && k != j ==> #[trigger] tiles[k] == before[k]
    &&& forall|k: int|
        0 <= k < before.len() && (k == i || k == j) ==> {
            &&& (#[trigger] tiles[k]).entity == before[k].entity
            &&& tiles[k].selection == before[k].selection
            &&& tiles[k].occupant == before[k].occupant
            &&& tiles[k].tile_type == before[k].tile_type
        }
    &&& forall|e: int|
        0 <= e < 6 ==> #[trigger] neighbour(tiles[i], e) == if e == d {
            Some(before[j].entity)
        } else {
            neighbour(before[i], e)
        }
    &&& forall|e: int|
        0 <= e < 6 ==> #[trigger] neighbour(tiles[j], e) == if e == opposite(d) {
            Some(before[i].entity)
        } else {
            neighbour(before[j], e)
        }
}

proof fn lemma_link_shape(tiles: Seq<LogTile>, before: Seq<LogTile>, sel: Seq<u64>, i: int, j: int, d: int)
    requires
        board_wf(before, sel),
        link_step(tiles, before, i, j, d),
    ensures
        linked(tiles, before, before[i].entity, d, before[j].entity),
{
    let a = before[i].entity;
    let b = before[j].entity;
    assert forall|k: int| 0 <= k < tiles.len() implies {
        &&& (#[trigger] tiles[k]).entity == before[k].entity
        &&& tiles[k].selection == before[k].selection
        &&& tiles[k].occupant == before[k].occupant
        &&& tiles[k].tile_type == before[k].tile_type
        &&& forall|e: int|
            0 <= e < 6 ==> #[trigger] neighbour(tiles[k], e) == if before[k].entity == a && e == d {
                Some(b)
            } else if before[k].entity == b && e == opposite(d) {
                Some(a)
            } else {
                neighbour(before[k], e)
            }
    } by {
        if k != i && k != j {
            assert(before[k].entity != a);
            assert(before[k].entity != b);
        }
    }
}

proof fn lemma_link_wf(tiles: Seq<LogTile>, before: Seq<LogTile>, sel: Seq<u64>, i: int, j: int, d: int)
    requires
        board_wf(before, sel),
        link_step(tiles, before, i, j, d),
    ensures
        board_wf(tiles, sel),
{
    lemma_link_closed(tiles, before, sel, i, j, d);
    lemma_link_symmetric(tiles, before, sel, i, j, d);
    assert forall|x: int, y: int|
        0 <= x < tiles.len() && 0 <= y < tiles.len() && x != y implies (
        #[trigger] tiles[x]).entity != (#[trigger] tiles[y]).entity by {
        assert(before[x].entity != before[y].entity);
    }
    assert forall|x: int, k: int|
        0 <= x < tiles.len() && 0 <= k < sel.len() && (#[trigger] sel[k]) == (
        #[trigger] tiles[x]).entity implies tiles[x].selection@ == SelectionState::Selected by {
        assert(before[x].entity == tiles[x].entity);
    }
    assert forall|x: int|
        0 <= x < tiles.len() && (#[trigger] tiles[x]).selection@ == SelectionState::Selected implies sel.contains(
            tiles[x].entity,
        ) by {
        assert(before[x].entity == tiles[x].entity);
    }
}

proof fn lemma_link_closed(tiles: Seq<LogTile>, before: Seq<LogTile>, sel: Seq<u64>, i: int, j: int, d: int)
    requires
        board_wf(before, sel),
        link_step(tiles, before, i, j, d),
    ensures
        adjacency_closed(tiles),
{
    let a = before[i].entity;
    let b = before[j].entity;
    assert forall|x: int, e: int|
        0 <= x < tiles.len() && 0 <= e < 6 && (#[trigger] neighbour(tiles[x], e)) is Some implies tile_present(
            tiles,
            neighbour(tiles[x], e)->0,
        ) by {
        if x == i && e == d {
            assert(tiles[j].entity == b);
        } else if x == j && e == opposite(d) {
            assert(tiles[i].entity == a);
        } else {
            let u = neighbour(before[x], e)->0;
            assert(neighbour(tiles[x], e) == neighbour(before[x], e));
            assert(tile_present(before, u));
            let w = choose|w: int| 0 <= w < before.len() && (#[trigger] before[w]).entity == u;
            assert(tiles[w].entity == u);
        }
    }
}

proof fn lemma_link_symmetric(tiles: Seq<LogTile>, before: Seq<LogTile>, sel: Seq<u64>, i: int, j: int, d: int)
    requires
        distinct_entities(before),
        adjacency_symmetric(before),
        link_step(tiles, before, i, j, d),
    ensures
        adjacency_symmetric(tiles),
{
    assert forall|x: int, y: int, e: int, f: int|
        #![trigger neighbour(tiles[x], e), neighbour(tiles[y], f)]
        0 <= x < tiles.len() && 0 <= y < tiles.len() && 0 <= e < 6 && f == opposite(e)
            && neighbour(tiles[x], e) == Some(tiles[y].entity) implies neighbour(tiles[y], f)
        == Some(tiles[x].entity) by {
        lemma_link_symmetric_at(tiles, before, i, j, d, x, y, e);
    }
}

proof fn lemma_link_symmetric_at(
    tiles: Seq<LogTile>,
    before: Seq<LogTile>,
    i: int,
    j: int,
    d: int,
    x: int,
    y: int,
    e: int,
)
    requires
        distinct_entities(before),
        adjacency_symmetric(before),
        link_step(tiles, before, i, j, d),
        0 <= x < tiles.len(),
        0 <= y < tiles.len(),
        0 <= e < 6,
        neighbour(tiles[x], e) == Some(tiles[y].entity),
    ensures
        neighbour(tiles[y], opposite(e)) == Some(tiles[x].entity),
{
    assert(tiles[x].entity == before[x].entity);
    assert(tiles[y].entity == before[y].entity);
    let oe = opposite(e);
    if x == i && e == d {
        assert(before[y].entity == before[j].entity);
        assert(y == j);
    } else if x == j && e == opposite(d) {
        assert(before[y].entity == before[i].entity);
        assert(y == i);
        assert(oe == d);
    } else {
        assert(neighbour(tiles[x], e) == neighbour(before[x], e));
        assert(neighbour(before[x], e) == Some(before[y].entity));
        assert(neighbour(before[y], oe) == Some(before[x].entity));
        if y == i && oe == d {
            assert(neighbour(before[i], d) is None);
            assert(false);
        } else if y == j && oe == opposite(d) {
            assert(e == d);
            assert(neighbour(before[x], d) == Some(before[j].entity));
            assert(neighbour(before[j], opposite(d)) == Some(before[x].entity));
            assert(false);
        } else {
            assert(neighbour(tiles[y], oe) == neighbour(before[y], oe));
        }
    }
}

/// Two boards with the same tiles, in the same order, linked in the same way.
pub open spec fn same_shape(a: Seq<LogTile>, b: Seq<LogTile>) -> bool {
    &&& a.len() == b.len()
    &&& forall|k: int|
        0 <= k < a.len() ==> (#[trigger] a[k]).entity == b[k].entity && a[k].adjacents
            == b[k].adjacents
}

proof fn lemma_same_shape(tiles: Seq<LogTile>, before: Seq<LogTile>)
    requires
        same_shape(tiles, before),
        distinct_entities(before),
        adjacency_closed(before),
        adjacency_symmetric(before),
    ensures
        distinct_entities(tiles),
        adjacency_closed(tiles),
        adjacency_symmetric(tiles),
{
    assert forall|x: int, y: int|
        0 <= x < tiles.len() && 0 <= y < tiles.len() && x != y implies (
        #[trigger] tiles[x]).entity != (#[trigger] tiles[y]).entity by {
        assert(before[x].entity != before[y].entity);
    }
    assert forall|x: int, e: int|
        0 <= x < tiles.len() && 0 <= e < 6 && (#[trigger] neighbour(tiles[x], e)) is Some implies tile_present(
            tiles,
            neighbour(tiles[x], e)->0,
        ) by {
        assert(tiles[x].adjacents == before[x].adjacents);
        assert(neighbour(tiles[x], e) == neighbour(before[x], e));
        let u = neighbour(before[x], e)->0;
        assert(tile_present(before, u));
        let w = choose|w: int| 0 <= w < before.len() && (#[trigger] before[w]).entity == u;
        assert(tiles[w].entity == u);
    }
    assert forall|x: int, y: int, e: int, f: int|
        #![trigger neighbour(tiles[x], e), neighbour(tiles[y], f)]
        0 <= x < tiles.len() && 0 <= y < tiles.len() && 0 <= e < 6 && f == opposite(e)
            && neighbour(tiles[x], e) == Some(tiles[y].entity) implies neighbour(tiles[y], f)
        == Some(tiles[x].entity) by {
        assert(tiles[x].adjacents == before[x].adjacents);
        assert(tiles[y].adjacents == before[y].adjacents);
        assert(neighbour(tiles[x], e) == neighbour(before[x], e));
        assert(neighbour(tiles[y], f) == neighbour(before[y], f));
        assert(tiles[y].entity == before[y].entity);
    }
}

/// Only the selection of the tile at `i` differs between the two boards, and
/// it was selected before exactly when it is selected after.
proof fn lemma_selection_update(tiles: Seq<LogTile>, before: Seq<LogTile>, sel: Seq<u64>, i: int)
    requires
        board_wf(before, sel),
        0 <= i < before.len(),
        tiles.len() == before.len(),
        forall|k: int| 0 <= k < before.len() && k != i ==> #[trigger] tiles[k] == before[k],
        tiles[i].entity == before[i].entity,
        tiles[i].adjacents == before[i].adjacents,
        (tiles[i].selection@ == SelectionState::Selected) == (before[i].selection@
            == SelectionState::Selected),
    ensures
        board_wf(tiles, sel),
{
    assert(same_shape(tiles, before));
    lemma_same_shape(tiles, before);
    assert forall|x: int, k: int|
        0 <= x < tiles.len() && 0 <= k < sel.len() && (#[trigger] sel[k]) == (
        #[trigger] tiles[x]).entity implies tiles[x].selection@ == SelectionState::Selected by {
        assert(before[x].entity == tiles[x].entity);
    }
    assert forall|x: int|
        0 <= x < tiles.len() && (#[trigger] tiles[x]).selection@ == SelectionState::Selected implies sel.contains(
            tiles[x].entity,
        ) by {
        assert(before[x].entity == tiles[x].entity);
    }
}

/// `cur` is `old` with the links to `gone` cut in every slot whose opposite
/// direction is below `upto`.
spec fn cut_below(cur: Seq<LogTile>, old: Seq<LogTile>, gone: u64, upto: int) -> bool {
    &&& cur.len() == old.len()
    &&& forall|k: int|
        0 <= k < old.len() ==> {
            &&& (#[trigger] cur[k]).entity == old[k].entity
            &&& cur[k].selection == old[k].selection
            &&& cur[k].occupant == old[k].occupant
            &&& cur[k].tile_type == old[k].tile_type
        }
    &&& forall|k: int, s: int|
        0 <= k < old.len() && 0 <= s < 6 ==> #[trigger] neighbour(cur[k], s) == if neighbour(
            old[k],
            s,
        ) == Some(gone) && opposite(s) < upto {
            None
        } else {
            neighbour(old[k], s)
        }
}

proof fn lemma_cut_step(
    cur: Seq<LogTile>,
    next: Seq<LogTile>,
    old: Seq<LogTile>,
    sel: Seq<u64>,
    i: int,
    idx: int,
    j: int,
)
    requires
        board_wf(old, sel),
        0 <= i < old.len(),
        0 <= idx < 6,
        cut_below(cur, old, old[i].entity, idx),
        neighbour(old[i], idx) is Some,
        0 <= j < old.len(),
        cur[j].entity == neighbour(old[i], idx)->0,
        next.len() == cur.len(),
        forall|k: int| 0 <= k < cur.len() && k != j ==> #[trigger] next[k] == cur[k],
        next[j].entity == cur[j].entity,
        next[j].selection == cur[j].selection,
        next[j].occupant == cur[j].occupant,
        next[j].tile_type == cur[j].tile_type,
        forall|s: int|
            0 <= s < 6 ==> #[trigger] neighbour(next[j], s) == if s == opposite(idx) {
                None
            } else {
                neighbour(cur[j], s)
            },
    ensures
        cut_below(next, old, old[i].entity, idx + 1),
{
    let e = old[i].entity;
    let oi = opposite(idx);
    assert(neighbour(old[i], idx) == Some(old[j].entity));
    assert(neighbour(old[j], oi) == Some(old[i].entity));
    assert forall|k: int, s: int| 0 <= k < old.len() && 0 <= s < 6 implies #[trigger] neighbour(
        next[k],
        s,
    ) == if neighbour(old[k], s) == Some(e) && opposite(s) < idx + 1 {
        None
    } else {
        neighbour(old[k], s)
    } by {
        if neighbour(old[k], s) == Some(e) && opposite(s) == idx {
            let os = opposite(s);
            assert(neighbour(old[i], os) == Some(old[k].entity));
            assert(old[k].entity == old[j].entity);
            assert(k == j);
            assert(s == oi);
        } else if k == j && s == oi {
            assert(opposite(s) == idx);
        }
    }
}

proof fn lemma_cut_none_step(cur: Seq<LogTile>, old: Seq<LogTile>, sel: Seq<u64>, i: int, idx: int)
    requires
        board_wf(old, sel),
        0 <= i < old.len(),
        0 <= idx < 6,
        cut_below(cur, old, old[i].entity, idx),
        neighbour(old[i], idx) is None,
    ensures
        cut_below(cur, old, old[i].entity, idx + 1),
{
    let e = old[i].entity;
    assert forall|k: int, s: int| 0 <= k < old.len() && 0 <= s < 6 implies #[trigger] neighbour(
        cur[k],
        s,
    ) == if neighbour(old[k], s) == Some(e) && opposite(s) < idx + 1 {
        None
    } else {
        neighbour(old[k], s)
    } by {
        if neighbour(old[k], s) == Some(e) && opposite(s) == idx {
            let os = opposite(s);
            assert(neighbour(old[i], os) == Some(old[k].entity));
            assert(false);
        }
    }
}

proof fn lemma_cut_done(cur: Seq<LogTile>, old: Seq<LogTile>, sel: Seq<u64>, i: int)
    requires
        board_wf(old, sel),
        0 <= i < old.len(),
        cut_below(cur, old, old[i].entity, 6),
    ensures
        board_wf(cur.remove(i), sel),
        forall|k: int|
            0 <= k < cur.len() - 1 ==> unlinked_from(
                #[trigger] cur.remove(i)[k],
                old[if k < i {
                    k
                } else {
                    k + 1
                }],
                old[i].entity,
            ),
{
    let e = old[i].entity;
    let new = cur.remove(i);
    assert forall|k: int| 0 <= k < new.len() implies #[trigger] new[k] == cur[if k < i {
        k
    } else {
        k + 1
    }] by {}
    assert forall|k: int| 0 <= k < new.len() implies unlinked_from(
        #[trigger] new[k],
        old[if k < i {
            k
        } else {
            k + 1
        }],
        e,
    ) by {
        let ok = if k < i {
            k
        } else {
            k + 1
        };
        assert forall|d: int| 0 <= d < 6 implies #[trigger] neighbour(new[k], d) == if neighbour(
            old[ok],
            d,
        ) == Some(e) {
            None
        } else {
            neighbour(old[ok], d)
        } by {
            assert(neighbour(new[k], d) == neighbour(cur[ok], d));
            assert(0 <= opposite(d) < 6);
        }
    }
    assert forall|x: int, y: int|
        0 <= x < new.len() && 0 <= y < new.len() && x != y implies (#[trigger] new[x]).entity != (
        #[trigger] new[y]).entity by {
        let ox = if x < i {
            x
        } else {
            x + 1
        };
        let oy = if y < i {
            y
        } else {
            y + 1
        };
        assert(new[x].entity == old[ox].entity);
        assert(new[y].entity == old[oy].entity);
    }
    assert forall|x: int, d: int|
        0 <= x < new.len() && 0 <= d < 6 && (#[trigger] neighbour(new[x], d)) is Some implies tile_present(
            new,
            neighbour(new[x], d)->0,
        ) by {
        let ox = if x < i {
            x
        } else {
            x + 1
        };
        assert(unlinked_from(new[x], old[ox], e));
        let u = neighbour(old[ox], d)->0;
        assert(neighbour(new[x], d) == neighbour(old[ox], d));
        assert(u != e);
        assert(tile_present(old, u));
        let w = choose|w: int| 0 <= w < old.len() && (#[trigger] old[w]).entity == u;
        assert(w != i);
        let nw = if w < i {
            w
        } else {
            w - 1
        };
        assert(new[nw].entity == u);
    }
    assert forall|x: int, y: int, d: int, f: int|
        #![trigger neighbour(new[x], d), neighbour(new[y], f)]
        0 <= x < new.len() && 0 <= y < new.len() && 0 <= d < 6 && f == opposite(d) && neighbour(
            new[x],
            d,
        ) == Some(new[y].entity) implies neighbour(new[y], f) == Some(new[x].entity) by {
        let ox = if x < i {
            x
        } else {
            x + 1
        };
        let oy = if y < i {
            y
        } else {
            y + 1
        };
        assert(unlinked_from(new[x], old[ox], e));
        assert(unlinked_from(new[y], old[oy], e));
        assert(neighbour(new[x], d) == neighbour(old[ox], d));
        assert(old[ox].entity != e);
        assert(neighbour(old[oy], f) == Some(old[ox].entity));
        assert(neighbour(new[y], f) == neighbour(old[oy], f));
    }
    assert forall|x: int, k: int|
        0 <= x < new.len() && 0 <= k < sel.len() && (#[trigger] sel[k]) == (#[trigger] new[x]).entity implies new[x].selection@
        == SelectionState::Selected by {
        let ox = if x < i {
            x
        } else {
            x + 1
        };
        assert(new[x].entity == old[ox].entity);
        assert(new[x].selection == old[ox].selection);
    }
    assert forall|x: int|
        0 <= x < new.len() && (#[trigger] new[x]).selection@ == SelectionState::Selected implies sel.contains(
            new[x].entity,
        ) by {
        let ox = if x < i {
            x
        } else {
            x + 1
        };
        assert(new[x].entity == old[ox].entity);
        assert(new[x].selection == old[ox].selection);
        assert(old[ox].selection@ == SelectionState::Selected);
    }
}

proof fn lemma_survivors_start(tiles: Seq<LogTile>)
    requires
        distinct_entities(tiles),
    ensures
        survivors(tiles, tiles, Seq::<u64>::empty()),
{
    lemma_survivors_start_cut(tiles);
    lemma_survivors_start_order(tiles);
}

proof fn lemma_survivors_start_cut(tiles: Seq<LogTile>)
    requires
        distinct_entities(tiles),
    ensures
        survivors_cut(tiles, tiles, Seq::<u64>::empty()),
{
    assert forall|k: int| 0 <= k < tiles.len() implies tile_present(tiles, (#[trigger] tiles[k]).entity)
        && unlinked_from_all(tiles[k], tile_of(tiles, tiles[k].entity), Seq::<u64>::empty()) by {
        lemma_tile_of_index(tiles, k);
        let t = tiles[k];
        assert forall|d: int| 0 <= d < 6 implies #[trigger] neighbour(t, d) == if neighbour(t, d) is Some
            && Seq::<u64>::empty().contains(neighbour(t, d)->0) {
            None
        } else {
            neighbour(t, d)
        } by {}
    }
}

/// In a board of distinct tiles, the tile named by the entity at index `k`
/// is the tile at `k`.
proof fn lemma_tile_of_index(tiles: Seq<LogTile>, k: int)
    requires
        distinct_entities(tiles),
        0 <= k < tiles.len(),
    ensures
        tile_present(tiles, tiles[k].entity),
        tile_of(tiles, tiles[k].entity) == tiles[k],
{
    reveal(tile_of);
    assert(tile_present(tiles, tiles[k].entity));
    let c = choose|c: int| 0 <= c < tiles.len() && (#[trigger] tiles[c]).entity == tiles[k].entity;
    assert(c == k);
}

proof fn lemma_survivors_start_order(tiles: Seq<LogTile>)
    requires
        distinct_entities(tiles),
    ensures
        survivors_ordered(tiles, tiles),
{
    assert forall|k1: int, k2: int, j1: int, j2: int|
        #![trigger tiles[k1], tiles[k2], tiles[j1], tiles[j2]]
        0 <= k1 < k2 < tiles.len() && 0 <= j1 < tiles.len() && 0 <= j2 < tiles.len() && tiles[k1].entity
            == tiles[j1].entity && tiles[k2].entity == tiles[j2].entity implies j1 < j2 by {
        if j1 != k1 {
            assert(tiles[j1].entity != tiles[k1].entity);
        }
        if j2 != k2 {
            assert(tiles[j2].entity != tiles[k2].entity);
        }
    }
}

/// One deletion of the tile `e` (when `was`) keeps the survivors of `old`
/// in order, with the links to `e` cut as well.
proof fn lemma_survivors_step(
    before: Seq<LogTile>,
    new: Seq<LogTile>,
    old: Seq<LogTile>,
    gone: Seq<u64>,
    e: u64,
    was: bool,
)
    requires
        survivors(before, old, gone),
        was ==> tile_present(before, e),
        !was ==> new == before,
        forall|i: int|
            0 <= i < before.len() && (#[trigger] before[i]).entity == e ==> {
                &&& new.len() == before.len() - 1
                &&& forall|k: int|
                    0 <= k < new.len() ==> unlinked_from(
                        #[trigger] new[k],
                        before[if k < i {
                            k
                        } else {
                            k + 1
                        }],
                        e,
                    )
            },
    ensures
        survivors(new, old, if was { gone.push(e) } else { gone }),
{
    if was {
        let g2 = gone.push(e);
        let i = choose|i: int| 0 <= i < before.len() && (#[trigger] before[i]).entity == e;
        assert forall|k: int| 0 <= k < new.len() implies tile_present(old, (#[trigger] new[k]).entity)
            && unlinked_from_all(new[k], tile_of(old, new[k].entity), g2) by {
            let bk = if k < i {
                k
            } else {
                k + 1
            };
            assert(unlinked_from(new[k], before[bk], e));
            let ot = tile_of(old, before[bk].entity);
            assert(unlinked_from_all(before[bk], ot, gone));
            assert forall|d: int| 0 <= d < 6 implies #[trigger] neighbour(new[k], d) == if neighbour(ot, d) is Some
                && g2.contains(neighbour(ot, d)->0) {
                None
            } else {
                neighbour(ot, d)
            } by {
                assert(neighbour(new[k], d) == if neighbour(before[bk], d) == Some(e) {
                    None
                } else {
                    neighbour(before[bk], d)
                });
                assert(neighbour(before[bk], d) == if neighbour(ot, d) is Some && gone.contains(
                    neighbour(ot, d)->0,
                ) {
                    None
                } else {
                    neighbour(ot, d)
                });
                if neighbour(ot, d) is Some {
                    let u = neighbour(ot, d)->0;
                    assert(g2.contains(u) == (gone.contains(u) || u == e)) by {
                        if gone.contains(u) {
                            let m = choose|m: int| 0 <= m < gone.len() && gone[m] == u;
                            assert(g2[m] == u);
                        }
                        if u == e {
                            assert(g2[gone.len() as int] == e);
                        }
                        if g2.contains(u) {
                            let m = choose|m: int| 0 <= m < g2.len() && g2[m] == u;
                            if m < gone.len() {
                                assert(gone[m] == u);
                            }
                        }
                    }
                }
            }
            assert(unlinked_from_all(new[k], ot, g2));
        }
        assert forall|k1: int, k2: int, j1: int, j2: int|
            #![trigger new[k1], new[k2], old[j1], old[j2]]
            0 <= k1 < k2 < new.len() && 0 <= j1 < old.len() && 0 <= j2 < old.len() && new[k1].entity
                == old[j1].entity && new[k2].entity == old[j2].entity implies j1 < j2 by {
            let b1 = if k1 < i {
                k1
            } else {
                k1 + 1
            };
            let b2 = if k2 < i {
                k2
            } else {
                k2 + 1
            };
            assert(unlinked_from(new[k1], before[b1], e));
            assert(unlinked_from(new[k2], before[b2], e));
            assert(before[b1].entity == old[j1].entity);
            assert(before[b2].entity == old[j2].entity);
            assert(b1 < b2);
        }
        assert(survivors_cut(new, old, g2));
        assert(survivors_ordered(new, old));
    }
}

proof fn lemma_deleted_presence(new: Seq<LogTile>, old: Seq<LogTile>, e: u64, was: bool)
    requires
        distinct_entities(old),
        was == tile_present(old, e),
        !was ==> new == old,
        forall|i: int|
            0 <= i < old.len() && (#[trigger] old[i]).entity == e ==> {
                &&& new.len() == old.len() - 1
                &&& forall|k: int|
                    0 <= k < new.len() ==> unlinked_from(
                        #[trigger] new[k],
                        old[if k < i {
                            k
                        } else {
                            k + 1
                        }],
                        e,
                    )
            },
    ensures
        !tile_present(new, e),
        forall|u: u64| tile_present(new, u) ==> tile_present(old, u),
        forall|u: u64| tile_present(old, u) && u != e ==> tile_present(new, u),
{
    if was {
        let i = choose|i: int| 0 <= i < old.len() && (#[trigger] old[i]).entity == e;
        assert forall|u: u64| tile_present(new, u) implies tile_present(old, u) && u != e by {
            let k = choose|k: int| 0 <= k < new.len() && (#[trigger] new[k]).entity == u;
            let ok = if k < i {
                k
            } else {
                k + 1
            };
            assert(unlinked_from(new[k], old[ok], e));
            assert(old[ok].entity == u);
        }
        assert forall|u: u64| tile_present(old, u) && u != e implies tile_present(new, u) by {
            let w = choose|w: int| 0 <= w < old.len() && (#[trigger] old[w]).entity == u;
            let nw = if w < i {
                w
            } else {
                w - 1
            };
            assert(unlinked_from(new[nw], old[w], e));
            assert(new[nw].entity == u);
        }
    }
}

/// The requested tiles that a run of deletions finds, in the order of the
/// requests: each tile of `tiles` the first time it is requested.
pub open spec fn deleted_in_order(requests: Seq<u64>, tiles: Seq<LogTile>) -> Seq<u64>
    decreases requests.len(),
{
    if requests.len() == 0 {
        Seq::empty()
    } else {
        let earlier = deleted_in_order(requests.drop_last(), tiles);
        if tile_present(tiles, requests.last()) && !earlier.contains(requests.last()) {
            earlier.push(requests.last())
        } else {
            earlier
        }
    }
}

/// The result of a request to select a tile.
#[derive(Debug, Clone, Copy, PartialEq, Eq, Structural)]
pub enum SelectOutcome {
    /// The tile was eligible and is now selected; the selection changed.
    Selected,
    /// The tile was not eligible; nothing changed.
    NotEligible,
    /// No tile with that id exists; nothing changed.
    NotATile,
}

/// All the logical tiles, and the current selection.
#[derive(Debug, Clone)]
pub struct Board {
    tiles: Vec<LogTile>,
    selected: SelectedLogTiles,
}

impl View for Board {
    type V = Seq<LogTile>;

    closed spec fn view(&self) -> Seq<LogTile> {
        self.tiles@
    }
}

impl Board {
    pub closed spec fn selected_view(&self) -> Seq<u64> {
        self.selected@
    }

    pub open spec fn wf(&self) -> bool {
        board_wf(self@, self.selected_view())
    }

    /// An empty board with nothing selected.
    pub fn new() -> (r: Board)
        ensures
            r.wf(),
            r@ == Seq::<LogTile>::empty(),
            r.selected_view() == Seq::<u64>::empty(),
    {
        Board { tiles: Vec::new(), selected: SelectedLogTiles(Vec::new()) }
    }

    pub fn tiles(&self) -> (r: &Vec<LogTile>)
        ensures
            r@ == self@,
    {
        &self.tiles
    }

    pub fn selected(&self) -> (r: &SelectedLogTiles)
        ensures
            r@ == self.selected_view(),
    {
        &self.selected
    }

    /// The index of the tile with the given id.
    pub fn find(&self, e: u64) -> (r: Option<usize>)
        ensures
            r matches Some(i) ==> i < self@.len() && self@[i as int].entity == e,
            r is None <==> !tile_present(self@, e),
    {
        let mut i: usize = 0;
        while i < self.tiles.len()
            invariant
                i <= self.tiles@.len(),
                forall|k: int| 0 <= k < i ==> (#[trigger] self.tiles@[k]).entity != e,
            decreases self.tiles@.len() - i,
        {
            if self.tiles[i].entity == e {
                return Some(i);
            }
            i = i + 1;
        }
        None
    }

    /// Sets one neighbour slot of the tile at index `i`; nothing else changes.
    fn set_neighbour(&mut self, i: usize, d: usize, v: Option<u64>)
        requires
            i < old(self)@.len(),
            d < 6,
        ensures
            final(self)@.len() == old(self)@.len(),
            final(self).selected_view() == old(self).selected_view(),
            forall|k: int| 0 <= k < old(self)@.len() && k != i ==> #[trigger] final(self)@[k] == old(self)@[k],
            final(self)@[i as int].entity == old(self)@[i as int].entity,
            final(self)@[i as int].selection == old(self)@[i as int].selection,
            final(self)@[i as int].occupant == old(self)@[i as int].occupant,
            final(self)@[i as int].tile_type == old(self)@[i as int].tile_type,
            forall|e: int|
                0 <= e < 6 ==> #[trigger] neighbour(final(self)@[i as int], e) == if e == d {
                    v
                } else {
                    neighbour(old(self)@[i as int], e)
                },
    {
        let mut t = self.tiles[i];
        t.adjacents.0[d] = v;
        self.tiles.set(i, t);
    }

    /// Records that `b` is the neighbour of `a` in direction `d`, and so that
    /// `a` is the neighbour of `b` in the opposite direction. Nothing changes
    /// when either tile is missing.
    pub fn link(&mut self, a: u64, d: usize, b: u64)
        requires
            old(self).wf(),
            d < 6,
            a != b,
            forall|i: int|
                0 <= i < old(self)@.len() && (#[trigger] old(self)@[i]).entity == a ==> neighbour(
                    old(self)@[i],
                    d as int,
                ) is None,
            forall|j: int|
                0 <= j < old(self)@.len() && (#[trigger] old(self)@[j]).entity == b ==> neighbour(
                    old(self)@[j],
                    opposite(d as int),
                ) is None,
        ensures
            final(self).wf(),
            final(self).selected_view() == old(self).selected_view(),
            tile_present(old(self)@, a) && tile_present(old(self)@, b) ==> linked(
                final(self)@,
                old(self)@,
                a,
                d as int,
                b,
            ),
            !(tile_present(old(self)@, a) && tile_present(old(self)@, b)) ==> final(self)@ == old(
                self,
            )@,
    {
        let ia = self.find(a);
        let ib = self.find(b);
        match (ia, ib) {
            (Some(i), Some(j)) => {
                let ghost before = self@;
                let od: usize = (d + 3) % 6;
                self.set_neighbour(i, d, Some(b));
                self.set_neighbour(j, od, Some(a));
                proof {
                    lemma_link_shape(self@, before, self.selected@, i as int, j as int, d as int);
                    lemma_link_wf(self@, before, self.selected@, i as int, j as int, d as int);
                }
            },
            _ => {},
        }
    }

    fn set_tile_at(&mut self, i: usize, t: LogTile)
        requires
            i < old(self)@.len(),
        ensures
            final(self)@ == old(self)@.update(i as int, t),
            final(self).selected_view() == old(self).selected_view(),
    {
        self.tiles.set(i, t);
    }

    /// Grants eligibility to the tile at index `i`, unless it is selected.
    pub fn make_eligible_at(&mut self, i: usize)
        requires
            old(self).wf(),
            i < old(self)@.len(),
        ensures
            final(self).wf(),
            final(self).selected_view() == old(self).selected_view(),
            final(self)@.len() == old(self)@.len(),
            forall|k: int| 0 <= k < old(self)@.len() && k != i ==> #[trigger] final(self)@[k] == old(self)@[k],
            final(self)@[i as int].entity == old(self)@[i as int].entity,
            final(self)@[i as int].occupant == old(self)@[i as int].occupant,
            final(self)@[i as int].adjacents == old(self)@[i as int].adjacents,
            final(self)@[i as int].tile_type == old(self)@[i as int].tile_type,
            final(self)@[i as int].selection@ == after_make_eligible(old(self)@[i as int].selection@),
    {
        let mut t = self.tiles[i];
        t.selection.try_make_eligible();
        self.set_tile_at(i, t);
        proof {
            lemma_selection_update(self@, old(self)@, self.selected@, i as int);
        }
    }

    /// Withdraws eligibility from the tile at index `i`, unless it is selected.
    pub fn make_ineligible_at(&mut self, i: usize)
        requires
            old(self).wf(),
            i < old(self)@.len(),
        ensures
            final(self).wf(),
            final(self).selected_view() == old(self).selected_view(),
            final(self)@.len() == old(self)@.len(),
            forall|k: int| 0 <= k < old(self)@.len() && k != i ==> #[trigger] final(self)@[k] == old(self)@[k],
            final(self)@[i as int].entity == old(self)@[i as int].entity,
            final(self)@[i as int].occupant == old(self)@[i as int].occupant,
            final(self)@[i as int].adjacents == old(self)@[i as int].adjacents,
            final(self)@[i as int].tile_type == old(self)@[i as int].tile_type,
            final(self)@[i as int].selection@ == after_make_ineligible(old(self)@[i as int].selection@),
    {
        let mut t = self.tiles[i];
        t.selection.try_make_ineligble();
        self.set_tile_at(i, t);
        proof {
            lemma_selection_update(self@, old(self)@, self.selected@, i as int);
        }
    }

    /// Records which piece, if any, stands on the tile `tile`. Nothing changes
    /// when there is no such tile.
    pub fn set_occupant(&mut self, tile: u64, occupant: Option<u64>)
        requires
            old(self).wf(),
        ensures
            final(self).wf(),
            final(self).selected_view() == old(self).selected_view(),
            final(self)@.len() == old(self)@.len(),
            forall|k: int|
                0 <= k < old(self)@.len() ==> (#[trigger] final(self)@[k]) == if old(self)@[k].entity
                    == tile {
                    LogTile { occupant, ..old(self)@[k] }
                } else {
                    old(self)@[k]
                },
    {
        match self.find(tile) {
            Some(i) => {
                let mut t = self.tiles[i];
                t.occupant = occupant;
                self.set_tile_at(i, t);
                proof {
                    lemma_selection_update(self@, old(self)@, self.selected@, i as int);
                    assert forall|k: int| 0 <= k < old(self)@.len() && k != i implies old(self)@[k].entity != tile by {
                        assert(old(self)@[k].entity != old(self)@[i as int].entity);
                    }
                }
            },
            None => {},
        }
    }

    /// Selects the tile `e` if it is eligible, adding it to the end of the
    /// selection list.
    pub fn select_tile(&mut self, e: u64) -> (r: SelectOutcome)
        requires
            old(self).wf(),
        ensures
            final(self).wf(),
            final(self)@.len() == old(self)@.len(),
            !tile_present(old(self)@, e) ==> r == SelectOutcome::NotATile,
            r == SelectOutcome::NotATile ==> !tile_present(old(self)@, e),
            r != SelectOutcome::Selected ==> final(self)@ == old(self)@ && final(self).selected_view()
                == old(self).selected_view(),
            forall|k: int|
                0 <= k < old(self)@.len() && (#[trigger] old(self)@[k]).entity == e ==> {
                    &&& (r == SelectOutcome::Selected) == (old(self)@[k].selection@
                        == SelectionState::Eligible)
                    &&& r == SelectOutcome::Selected ==> {
                        &&& forall|x: int|
                            0 <= x < old(self)@.len() && x != k ==> #[trigger] final(self)@[x] == old(
                                self,
                            )@[x]
                        &&& final(self)@[k].selection@ == SelectionState::Selected
                        &&& final(self)@[k].entity == e
                        &&& final(self)@[k].occupant == old(self)@[k].occupant
                        &&& final(self)@[k].adjacents == old(self)@[k].adjacents
                        &&& final(self)@[k].tile_type == old(self)@[k].tile_type
                        &&& final(self).selected_view() == old(self).selected_view().push(e)
                    }
                },
    {
        let i = match self.find(e) {
            Some(i) => i,
            None => {
                return SelectOutcome::NotATile;
            },
        };
        if self.tiles[i].selection.0 == SelectionState::Eligible {
            let mut t = self.tiles[i];
            t.selection.0 = SelectionState::Selected;
            self.tiles.set(i, t);
            self.selected.0.push(e);
            proof {
                let tiles = self@;
                let before = old(self)@;
                let sel = self.selected@;
                let osel = old(self).selected@;
                assert(same_shape(tiles, before));
                lemma_same_shape(tiles, before);
                assert(!osel.contains(e)) by {
                    if osel.contains(e) {
                        let k = choose|k: int| 0 <= k < osel.len() && osel[k] == e;
                        assert(osel[k] == before[i as int].entity);
                    }
                }
                assert forall|x: int, k: int|
                    0 <= x < tiles.len() && 0 <= k < sel.len() && (#[trigger] sel[k]) == (
                    #[trigger] tiles[x]).entity implies tiles[x].selection@
                    == SelectionState::Selected by {
                    if x != i {
                        if k == sel.len() - 1 {
                            assert(before[x].entity != before[i as int].entity);
                        } else {
                            assert(sel[k] == osel[k]);
                        }
                    }
                }
                assert forall|x: int|
                    0 <= x < tiles.len() && (#[trigger] tiles[x]).selection@
                        == SelectionState::Selected implies sel.contains(tiles[x].entity) by {
                    if x == i {
                        assert(sel[sel.len() - 1] == e);
                    } else {
                        assert(osel.contains(before[x].entity));
                        let k = choose|k: int| 0 <= k < osel.len() && osel[k] == before[x].entity;
                        assert(sel[k] == osel[k]);
                    }
                }
                assert forall|k: int|
                    0 <= k < before.len() && (#[trigger] before[k]).entity == e implies k == i by {
                    assert(before[i as int].entity == e);
                }
            }
            SelectOutcome::Selected
        } else {
            proof {
                assert forall|k: int|
                    0 <= k < old(self)@.len() && (#[trigger] old(self)@[k]).entity == e implies k == i by {
                    assert(old(self)@[i as int].entity == e);
                }
            }
            SelectOutcome::NotEligible
        }
    }

    /// Starts the selection process over: the list is emptied and no tile is
    /// eligible or selected any more.
    pub fn reset_selection(&mut self)
        requires
            old(self).wf(),
        ensures
            final(self).wf(),
            final(self).selected_view() == Seq::<u64>::empty(),
            final(self)@.len() == old(self)@.len(),
            forall|k: int|
                0 <= k < old(self)@.len() ==> {
                    &&& (#[trigger] final(self)@[k]).entity == old(self)@[k].entity
                    &&& final(self)@[k].occupant == old(self)@[k].occupant
                    &&& final(self)@[k].adjacents == old(self)@[k].adjacents
                    &&& final(self)@[k].tile_type == old(self)@[k].tile_type
                    &&& final(self)@[k].selection@ == SelectionState::Neither
                },
    {
        self.selected.0.clear();
        let n = self.tiles.len();
        let mut i: usize = 0;
        while i < n
            invariant
                n == old(self)@.len(),
                i <= n,
                self.selected@ == Seq::<u64>::empty(),
                self.tiles@.len() == n,
                forall|k: int|
                    0 <= k < n ==> {
                        &&& (#[trigger] self.tiles@[k]).entity == old(self)@[k].entity
                        &&& self.tiles@[k].occupant == old(self)@[k].occupant
                        &&& self.tiles@[k].adjacents == old(self)@[k].adjacents
                        &&& self.tiles@[k].tile_type == old(self)@[k].tile_type
                        &&& k < i ==> self.tiles@[k].selection@ == SelectionState::Neither
                    },
            decreases n - i,
        {
            let mut t = self.tiles[i];
            t.selection.0 = SelectionState::Neither;
            self.tiles.set(i, t);
            i = i + 1;
        }
        proof {
            assert(same_shape(self@, old(self)@));
            lemma_same_shape(self@, old(self)@);
        }
    }

    /// Deletes the tile `e`, cutting every link that its neighbours had to
    /// it. Returns whether there was such a tile; when there was none, nothing
    /// changes. The selection list is left as it is.
    pub fn delete_tile(&mut self, e: u64) -> (deleted: bool)
        requires
            old(self).wf(),
        ensures
            final(self).wf(),
            final(self).selected_view() == old(self).selected_view(),
            deleted == tile_present(old(self)@, e),
            !deleted ==> final(self)@ == old(self)@,
            forall|i: int|
                0 <= i < old(self)@.len() && (#[trigger] old(self)@[i]).entity == e ==> {
                    &&& final(self)@.len() == old(self)@.len() - 1
                    &&& forall|k: int|
                        0 <= k < final(self)@.len() ==> unlinked_from(
                            #[trigger] final(self)@[k],
                            old(self)@[if k < i {
                                k
                            } else {
                                k + 1
                            }],
                            e,
                        )
                },
    {
        let i = match self.find(e) {
            Some(i) => i,
            None => {
                return false;
            },
        };
        let adj = self.tiles[i].adjacents;
        let mut idx: usize = 0;
        while idx < 6
            invariant
                old(self).wf(),
                i < old(self)@.len(),
                old(self)@[i as int].entity == e,
                adj == old(self)@[i as int].adjacents,
                idx <= 6,
                self.selected@ == old(self).selected@,
                cut_below(self@, old(self)@, e, idx as int),
            decreases 6 - idx,
        {
            match adj.0[idx] {
                Some(u) => {
                    proof {
                        assert(neighbour(old(self)@[i as int], idx as int) == Some(u));
                        assert(tile_present(old(self)@, u));
                        let w = choose|w: int| 0 <= w < old(self)@.len() && (#[trigger] old(self)@[w]).entity == u;
                        assert(self@[w].entity == u);
                    }
                    let j = self.find(u).unwrap();
                    let ghost cur = self@;
                    let od: usize = (idx + 3) % 6;
                    self.set_neighbour(j, od, None);
                    proof {
                        lemma_cut_step(cur, self@, old(self)@, old(self).selected@, i as int, idx as int, j as int);
                    }
                },
                None => {
                    proof {
                        lemma_cut_none_step(self@, old(self)@, old(self).selected@, i as int, idx as int);
                    }
                },
            }
            idx = idx + 1;
        }
        let ghost cur = self@;
        self.tiles.remove(i);
        proof {
            lemma_cut_done(cur, old(self)@, old(self).selected@, i as int);
            assert(self@ == cur.remove(i as int));
            assert forall|x: int| 0 <= x < old(self)@.len() && (#[trigger] old(self)@[x]).entity == e implies x == i by {}
        }
        true
    }

    /// Deletes the requested tiles in order, and lists those that existed,
    /// each once. Every other tile keeps its order, occupant, type and
    /// selection, and keeps its links but for those to the deleted tiles.
    pub fn delete_tiles(&mut self, requests: &Vec<u64>) -> (deleted: Vec<u64>)
        requires
            old(self).wf(),
        ensures
            final(self).wf(),
            final(self).selected_view() == old(self).selected_view(),
            forall|k: int| 0 <= k < deleted@.len() ==> requests@.contains(#[trigger] deleted@[k]),
            forall|k: int| 0 <= k < deleted@.len() ==> tile_present(old(self)@, #[trigger] deleted@[k]),
            forall|k: int| 0 <= k < deleted@.len() ==> !tile_present(final(self)@, #[trigger] deleted@[k]),
            forall|k: int|
                0 <= k < requests@.len() && tile_present(old(self)@, #[trigger] requests@[k])
                    ==> deleted@.contains(requests@[k]),
            deleted@.no_duplicates(),
            deleted@ == deleted_in_order(requests@, old(self)@),
            forall|u: u64|
                #[trigger] tile_present(final(self)@, u) <==> tile_present(old(self)@, u)
                    && !deleted@.contains(u),
            survivors(final(self)@, old(self)@, deleted@),
    {
        let mut deleted: Vec<u64> = Vec::new();
        proof {
            lemma_survivors_start(self@);
            assert(deleted@ =~= Seq::<u64>::empty());
        }
        let mut r: usize = 0;
        while r < requests.len()
            invariant
                self.wf(),
                r <= requests@.len(),
                self.selected_view() == old(self).selected_view(),
                forall|k: int| 0 <= k < deleted@.len() ==> requests@.contains(#[trigger] deleted@[k]),
                forall|k: int| 0 <= k < deleted@.len() ==> tile_present(old(self)@, #[trigger] deleted@[k]),
                forall|k: int| 0 <= k < deleted@.len() ==> !tile_present(self@, #[trigger] deleted@[k]),
                forall|k: int|
                    0 <= k < r && tile_present(old(self)@, #[trigger] requests@[k])
                        ==> deleted@.contains(requests@[k]),
                forall|u: u64| tile_present(self@, u) ==> tile_present(old(self)@, u),
                forall|u: u64| tile_present(old(self)@, u) && !deleted@.contains(u) ==> tile_present(self@, u),
                deleted@.no_duplicates(),
                deleted@ == deleted_in_order(requests@.take(r as int), old(self)@),
                survivors(self@, old(self)@, deleted@),
            decreases requests@.len() - r,
        {
            let e = requests[r];
            proof {
                assert(requests@.take(r + 1).drop_last() =~= requests@.take(r as int));
                assert(requests@.take(r + 1).last() == e);
            }
            let ghost before = self@;
            let ghost before_deleted = deleted@;
            let was = self.delete_tile(e);
            proof {
                lemma_deleted_presence(self@, before, e, was);
                lemma_survivors_step(before, self@, old(self)@, before_deleted, e, was);
            }
            if was {
                proof {
                    assert(!before_deleted.contains(e)) by {
                        if before_deleted.contains(e) {
                            let m = choose|m: int| 0 <= m < before_deleted.len() && before_deleted[m] == e;
                            assert(!tile_present(before, before_deleted[m]));
                        }
                    }
                }
                deleted.push(e);
                proof {
                    assert(deleted@.last() == e);
                    assert forall|k: int| 0 <= k < deleted@.len() implies !tile_present(self@, #[trigger] deleted@[k]) by {
                        if k < deleted@.len() - 1 {
                            assert(deleted@[k] == before_deleted[k]);
                        }
                    }
                }
            }
            proof {
                assert(requests@.contains(e)) by { assert(requests@[r as int] == e); }
                assert forall|k: int|
                    0 <= k < r + 1 && tile_present(old(self)@, #[trigger] requests@[k])
                        implies deleted@.contains(requests@[k]) by {
                    if k == r {
                        if !was {
                            assert(!tile_present(before, e));
                            assert(before_deleted.contains(e));
                        }
                        assert(deleted@.contains(e));
                    } else {
                        let m = choose|m: int| 0 <= m < before_deleted.len() && before_deleted[m] == requests@[k];
                        assert(deleted@[m] == before_deleted[m]);
                    }
                }
                assert forall|u: u64| tile_present(old(self)@, u) && !deleted@.contains(u) implies tile_present(self@, u) by {
                    if before_deleted.contains(u) {
                        let m = choose|m: int| 0 <= m < before_deleted.len() && before_deleted[m] == u;
                        assert(deleted@[m] == before_deleted[m]);
                    }
                    if u == e && was {
                        assert(deleted@.last() == e);
                    }
                }
            }
            r = r + 1;
        }
        proof {
            assert(requests@.take(requests@.len() as int) =~= requests@);
        }
        deleted
    }

    /// Adds a tile that is unlinked, unoccupied, and neither eligible nor
    /// selected.
    pub fn add_tile(&mut self, entity: u64, tile_type: TileType)
        requires
            old(self).wf(),
            !tile_present(old(self)@, entity),
            !old(self).selected_view().contains(entity),
        ensures
            final(self).wf(),
            final(self)@.len() == old(self)@.len() + 1,
            final(self)@.drop_last() == old(self)@,
            final(self)@.last().entity == entity,
            final(self)@.last().selection@ == SelectionState::Neither,
            final(self)@.last().occupant is None,
            final(self)@.last().tile_type == tile_type,
            forall|d: int| 0 <= d < 6 ==> #[trigger] neighbour(final(self)@.last(), d) is None,
            final(self).selected_view() == old(self).selected_view(),
    {
        let tile = LogTile {
            entity,
            selection: TileSelectionStatus::new(),
            occupant: None,
            adjacents: AdjacentTiles([None, None, None, None, None, None]),
            tile_type,
        };
        self.tiles.push(tile);
        proof {
            let tiles = self.tiles@;
            assert(tiles.drop_last() =~= old(self)@);
            assert forall|i: int, d: int|
                0 <= i < tiles.len() && 0 <= d < 6 && (#[trigger] neighbour(
                    tiles[i],
                    d,
                )) is Some implies tile_present(tiles, neighbour(tiles[i], d)->0) by {
                let u = neighbour(tiles[i], d)->0;
                assert(i < old(self)@.len());
                assert(tiles[i] == old(self)@[i]);
                assert(tile_present(old(self)@, u));
                let k = choose|k: int| 0 <= k < old(self)@.len() && (#[trigger] old(self)@[k]).entity == u;
                assert(tiles[k] == old(self)@[k]);
            }
            assert forall|i: int, j: int, d: int|
                0 <= i < tiles.len() && 0 <= j < tiles.len() && 0 <= d < 6 && #[trigger] neighbour(
                    tiles[i],
                    d,
                ) == Some((#[trigger] tiles[j]).entity) implies neighbour(tiles[j], opposite(d))
                == Some(tiles[i].entity) by {
                if i == tiles.len() - 1 {
                } else if j == tiles.len() - 1 {
                    assert(tiles[i] == old(self)@[i]);
                    assert(tile_present(old(self)@, entity));
                } else {
                    assert(tiles[i] == old(self)@[i]);
                    assert(tiles[j] == old(self)@[j]);
                }
            }
            assert forall|i: int, j: int|
                0 <= i < tiles.len() && 0 <= j < tiles.len() && i != j implies (
                #[trigger] tiles[i]).entity != (#[trigger] tiles[j]).entity by {
                if i == tiles.len() - 1 {
                    assert(tiles[j] == old(self)@[j]);
                } else if j == tiles.len() - 1 {
                    assert(tiles[i] == old(self)@[i]);
                } else {
                    assert(tiles[i] == old(self)@[i]);
                    assert(tiles[j] == old(self)@[j]);
                }
            }
            let sel = self.selected@;
            assert forall|i: int, k: int|
                0 <= i < tiles.len() && 0 <= k < sel.len() && (#[trigger] sel[k]) == (
                #[trigger] tiles[i]).entity implies tiles[i].selection@ == SelectionState::Selected by {
                if i == tiles.len() - 1 {
                    assert(sel.contains(entity));
                } else {
                    assert(tiles[i] == old(self)@[i]);
                }
            }
            assert forall|i: int|
                0 <= i < tiles.len() && (#[trigger] tiles[i]).selection@ == SelectionState::Selected
                    implies sel.contains(tiles[i].entity) by {
                assert(tiles[i] == old(self)@[i]);
            }
        }
    }
}

} // verus!
