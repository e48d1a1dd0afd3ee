use hexlog::setup::{board_depth, spawn_tiles, BoardSize};
use hexlog::tiles::{Board, SelectOutcome, SelectionState, TileType};

/// A row of tiles 1 - 2 - 3 linked in direction 0 (and 3 back).
fn row() -> Board {
    let mut b = Board::new();
    spawn_tiles(&mut b, &vec![1, 2, 3]);
    b.link(1, 0, 2);
    b.link(2, 0, 3);
    b
}

fn state(b: &Board, e: u64) -> SelectionState {
    let i = b.find(e).unwrap();
    b.tiles()[i].selection.read()
}

#[test]
fn depth_per_board_size() {
    assert_eq!(board_depth(BoardSize::Small), 4);
    assert_eq!(board_depth(BoardSize::Medium), 5);
    assert_eq!(board_depth(BoardSize::Large), 6);
    assert_eq!(board_depth(BoardSize::ExtraLarge), 10);
}

#[test]
fn new_tiles_are_plain() {
    let b = row();
    assert_eq!(b.tiles().len(), 3);
    for t in b.tiles() {
        assert_eq!(t.tile_type, TileType::Basic);
        assert_eq!(t.selection.read(), SelectionState::Neither);
        assert!(t.occupant.is_none());
    }
    let two = b.find(2).unwrap();
    assert_eq!(b.tiles()[two].adjacents.0, [Some(3), None, None, Some(1), None, None]);
}

#[test]
fn only_eligible_tiles_get_selected() {
    let mut b = row();
    assert_eq!(b.select_tile(1), SelectOutcome::NotEligible);
    assert_eq!(b.select_tile(77), SelectOutcome::NotATile);
    b.make_eligible_at(0);
    assert_eq!(b.select_tile(1), SelectOutcome::Selected);
    assert_eq!(state(&b, 1), SelectionState::Selected);
    assert_eq!(b.selected().as_read_only_list(), &vec![1]);
    assert_eq!(b.select_tile(1), SelectOutcome::NotEligible);
    assert_eq!(b.selected().as_read_only_list(), &vec![1]);
}

#[test]
fn selected_tiles_resist_eligibility_changes() {
    let mut b = row();
    b.make_eligible_at(0);
    b.select_tile(1);
    b.make_ineligible_at(0);
    assert_eq!(state(&b, 1), SelectionState::Selected);
    b.make_eligible_at(0);
    assert_eq!(state(&b, 1), SelectionState::Selected);
    b.make_eligible_at(1);
    assert_eq!(state(&b, 2), SelectionState::Eligible);
    b.make_ineligible_at(1);
    assert_eq!(state(&b, 2), SelectionState::Neither);
}

#[test]
fn reset_clears_everything() {
    let mut b = row();
    b.make_eligible_at(0);
    b.make_eligible_at(2);
    b.select_tile(1);
    b.reset_selection();
    assert!(b.selected().as_read_only_list().is_empty());
    for e in [1, 2, 3] {
        assert_eq!(state(&b, e), SelectionState::Neither);
    }
}

#[test]
fn deleting_a_tile_cuts_its_links() {
    let mut b = row();
    assert!(b.delete_tile(2));
    assert_eq!(b.tiles().len(), 2);
    assert!(b.find(2).is_none());
    let one = b.find(1).unwrap();
    let three = b.find(3).unwrap();
    assert_eq!(b.tiles()[one].adjacents.0, [None; 6]);
    assert_eq!(b.tiles()[three].adjacents.0, [None; 6]);
    assert!(!b.delete_tile(2));
}

#[test]
fn deleting_several_tiles() {
    let mut b = row();
    let deleted = b.delete_tiles(&vec![3, 9, 1]);
    assert_eq!(deleted, vec![3, 1]);
    assert_eq!(b.tiles().len(), 1);
    assert_eq!(b.tiles()[0].entity, 2);
    assert_eq!(b.tiles()[0].adjacents.0, [None; 6]);
}

#[test]
fn occupants_are_recorded() {
    let mut b = row();
    b.set_occupant(2, Some(100));
    let two = b.find(2).unwrap();
    assert_eq!(b.tiles()[two].occupant, Some(100));
    b.set_occupant(2, None);
    assert_eq!(b.tiles()[two].occupant, None);
}

#[test]
fn repeated_deletions_count_once() {
    let mut b = row();
    let deleted = b.delete_tiles(&vec![2, 2, 1, 2]);
    assert_eq!(deleted, vec![2, 1]);
    assert_eq!(b.tiles().len(), 1);
    assert_eq!(b.tiles()[0].entity, 3);
    assert_eq!(b.tiles()[0].adjacents.0, [None; 6]);
}

#[test]
fn surviving_tiles_keep_their_state() {
    let mut b = row();
    b.set_occupant(1, Some(100));
    b.make_eligible_at(0);
    assert_eq!(b.select_tile(1), SelectOutcome::Selected);
    let deleted = b.delete_tiles(&vec![2]);
    assert_eq!(deleted, vec![2]);
    assert_eq!(b.tiles().len(), 2);
    assert_eq!(b.tiles()[0].entity, 1);
    assert_eq!(b.tiles()[0].occupant, Some(100));
    assert_eq!(b.tiles()[0].selection.read(), SelectionState::Selected);
    assert_eq!(b.tiles()[0].adjacents.0, [None; 6]);
    assert_eq!(b.tiles()[1].entity, 3);
}
