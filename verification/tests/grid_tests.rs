use hex_drop::grid::{coordinate_of_slot, Grid, GridError, CELLS};
use hex_drop::hex::HexCoordinate;
use hex_drop::token::Token;

#[test]
fn new_grid_is_empty() {
    let g: Grid = Grid::new();
    assert!(g.is_empty());
    assert_eq!(g.len(), 0);
    assert_eq!(g.get(HexCoordinate::new(0, 0)), None);
    assert!(!g.is_occupied(HexCoordinate::new(7, 11)));
}

#[test]
fn insert_then_get() {
    let mut g: Grid = Grid::new();
    assert_eq!(g.insert(HexCoordinate::new(2, 3), Token::Blue), Ok(None));
    assert_eq!(g.get(HexCoordinate::new(2, 3)), Some(Token::Blue));
    assert_eq!(g.get(HexCoordinate::new(3, 2)), None);
    assert!(g.is_occupied(HexCoordinate::new(2, 3)));
    assert_eq!(g.len(), 1);
    assert!(!g.is_empty());
}

#[test]
fn insert_replaces_and_returns_previous() {
    let mut g: Grid = Grid::new();
    assert_eq!(g.insert(HexCoordinate::new(2, 3), Token::Blue), Ok(None));
    assert_eq!(g.insert(HexCoordinate::new(2, 3), Token::Red), Ok(Some(Token::Blue)));
    assert_eq!(g.get(HexCoordinate::new(2, 3)), Some(Token::Red));
    assert_eq!(g.len(), 1);
}

#[test]
fn insert_off_the_board_is_refused() {
    let mut g: Grid = Grid::new();
    assert_eq!(g.insert(HexCoordinate::new(8, 0), Token::Red), Err(GridError::InvalidCoordinate));
    assert_eq!(g.insert(HexCoordinate::new(0, 12), Token::Red), Err(GridError::InvalidCoordinate));
    assert_eq!(g.insert(HexCoordinate::new(-1, 5), Token::Red), Err(GridError::InvalidCoordinate));
    assert_eq!(g.insert(HexCoordinate::new(5, -1), Token::Red), Err(GridError::InvalidCoordinate));
    assert!(g.is_empty());
}

#[test]
fn remove_returns_the_token() {
    let mut g: Grid = Grid::new();
    let _ = g.insert(HexCoordinate::new(1, 1), Token::Green);
    let _ = g.insert(HexCoordinate::new(1, 2), Token::Yellow);
    assert_eq!(g.remove(HexCoordinate::new(1, 1)), Some(Token::Green));
    assert_eq!(g.remove(HexCoordinate::new(1, 1)), None);
    assert_eq!(g.get(HexCoordinate::new(1, 2)), Some(Token::Yellow));
    assert_eq!(g.len(), 1);
}

#[test]
fn remove_off_the_board_changes_nothing() {
    let mut g: Grid = Grid::new();
    let _ = g.insert(HexCoordinate::new(0, 0), Token::Green);
    assert_eq!(g.remove(HexCoordinate::new(-1, 0)), None);
    assert_eq!(g.remove(HexCoordinate::new(0, 12)), None);
    assert_eq!(g.len(), 1);
}

#[test]
fn neighbouring_cells_do_not_alias() {
    let mut g: Grid = Grid::new();
    let _ = g.insert(HexCoordinate::new(0, 11), Token::Red);
    assert_eq!(g.get(HexCoordinate::new(1, 0)), None);
    assert_eq!(g.get(HexCoordinate::new(1, -1)), None);
    let _ = g.insert(HexCoordinate::new(1, 0), Token::Blue);
    assert_eq!(g.get(HexCoordinate::new(0, 11)), Some(Token::Red));
    assert_eq!(g.get(HexCoordinate::new(0, 12)), None);
}

#[test]
fn full_board_holds_every_cell() {
    let mut g: Grid = Grid::new();
    let mut i: usize = 0;
    while i < CELLS {
        let c: HexCoordinate = coordinate_of_slot(i);
        assert!(c.is_valid());
        assert_eq!(g.insert(c, Token::from_index(i as u32)), Ok(None));
        i += 1;
    }
    assert_eq!(g.len(), 96);
    assert_eq!(g.get(HexCoordinate::new(7, 11)), Some(Token::from_index(95)));
}

#[test]
fn slots_run_up_the_columns() {
    assert_eq!(coordinate_of_slot(0), HexCoordinate::new(0, 0));
    assert_eq!(coordinate_of_slot(1), HexCoordinate::new(0, 1));
    assert_eq!(coordinate_of_slot(11), HexCoordinate::new(0, 11));
    assert_eq!(coordinate_of_slot(12), HexCoordinate::new(1, 0));
    assert_eq!(coordinate_of_slot(95), HexCoordinate::new(7, 11));
}

#[test]
fn occupied_cells_lists_in_canonical_order() {
    let mut g: Grid = Grid::new();
    assert!(g.occupied_cells().is_empty());
    let _ = g.insert(HexCoordinate::new(5, 2), Token::Blue);
    let _ = g.insert(HexCoordinate::new(0, 7), Token::Red);
    let _ = g.insert(HexCoordinate::new(5, 1), Token::Green);
    let _ = g.insert(HexCoordinate::new(0, 0), Token::Yellow);
    assert_eq!(
        g.occupied_cells(),
        vec![
            (HexCoordinate::new(0, 0), Token::Yellow),
            (HexCoordinate::new(0, 7), Token::Red),
            (HexCoordinate::new(5, 1), Token::Green),
            (HexCoordinate::new(5, 2), Token::Blue),
        ]
    );
}
