use hex_drop::grid::Grid;
use hex_drop::hex::HexCoordinate;
use hex_drop::settling::{advance_entries, SettlingEntry, PROGRESS_FULL};
use hex_drop::support::SupportResolver;
use hex_drop::token::Token;

fn grid_of(cells: &[(i32, i32, Token)]) -> Grid {
    let mut g: Grid = Grid::new();
    for (q, r, t) in cells.iter() {
        assert_eq!(g.insert(HexCoordinate::new(*q, *r), *t), Ok(None));
    }
    g
}

fn same(a: &Grid, b: &Grid) -> bool {
    let mut q: i32 = 0;
    while q < 8 {
        let mut r: i32 = 0;
        while r < 12 {
            if a.get(HexCoordinate::new(q, r)) != b.get(HexCoordinate::new(q, r)) {
                return false;
            }
            r += 1;
        }
        q += 1;
    }
    true
}

#[test]
fn bottom_row_is_supported() {
    let g: Grid = grid_of(&[(3, 0, Token::Red)]);
    assert!(SupportResolver::is_supported(&g, HexCoordinate::new(3, 0)));
    assert!(SupportResolver::find_unsupported(&g).is_empty());
}

#[test]
fn support_comes_from_either_cell_below() {
    let g: Grid = grid_of(&[(3, 0, Token::Red), (3, 1, Token::Blue), (2, 1, Token::Green)]);
    assert!(SupportResolver::is_supported(&g, HexCoordinate::new(3, 1)));
    assert!(SupportResolver::is_supported(&g, HexCoordinate::new(2, 1)));
    assert!(!SupportResolver::is_supported(&g, HexCoordinate::new(4, 1)));
    assert!(!SupportResolver::is_supported(&g, HexCoordinate::new(1, 1)));
    assert!(SupportResolver::find_unsupported(&g).is_empty());
}

#[test]
fn is_supported_at_the_ends_of_the_coordinate_range() {
    let g: Grid = Grid::new();
    assert!(!SupportResolver::is_supported(&g, HexCoordinate::new(0, i32::MIN)));
    assert!(!SupportResolver::is_supported(&g, HexCoordinate::new(i32::MAX, 5)));
    assert!(SupportResolver::is_supported(&g, HexCoordinate::new(i32::MAX, 0)));
}

#[test]
fn find_unsupported_lists_in_canonical_order() {
    let g: Grid = grid_of(&[
        (5, 3, Token::Red),
        (1, 7, Token::Blue),
        (1, 2, Token::Green),
        (0, 0, Token::Green),
        (7, 1, Token::Green),
    ]);
    assert_eq!(
        SupportResolver::find_unsupported(&g),
        vec![
            HexCoordinate::new(1, 2),
            HexCoordinate::new(1, 7),
            HexCoordinate::new(5, 3),
            HexCoordinate::new(7, 1)
        ]
    );
}

#[test]
fn right_edge_has_only_one_cell_below() {
    let g: Grid = grid_of(&[(7, 1, Token::Red), (6, 1, Token::Blue), (7, 0, Token::Green)]);
    assert!(SupportResolver::find_unsupported(&g).is_empty());
    let h: Grid = grid_of(&[(7, 1, Token::Red)]);
    assert_eq!(SupportResolver::find_unsupported(&h), vec![HexCoordinate::new(7, 1)]);
}

#[test]
fn resolve_step_moves_one_row_down() {
    let mut g: Grid = grid_of(&[(2, 5, Token::Red)]);
    let moves: Vec<SettlingEntry> = SupportResolver::resolve_step(&mut g);
    assert_eq!(
        moves,
        vec![SettlingEntry { from: HexCoordinate::new(2, 5), to: HexCoordinate::new(2, 4), progress: 0 }]
    );
    assert!(same(&g, &grid_of(&[(2, 4, Token::Red)])));
}

#[test]
fn resolve_step_judges_on_the_grid_before_the_pass() {
    let mut g: Grid = grid_of(&[(0, 5, Token::Red), (0, 6, Token::Green), (0, 7, Token::Blue)]);
    let moves: Vec<SettlingEntry> = SupportResolver::resolve_step(&mut g);
    assert_eq!(moves.len(), 1);
    assert!(same(&g, &grid_of(&[(0, 4, Token::Red), (0, 6, Token::Green), (0, 7, Token::Blue)])));
    let moves: Vec<SettlingEntry> = SupportResolver::resolve_step(&mut g);
    assert_eq!(moves.len(), 2);
    assert_eq!(moves[0].from, HexCoordinate::new(0, 4));
    assert_eq!(moves[1].from, HexCoordinate::new(0, 6));
    assert_eq!(moves[1].to, HexCoordinate::new(0, 5));
    assert!(same(&g, &grid_of(&[(0, 3, Token::Red), (0, 5, Token::Green), (0, 7, Token::Blue)])));
}

#[test]
fn resolve_step_on_a_stable_grid_changes_nothing() {
    let start: Grid = grid_of(&[(0, 0, Token::Red), (0, 1, Token::Red), (1, 0, Token::Blue), (0, 2, Token::Green)]);
    let mut g: Grid = start;
    assert!(SupportResolver::resolve_step(&mut g).is_empty());
    assert!(same(&g, &start));
}

#[test]
fn token_held_from_the_side_falls_when_its_support_does() {
    let mut g: Grid = grid_of(&[(3, 5, Token::Red), (4, 4, Token::Blue)]);
    assert_eq!(SupportResolver::resolve_step(&mut g).len(), 1);
    assert!(same(&g, &grid_of(&[(3, 5, Token::Red), (4, 3, Token::Blue)])));
    assert_eq!(SupportResolver::resolve_step(&mut g).len(), 2);
    assert!(same(&g, &grid_of(&[(3, 4, Token::Red), (4, 2, Token::Blue)])));
    let passes: usize = SupportResolver::settle(&mut g);
    assert_eq!(passes, 3);
    assert!(same(&g, &grid_of(&[(3, 1, Token::Red), (4, 0, Token::Blue)])));
}

#[test]
fn settle_reaches_a_fixpoint_without_unsupported_tokens() {
    let mut g: Grid = grid_of(&[(0, 5, Token::Red), (0, 6, Token::Green), (0, 7, Token::Blue)]);
    let passes: usize = SupportResolver::settle(&mut g);
    assert_eq!(passes, 7);
    assert!(same(&g, &grid_of(&[(0, 0, Token::Red), (0, 1, Token::Green), (0, 2, Token::Blue)])));
    assert!(SupportResolver::find_unsupported(&g).is_empty());
    let again: Grid = g;
    assert!(SupportResolver::resolve_step(&mut g).is_empty());
    assert!(same(&g, &again));
}

#[test]
fn settle_keeps_every_token() {
    let mut g: Grid = grid_of(&[
        (0, 11, Token::Red),
        (1, 10, Token::Green),
        (2, 9, Token::Blue),
        (3, 3, Token::Yellow),
        (7, 11, Token::Purple),
        (7, 4, Token::Red),
        (6, 5, Token::Red),
    ]);
    let _ = SupportResolver::settle(&mut g);
    assert_eq!(g.len(), 7);
    assert!(SupportResolver::find_unsupported(&g).is_empty());
    assert_eq!(g.get(HexCoordinate::new(7, 0)), Some(Token::Red));
    assert_eq!(g.get(HexCoordinate::new(7, 1)), Some(Token::Purple));
    assert_eq!(g.get(HexCoordinate::new(6, 1)), Some(Token::Red));
}

#[test]
fn settle_on_a_stable_grid_takes_no_pass() {
    let mut g: Grid = grid_of(&[(0, 0, Token::Red), (0, 1, Token::Red), (0, 2, Token::Red)]);
    assert_eq!(SupportResolver::settle(&mut g), 0);
    assert_eq!(g.len(), 3);
}

#[test]
fn column_stack_is_supported_without_forced_movement() {
    let start: Grid = grid_of(&[(0, 0, Token::Red), (0, 1, Token::Red), (0, 2, Token::Red)]);
    let mut g: Grid = start;
    assert!(SupportResolver::find_unsupported(&g).is_empty());
    assert!(SupportResolver::resolve_step(&mut g).is_empty());
    assert!(same(&g, &start));
}

#[test]
fn settling_entry_advances_to_its_target() {
    let mut e: SettlingEntry = SettlingEntry::new(HexCoordinate::new(1, 2), HexCoordinate::new(1, 1));
    assert_eq!(e.progress, 0);
    assert!(!e.is_complete());
    e.advance(400);
    assert_eq!(e.progress, 400);
    e.advance(599);
    assert_eq!(e.progress, 999);
    assert!(!e.is_complete());
    e.advance(5);
    assert_eq!(e.progress, PROGRESS_FULL);
    assert!(e.is_complete());
    e.advance(u32::MAX);
    assert_eq!(e.progress, 1000);
}

#[test]
fn advance_entries_discards_arrivals() {
    let a: SettlingEntry = SettlingEntry { from: HexCoordinate::new(0, 3), to: HexCoordinate::new(0, 2), progress: 0 };
    let b: SettlingEntry = SettlingEntry { from: HexCoordinate::new(1, 3), to: HexCoordinate::new(1, 2), progress: 700 };
    let c: SettlingEntry = SettlingEntry { from: HexCoordinate::new(2, 3), to: HexCoordinate::new(2, 2), progress: 100 };
    let kept: Vec<SettlingEntry> = advance_entries(&vec![a, b, c], 300);
    assert_eq!(
        kept,
        vec![
            SettlingEntry { from: HexCoordinate::new(0, 3), to: HexCoordinate::new(0, 2), progress: 300 },
            SettlingEntry { from: HexCoordinate::new(2, 3), to: HexCoordinate::new(2, 2), progress: 400 }
        ]
    );
    assert!(advance_entries(&kept, 1000).is_empty());
}

#[test]
fn settling_can_take_more_passes_than_the_board_has_rows() {
    let cells: [(i32, i32); 42] = [
        (0, 2), (0, 6), (0, 8), (0, 9), (0, 10), (0, 11), (1, 1), (1, 2), (1, 4), (1, 9), (1, 11),
        (2, 1), (2, 3), (2, 6), (2, 9), (2, 11), (3, 1), (3, 5), (3, 6), (3, 7), (3, 10), (3, 11),
        (4, 2), (4, 4), (4, 5), (4, 7), (4, 8), (4, 9), (4, 10), (5, 2), (5, 3), (5, 7), (5, 8),
        (6, 3), (6, 5), (6, 7), (6, 9), (6, 11), (7, 4), (7, 7), (7, 9), (7, 11),
    ];
    let mut g: Grid = Grid::new();
    let mut rows: usize = 0;
    for (q, r) in cells.iter() {
        assert_eq!(g.insert(HexCoordinate::new(*q, *r), Token::Red), Ok(None));
        rows += *r as usize;
    }
    let passes: usize = SupportResolver::settle(&mut g);
    assert_eq!(passes, 14);
    assert!(passes <= rows);
    assert_eq!(g.len(), 42);
    assert!(SupportResolver::find_unsupported(&g).is_empty());
}
