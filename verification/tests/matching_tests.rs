use hex_drop::grid::Grid;
use hex_drop::hex::HexCoordinate;
use hex_drop::matching::MatchDetector;
use hex_drop::token::Token;

fn grid_with(cells: &[(i32, i32, Token)]) -> Grid {
    let mut g: Grid = Grid::new();
    for (q, r, t) in cells.iter() {
        assert_eq!(g.insert(HexCoordinate::new(*q, *r), *t), Ok(None));
    }
    g
}

fn run_of(cells: &[(i32, i32)]) -> Vec<HexCoordinate> {
    cells.iter().map(|(q, r)| HexCoordinate::new(*q, *r)).collect()
}

#[test]
fn empty_grid_has_no_runs() {
    assert!(MatchDetector::find_runs(&Grid::new()).is_empty());
}

#[test]
fn two_in_a_row_is_no_run() {
    let g: Grid = grid_with(&[(0, 0, Token::Red), (1, 0, Token::Red), (2, 0, Token::Blue)]);
    assert!(MatchDetector::find_runs(&g).is_empty());
}

#[test]
fn run_along_a_row() {
    let g: Grid = grid_with(&[(1, 0, Token::Red), (2, 0, Token::Red), (3, 0, Token::Red)]);
    assert_eq!(MatchDetector::find_runs(&g), vec![run_of(&[(1, 0), (2, 0), (3, 0)])]);
}

#[test]
fn run_up_a_column() {
    let g: Grid = grid_with(&[(0, 0, Token::Red), (0, 1, Token::Red), (0, 2, Token::Red)]);
    assert_eq!(MatchDetector::find_runs(&g), vec![run_of(&[(0, 0), (0, 1), (0, 2)])]);
}

#[test]
fn run_along_the_third_axis() {
    let g: Grid = grid_with(&[(0, 2, Token::Blue), (1, 1, Token::Blue), (2, 0, Token::Blue)]);
    assert_eq!(MatchDetector::find_runs(&g), vec![run_of(&[(0, 2), (1, 1), (2, 0)])]);
}

#[test]
fn other_diagonal_is_no_axis() {
    let g: Grid = grid_with(&[(0, 0, Token::Blue), (1, 1, Token::Blue), (2, 2, Token::Blue)]);
    assert!(MatchDetector::find_runs(&g).is_empty());
}

#[test]
fn run_is_maximal()  {
    let g: Grid = grid_with(&[
        (2, 4, Token::Green),
        (3, 4, Token::Green),
        (4, 4, Token::Green),
        (5, 4, Token::Green),
        (6, 4, Token::Red),
    ]);
    assert_eq!(MatchDetector::find_runs(&g), vec![run_of(&[(2, 4), (3, 4), (4, 4), (5, 4)])]);
}

#[test]
fn gap_breaks_a_run() {
    let g: Grid = grid_with(&[
        (0, 0, Token::Red),
        (1, 0, Token::Red),
        (3, 0, Token::Red),
        (4, 0, Token::Red),
    ]);
    assert!(MatchDetector::find_runs(&g).is_empty());
}

#[test]
fn different_token_breaks_a_run() {
    let g: Grid = grid_with(&[
        (0, 0, Token::Red),
        (1, 0, Token::Red),
        (2, 0, Token::Blue),
        (3, 0, Token::Red),
        (4, 0, Token::Red),
    ]);
    assert!(MatchDetector::find_runs(&g).is_empty());
}

#[test]
fn runs_come_by_axis_then_column_then_row() {
    let g: Grid = grid_with(&[
        (5, 0, Token::Red),
        (5, 1, Token::Red),
        (5, 2, Token::Red),
        (0, 3, Token::Blue),
        (1, 3, Token::Blue),
        (2, 3, Token::Blue),
        (0, 1, Token::Green),
        (1, 1, Token::Green),
        (2, 1, Token::Green),
        (2, 6, Token::Yellow),
        (3, 5, Token::Yellow),
        (4, 4, Token::Yellow),
    ]);
    assert_eq!(
        MatchDetector::find_runs(&g),
        vec![
            run_of(&[(0, 1), (1, 1), (2, 1)]),
            run_of(&[(0, 3), (1, 3), (2, 3)]),
            run_of(&[(5, 0), (5, 1), (5, 2)]),
            run_of(&[(2, 6), (3, 5), (4, 4)]),
        ]
    );
}

#[test]
fn cell_can_belong_to_three_runs() {
    let g: Grid = grid_with(&[
        (2, 3, Token::Red),
        (3, 3, Token::Red),
        (4, 3, Token::Red),
        (3, 2, Token::Red),
        (3, 4, Token::Red),
        (2, 4, Token::Red),
        (4, 2, Token::Red),
    ]);
    let runs: Vec<Vec<HexCoordinate>> = MatchDetector::find_runs(&g);
    assert_eq!(
        runs,
        vec![
            run_of(&[(2, 3), (3, 3), (4, 3)]),
            run_of(&[(3, 2), (3, 3), (3, 4)]),
            run_of(&[(2, 4), (3, 3), (4, 2)]),
        ]
    );
    let centre: HexCoordinate = HexCoordinate::new(3, 3);
    assert_eq!(runs.iter().filter(|r| r.contains(&centre)).count(), 3);
}

#[test]
fn run_to_the_edge_of_the_board() {
    let g: Grid = grid_with(&[(5, 11, Token::Red), (6, 11, Token::Red), (7, 11, Token::Red)]);
    assert_eq!(MatchDetector::find_runs(&g), vec![run_of(&[(5, 11), (6, 11), (7, 11)])]);
    let h: Grid = grid_with(&[(7, 9, Token::Red), (7, 10, Token::Red), (7, 11, Token::Red)]);
    assert_eq!(MatchDetector::find_runs(&h), vec![run_of(&[(7, 9), (7, 10), (7, 11)])]);
}

#[test]
fn full_column_is_one_run() {
    let mut g: Grid = Grid::new();
    let mut r: i32 = 0;
    let mut cells: Vec<HexCoordinate> = Vec::new();
    while r < 12 {
        let _ = g.insert(HexCoordinate::new(3, r), Token::Purple);
        cells.push(HexCoordinate::new(3, r));
        r += 1;
    }
    assert_eq!(MatchDetector::find_runs(&g), vec![cells]);
}
