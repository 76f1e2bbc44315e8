use hex_drop::grid::Grid;
use hex_drop::hex::HexCoordinate;
use hex_drop::piece::{
    descend, has_room, height_row, place_on_stack, stack_height, Command, FallingPiece,
    FallingPieceController, PieceState, SpawnError, SOFT_DROP_FACTOR, SPAWN_COLUMN, SPAWN_ROW, UNIT,
};
use hex_drop::token::Token;

const TOKENS: [Token; 3] = [Token::Red, Token::Green, Token::Blue];

fn filled(cells: &[(i32, i32, Token)]) -> Grid {
    let mut g: Grid = Grid::new();
    for (q, r, t) in cells.iter() {
        assert_eq!(g.insert(HexCoordinate::new(*q, *r), *t), Ok(None));
    }
    g
}

fn falling(c: &FallingPieceController) -> FallingPiece {
    match c.state {
        PieceState::Falling(p) => p,
        _ => panic!("no falling piece"),
    }
}

fn landing(c: &FallingPieceController) -> FallingPiece {
    match c.state {
        PieceState::Landing(p) => p,
        _ => panic!("no landing piece"),
    }
}

fn spawned_on(grid: &Grid, speed: u32) -> FallingPieceController {
    let mut c: FallingPieceController = FallingPieceController::new();
    assert_eq!(c.spawn(TOKENS, speed, grid), Ok(()));
    c
}

#[test]
fn constants_of_the_piece() {
    assert_eq!(UNIT, 1_000_000);
    assert_eq!(SPAWN_COLUMN, 4);
    assert_eq!(SPAWN_ROW, 9);
    assert_eq!(SOFT_DROP_FACTOR, 4);
}

#[test]
fn height_row_rounds_down() {
    assert_eq!(height_row(0), 0);
    assert_eq!(height_row(999_999), 0);
    assert_eq!(height_row(1_000_000), 1);
    assert_eq!(height_row(8_500_000), 8);
    assert_eq!(height_row(-1), -1);
    assert_eq!(height_row(-1_000_000), -1);
    assert_eq!(height_row(-1_000_001), -2);
    assert_eq!(height_row(i64::MIN), -9_223_372_036_855);
    assert_eq!(height_row(i64::MAX), 9_223_372_036_854);
}

#[test]
fn new_controller_is_empty() {
    let c: FallingPieceController = FallingPieceController::new();
    assert_eq!(c.state, PieceState::Empty);
    assert!(!c.soft_drop);
    assert!(!c.has_piece());
}

#[test]
fn spawn_places_the_piece_above_the_playable_rows() {
    let c: FallingPieceController = spawned_on(&Grid::new(), 1000);
    assert!(c.has_piece());
    let p: FallingPiece = falling(&c);
    assert_eq!(p.tokens, TOKENS);
    assert_eq!(p.column, 4);
    assert_eq!(p.height, 9_000_000);
    assert_eq!(p.arrangement, 0);
    assert_eq!(p.fall_speed, 1000);
    assert_eq!(p.row_index(), 9);
    assert_eq!(p.cell_of(0), Some(HexCoordinate::new(4, 9)));
    assert_eq!(p.cell_of(1), Some(HexCoordinate::new(4, 10)));
    assert_eq!(p.cell_of(2), Some(HexCoordinate::new(4, 11)));
}

#[test]
fn spawn_is_blocked_by_any_occupied_spawn_cell() {
    for r in 9..12 {
        let g: Grid = filled(&[(4, r, Token::Yellow)]);
        let mut c: FallingPieceController = FallingPieceController::new();
        assert_eq!(c.spawn(TOKENS, 1000, &g), Err(SpawnError::SpawnBlocked));
        assert_eq!(c.state, PieceState::Empty);
    }
    let g: Grid = filled(&[(4, 8, Token::Yellow), (3, 9, Token::Yellow), (5, 10, Token::Yellow)]);
    let mut c: FallingPieceController = FallingPieceController::new();
    assert_eq!(c.spawn(TOKENS, 1000, &g), Ok(()));
}

#[test]
fn move_left_is_rejected_at_the_left_edge() {
    let g: Grid = Grid::new();
    let mut c: FallingPieceController = spawned_on(&g, 1000);
    for expected in [3, 2, 1, 0] {
        c.apply_command(Command::MoveLeft, &g);
        assert_eq!(falling(&c).column, expected);
    }
    let before: FallingPieceController = c;
    c.apply_command(Command::MoveLeft, &g);
    assert_eq!(falling(&c).column, 0);
    assert_eq!(c, before);
}

#[test]
fn move_right_is_rejected_at_the_right_edge() {
    let g: Grid = Grid::new();
    let mut c: FallingPieceController = spawned_on(&g, 1000);
    for expected in [5, 6, 7, 7, 7] {
        c.apply_command(Command::MoveRight, &g);
        assert_eq!(falling(&c).column, expected);
    }
}

#[test]
fn move_into_an_occupied_cell_is_rejected() {
    let g: Grid = filled(&[(3, 10, Token::Yellow), (5, 11, Token::Yellow)]);
    let mut c: FallingPieceController = spawned_on(&g, 1000);
    c.apply_command(Command::MoveLeft, &g);
    assert_eq!(falling(&c).column, 4);
    c.apply_command(Command::MoveRight, &g);
    assert_eq!(falling(&c).column, 4);
    assert_eq!(falling(&c).height, 9_000_000);
}

#[test]
fn cycle_arrangement_moves_tokens_through_the_stack() {
    let g: Grid = Grid::new();
    let mut c: FallingPieceController = spawned_on(&g, 1000);
    let p0: FallingPiece = falling(&c);
    assert_eq!([p0.token_at(0), p0.token_at(1), p0.token_at(2)], [Token::Red, Token::Green, Token::Blue]);
    c.apply_command(Command::CycleArrangement, &g);
    let p1: FallingPiece = falling(&c);
    assert_eq!(p1.arrangement, 1);
    assert_eq!(p1.tokens, TOKENS);
    assert_eq!([p1.token_at(0), p1.token_at(1), p1.token_at(2)], [Token::Blue, Token::Red, Token::Green]);
    assert_eq!(p1.cell_of(0), Some(HexCoordinate::new(4, 10)));
    assert_eq!(p1.cell_of(1), Some(HexCoordinate::new(4, 11)));
    assert_eq!(p1.cell_of(2), Some(HexCoordinate::new(4, 9)));
    c.apply_command(Command::CycleArrangement, &g);
    let p2: FallingPiece = falling(&c);
    assert_eq!(p2.arrangement, 2);
    assert_eq!([p2.token_at(0), p2.token_at(1), p2.token_at(2)], [Token::Green, Token::Blue, Token::Red]);
    c.apply_command(Command::CycleArrangement, &g);
    assert_eq!(falling(&c), p0);
}

#[test]
fn advance_lowers_the_piece_by_speed_times_time() {
    let g: Grid = Grid::new();
    let mut c: FallingPieceController = spawned_on(&g, 1000);
    c.advance(500, &g);
    assert_eq!(falling(&c).height, 8_500_000);
    assert_eq!(falling(&c).row_index(), 8);
    c.advance(1, &g);
    assert_eq!(falling(&c).height, 8_499_000);
    c.advance(0, &g);
    assert_eq!(falling(&c).height, 8_499_000);
}

#[test]
fn soft_drop_speeds_up_one_advance() {
    let g: Grid = Grid::new();
    let mut c: FallingPieceController = spawned_on(&g, 1000);
    c.apply_command(Command::SoftDrop, &g);
    assert!(c.soft_drop);
    c.advance(500, &g);
    assert_eq!(falling(&c).height, 7_000_000);
    assert!(!c.soft_drop);
    c.advance(500, &g);
    assert_eq!(falling(&c).height, 6_500_000);
}

#[test]
fn piece_lands_on_the_bottom_row() {
    let g: Grid = Grid::new();
    let mut c: FallingPieceController = spawned_on(&g, 1000);
    c.advance(8_999, &g);
    assert_eq!(falling(&c).height, 1_000);
    c.advance(1, &g);
    assert_eq!(falling(&c).height, 0);
    c.advance(1, &g);
    assert_eq!(landing(&c).height, 0);
    assert_eq!(landing(&c).column, 4);
}

#[test]
fn piece_lands_on_top_of_a_stack() {
    let g: Grid = filled(&[(4, 0, Token::Yellow), (4, 1, Token::Purple)]);
    let mut c: FallingPieceController = spawned_on(&g, 1000);
    c.advance(7_500, &g);
    assert_eq!(landing(&c).height, 2_000_000);
}

#[test]
fn long_tick_does_not_pass_through_tokens() {
    let g: Grid = filled(&[(4, 5, Token::Yellow)]);
    let mut c: FallingPieceController = spawned_on(&g, u32::MAX);
    c.advance(u32::MAX, &g);
    assert_eq!(landing(&c).height, 6_000_000);
}

#[test]
fn commands_without_a_falling_piece_change_nothing() {
    let g: Grid = Grid::new();
    let mut c: FallingPieceController = FallingPieceController::new();
    for cmd in [Command::MoveLeft, Command::MoveRight, Command::CycleArrangement, Command::SoftDrop, Command::HardDrop] {
        c.apply_command(cmd, &g);
        assert_eq!(c, FallingPieceController::new());
    }
    c.advance(1000, &g);
    assert_eq!(c, FallingPieceController::new());
}

#[test]
fn hard_drop_lands_at_once() {
    let g: Grid = filled(&[(4, 0, Token::Yellow)]);
    let mut c: FallingPieceController = spawned_on(&g, 1000);
    c.advance(300, &g);
    c.apply_command(Command::HardDrop, &g);
    assert_eq!(landing(&c).height, 1_000_000);
    let held: FallingPieceController = c;
    c.apply_command(Command::MoveLeft, &g);
    c.apply_command(Command::CycleArrangement, &g);
    c.advance(1000, &g);
    assert_eq!(c, held);
}

#[test]
fn apply_commands_takes_them_in_order() {
    let g: Grid = Grid::new();
    let mut c: FallingPieceController = spawned_on(&g, 1000);
    c.apply_commands(&vec![Command::MoveLeft, Command::MoveLeft, Command::CycleArrangement, Command::MoveRight, Command::SoftDrop], &g);
    let p: FallingPiece = falling(&c);
    assert_eq!(p.column, 3);
    assert_eq!(p.arrangement, 1);
    assert!(c.soft_drop);
    c.apply_commands(&vec![Command::HardDrop, Command::MoveLeft], &g);
    assert_eq!(landing(&c).column, 3);
    assert_eq!(landing(&c).height, 0);
}

#[test]
fn landing_writes_each_token_to_its_cell() {
    let mut g: Grid = filled(&[(4, 0, Token::Yellow)]);
    let mut c: FallingPieceController = spawned_on(&g, 1000);
    c.apply_command(Command::CycleArrangement, &g);
    c.apply_command(Command::HardDrop, &g);
    assert!(c.resolve_landing(&mut g));
    assert_eq!(c.state, PieceState::Empty);
    assert_eq!(g.len(), 4);
    assert_eq!(g.get(HexCoordinate::new(4, 1)), Some(Token::Blue));
    assert_eq!(g.get(HexCoordinate::new(4, 2)), Some(Token::Red));
    assert_eq!(g.get(HexCoordinate::new(4, 3)), Some(Token::Green));
}

#[test]
fn resolve_landing_needs_a_landing_piece() {
    let mut g: Grid = Grid::new();
    let mut c: FallingPieceController = FallingPieceController::new();
    assert!(!c.resolve_landing(&mut g));
    let mut d: FallingPieceController = spawned_on(&g, 1000);
    assert!(!d.resolve_landing(&mut g));
    assert!(g.is_empty());
    assert!(d.has_piece());
}

#[test]
fn lock_stacks_on_the_column_when_a_cell_is_off_the_board() {
    let mut g: Grid = filled(&[(2, 0, Token::Yellow), (2, 1, Token::Purple)]);
    let p: FallingPiece = FallingPiece { tokens: TOKENS, column: 2, height: 11_000_000, arrangement: 0, fall_speed: 1 };
    p.lock(&mut g);
    assert_eq!(g.len(), 5);
    assert_eq!(g.get(HexCoordinate::new(2, 2)), Some(Token::Red));
    assert_eq!(g.get(HexCoordinate::new(2, 3)), Some(Token::Green));
    assert_eq!(g.get(HexCoordinate::new(2, 4)), Some(Token::Blue));
    assert_eq!(g.get(HexCoordinate::new(2, 11)), None);
}

#[test]
fn lock_stacks_on_the_column_when_a_cell_is_occupied() {
    let mut g: Grid = filled(&[(2, 1, Token::Purple)]);
    let p: FallingPiece = FallingPiece { tokens: TOKENS, column: 2, height: 0, arrangement: 2, fall_speed: 1 };
    p.lock(&mut g);
    assert_eq!(g.len(), 4);
    assert_eq!(g.get(HexCoordinate::new(2, 0)), None);
    assert_eq!(g.get(HexCoordinate::new(2, 1)), Some(Token::Purple));
    assert_eq!(g.get(HexCoordinate::new(2, 2)), Some(Token::Green));
    assert_eq!(g.get(HexCoordinate::new(2, 3)), Some(Token::Blue));
    assert_eq!(g.get(HexCoordinate::new(2, 4)), Some(Token::Red));
}

#[test]
fn lock_drops_tokens_for_which_the_column_has_no_room() {
    let mut g: Grid = filled(&[(6, 10, Token::Purple)]);
    let p: FallingPiece = FallingPiece { tokens: TOKENS, column: 6, height: 9_000_000, arrangement: 0, fall_speed: 1 };
    p.lock(&mut g);
    assert_eq!(g.len(), 2);
    assert_eq!(g.get(HexCoordinate::new(6, 11)), Some(Token::Red));
    assert_eq!(g.get(HexCoordinate::new(6, 9)), None);
}

#[test]
fn lock_in_a_column_off_the_board_changes_nothing() {
    let mut g: Grid = filled(&[(0, 0, Token::Purple)]);
    for column in [-1, 8, i32::MIN, i32::MAX] {
        let p: FallingPiece = FallingPiece { tokens: TOKENS, column, height: 3_000_000, arrangement: 0, fall_speed: 1 };
        p.lock(&mut g);
        assert_eq!(g.len(), 1);
    }
    let far: FallingPiece = FallingPiece { tokens: TOKENS, column: 0, height: i64::MIN, arrangement: 7, fall_speed: 1 };
    assert_eq!(far.cell_of(0), None);
    far.lock(&mut g);
    assert_eq!(g.len(), 4);
}

#[test]
fn piece_without_room_lands_on_the_spot() {
    let g: Grid = filled(&[(4, 5, Token::Purple)]);
    let p: FallingPiece = FallingPiece { tokens: TOKENS, column: 4, height: 4_200_000, arrangement: 0, fall_speed: 1000 };
    let mut c: FallingPieceController = FallingPieceController { state: PieceState::Falling(p), soft_drop: true };
    c.advance(100, &g);
    assert_eq!(c.state, PieceState::Landing(p));
    assert!(!c.soft_drop);
    let mut d: FallingPieceController = FallingPieceController { state: PieceState::Falling(p), soft_drop: false };
    d.apply_command(Command::HardDrop, &g);
    assert_eq!(d.state, PieceState::Landing(p));
}

#[test]
fn room_and_descent_helpers() {
    let g: Grid = filled(&[(1, 3, Token::Purple)]);
    assert!(has_room(&g, 1, 4));
    assert!(has_room(&g, 1, 0));
    assert!(!has_room(&g, 1, 1));
    assert!(!has_room(&g, 1, 3));
    assert!(has_room(&g, 1, 9));
    assert!(!has_room(&g, 1, 10));
    assert!(!has_room(&g, 1, -1));
    assert!(!has_room(&g, 8, 0));
    assert!(!has_room(&g, -1, 0));
    assert!(!has_room(&g, 1, i64::MAX));
    assert_eq!(descend(&g, 1, 9), 4);
    assert_eq!(descend(&g, 0, 9), 0);
    assert_eq!(descend(&g, 1, 0), 0);
    assert_eq!(descend(&g, 1, 20), 20);
    assert_eq!(descend(&g, 1, i64::MIN), i64::MIN);
    assert_eq!(stack_height(&g, 1), 4);
    assert_eq!(stack_height(&g, 0), 0);
    assert_eq!(stack_height(&g, 9), 0);
}

#[test]
fn place_on_stack_puts_the_token_on_top() {
    let mut g: Grid = filled(&[(1, 3, Token::Purple)]);
    place_on_stack(&mut g, 1, Token::Red);
    assert_eq!(g.get(HexCoordinate::new(1, 4)), Some(Token::Red));
    place_on_stack(&mut g, 0, Token::Blue);
    assert_eq!(g.get(HexCoordinate::new(0, 0)), Some(Token::Blue));
    place_on_stack(&mut g, 8, Token::Blue);
    assert_eq!(g.len(), 3);
}
