//! The falling piece and the state machine that owns it.
//!
//! A piece is a vertical stack of three tokens in one column. Its height is
//! kept in millionths of a row: the piece occupies the row that its height
//! has reached or passed, and the two rows above. Fall speed is in height
//! units per millisecond, and time in milliseconds, so that a fall is an
//! exact product.

use vstd::prelude::*;
use crate::grid::{on_board, Grid};
use crate::hex::{axial, in_bounds, Axial, HexCoordinate, HEIGHT, WIDTH};
use crate::support::{below, stable, supported};
use crate::token::Token;

verus! {

/// Number of tokens of a piece.
pub const PIECE_SIZE: usize = 3;

/// Height units per row.
pub const UNIT: i64 = 1_000_000;

/// Column in which a piece appears.
pub const SPAWN_COLUMN: i32 = 4;

/// Row of the lowest token of a piece that appears. The rows from here up
/// are kept for new pieces: a locked token in them ends the game.
pub const SPAWN_ROW: i32 = HEIGHT - 3;

/// Factor by which a soft drop multiplies the fall speed.
pub const SOFT_DROP_FACTOR: u32 = 4;

/// A discrete command for the falling piece.
#[derive(Clone, Copy, Debug, PartialEq, Eq, Structural)]
pub enum Command {
    MoveLeft,
    MoveRight,
    CycleArrangement,
    SoftDrop,
    HardDrop,
}

/// The piece in play: three tokens, the column they fall in, the height of
/// the lowest of them, the arrangement that says which token sits where in
/// the stack, and the fall speed.
#[derive(Clone, Copy, Debug, PartialEq, Eq)]
pub struct FallingPiece {
    pub tokens: [Token; 3],
    pub column: i32,
    pub height: i64,
    pub arrangement: u8,
    pub fall_speed: u32,
}

/// Where the controller stands: without a piece, with a piece that falls, or
/// with a piece that has touched down and waits to be locked. A piece that
/// appears is falling at once, so appearing is no state that can be seen:
/// a spawn either puts a falling piece into play or leaves the controller
/// without one.
#[derive(Clone, Copy, Debug, PartialEq, Eq)]
pub enum PieceState {
    Empty,
    Falling(FallingPiece),
    Landing(FallingPiece),
}

/// Why a piece could not appear.
#[derive(Clone, Copy, Debug, PartialEq, Eq, Structural)]
pub enum SpawnError {
    /// A cell that the new piece would occupy already holds a token.
    SpawnBlocked,
}

/// Owner of the one falling piece.
#[derive(Clone, Copy, Debug, PartialEq, Eq)]
pub struct FallingPieceController {
    pub state: PieceState,
    /// Whether a soft drop speeds up the next advance.
    pub soft_drop: bool,
}

/// Whether `a` lies on the board and is empty.
pub open spec fn free(m: Map<Axial, Token>, a: Axial) -> bool {
    in_bounds(a) && !m.dom().contains(a)
}

/// Whether a piece with its lowest token at `(col, row)` has all three of
/// its cells on the board and empty.
pub open spec fn fits(m: Map<Axial, Token>, col: int, row: int) -> bool {
    free(m, axial(col, row)) && free(m, axial(col, row + 1)) && free(m, axial(col, row + 2))
}

/// The row at which a piece comes to rest when it descends from `row` in
/// column `col` one row at a time: the lowest row it reaches before the row
/// below no longer takes it.
pub open spec fn landing_row(m: Map<Axial, Token>, col: int, row: int) -> int
    decreases row,
{
    if fits(m, col, row - 1) {
        landing_row(m, col, row - 1)
    } else {
        row
    }
}

/// The first row of column `col`, looking down from row `r`, that has no
/// token at or above it and below `r`.
pub open spec fn stack_top(m: Map<Axial, Token>, col: int, r: int) -> int
    decreases r,
{
    if r <= 0 {
        0
    } else if m.dom().contains(axial(col, r - 1)) {
        r
    } else {
        stack_top(m, col, r - 1)
    }
}

/// The board after `t` has been put on top of the tokens of column `col`,
/// or the board as it is where the column is full or off the board.
pub open spec fn stacked(m: Map<Axial, Token>, col: int, t: Token) -> Map<Axial, Token> {
    let top = axial(col, stack_top(m, col, HEIGHT as int));
    if in_bounds(top) {
        m.insert(top, t)
    } else {
        m
    }
}

impl FallingPiece {
    /// The row that the lowest token of the piece occupies.
    pub open spec fn row(self) -> int {
        self.height as int / (UNIT as int)
    }

    /// The place in the stack, counted from the bottom, of token `i`.
    pub open spec fn slot_of(self, i: int) -> int {
        (i + self.arrangement as int) % 3
    }

    /// The token at place `s` of the stack, counted from the bottom.
    pub open spec fn token_in_slot(self, s: int) -> Token {
        self.tokens@[(s + 3 - (self.arrangement as int) % 3) % 3]
    }

    /// The cell that token `i` occupies.
    pub open spec fn cell(self, i: int) -> Axial {
        axial(self.column as int, self.row() + self.slot_of(i))
    }

    /// The piece moved to column `col`.
    pub open spec fn in_column(self, col: int) -> FallingPiece {
        FallingPiece {
            tokens: self.tokens,
            column: col as i32,
            height: self.height,
            arrangement: self.arrangement,
            fall_speed: self.fall_speed,
        }
    }

    /// The piece at height `height`.
    pub open spec fn at_height(self, height: int) -> FallingPiece {
        FallingPiece {
            tokens: self.tokens,
            column: self.column,
            height: height as i64,
            arrangement: self.arrangement,
            fall_speed: self.fall_speed,
        }
    }

    /// The piece with the next arrangement: every token one place up the
    /// stack, the top one to the bottom.
    pub open spec fn cycled(self) -> FallingPiece {
        FallingPiece {
            tokens: self.tokens,
            column: self.column,
            height: self.height,
            arrangement: ((self.arrangement as int + 1) % 3) as u8,
            fall_speed: self.fall_speed,
        }
    }

    /// The piece after a hard drop on board `m`: at rest on its landing row
    /// if it has room where it is, else where it is.
    pub open spec fn dropped(self, m: Map<Axial, Token>) -> FallingPiece {
        if fits(m, self.column as int, self.row()) {
            self.at_height(landing_row(m, self.column as int, self.row()) * UNIT)
        } else {
            self
        }
    }

    /// The distance that the piece falls in `dt_ms` milliseconds.
    pub open spec fn fall_distance(self, dt_ms: int, soft_drop: bool) -> int {
        if soft_drop {
            self.fall_speed * SOFT_DROP_FACTOR * dt_ms
        } else {
            self.fall_speed * dt_ms
        }
    }

    /// The board after the piece has been locked into it. Where all three
    /// cells of the piece are on the board and empty, each token goes to its
    /// cell. Otherwise the tokens are stacked, from the bottom of the piece
    /// up, on top of the tokens of the piece's column, and a token for
    /// which the column has no room is dropped.
    pub open spec fn locked(self, m: Map<Axial, Token>) -> Map<Axial, Token> {
        let col = self.column as int;
        let row = self.row();
        if fits(m, col, row) {
            m.insert(axial(col, row), self.token_in_slot(0)).insert(
                axial(col, row + 1),
                self.token_in_slot(1),
            ).insert(axial(col, row + 2), self.token_in_slot(2))
        } else {
            stacked(
                stacked(stacked(m, col, self.token_in_slot(0)), col, self.token_in_slot(1)),
                col,
                self.token_in_slot(2),
            )
        }
    }
}

/// The piece that appears: in the spawn column, its lowest token in the
/// spawn row, in the first arrangement.
pub open spec fn spawned(tokens: [Token; 3], fall_speed: u32) -> FallingPiece {
    FallingPiece {
        tokens,
        column: SPAWN_COLUMN,
        height: (SPAWN_ROW * UNIT) as i64,
        arrangement: 0,
        fall_speed,
    }
}

/// Whether a new piece has no room: one of its three cells holds a token.
pub open spec fn spawn_blocked(m: Map<Axial, Token>) -> bool {
    !fits(m, SPAWN_COLUMN as int, SPAWN_ROW as int)
}

impl FallingPieceController {
    /// The controller after command `cmd` on board `m`. Only a falling
    /// piece takes commands. A move to the side is made only where the
    /// piece has room in the next column, and is otherwise dropped.
    pub open spec fn after_command(self, cmd: Command, m: Map<Axial, Token>) -> FallingPieceController {
        match self.state {
            PieceState::Falling(p) => match cmd {
                Command::MoveLeft => if fits(m, p.column - 1, p.row()) {
                    FallingPieceController {
                        state: PieceState::Falling(p.in_column(p.column - 1)),
                        soft_drop: self.soft_drop,
                    }
                } else {
                    self
                },
                Command::MoveRight => if fits(m, p.column + 1, p.row()) {
                    FallingPieceController {
                        state: PieceState::Falling(p.in_column(p.column + 1)),
                        soft_drop: self.soft_drop,
                    }
                } else {
                    self
                },
                Command::CycleArrangement => FallingPieceController {
                    state: PieceState::Falling(p.cycled()),
                    soft_drop: self.soft_drop,
                },
                Command::SoftDrop => FallingPieceController { state: self.state, soft_drop: true },
                Command::HardDrop => FallingPieceController {
                    state: PieceState::Landing(p.dropped(m)),
                    soft_drop: self.soft_drop,
                },
            },
            _ => self,
        }
    }

    /// The controller after the commands `cmds`, taken in order.
    pub open spec fn after_commands(self, cmds: Seq<Command>, m: Map<Axial, Token>) -> FallingPieceController
        decreases cmds.len(),
    {
        if cmds.len() == 0 {
            self
        } else {
            self.after_commands(cmds.drop_last(), m).after_command(cmds.last(), m)
        }
    }

    /// The controller after `dt_ms` milliseconds of fall on board `m`. A
    /// falling piece that has room where it is descends by its fall distance,
    /// but not below its landing row: if the distance would carry it
    /// further, it stops at rest on that row and is landing. A falling piece
    /// without room where it is lands on the spot. A soft drop ends with the
    /// advance.
    pub open spec fn after_advance(self, dt_ms: int, m: Map<Axial, Token>) -> FallingPieceController {
        match self.state {
            PieceState::Falling(p) => {
                let target = p.height - p.fall_distance(dt_ms, self.soft_drop);
                let rest = landing_row(m, p.column as int, p.row()) * UNIT;
                if !fits(m, p.column as int, p.row()) {
                    FallingPieceController { state: PieceState::Landing(p), soft_drop: false }
                } else if target >= rest {
                    FallingPieceController {
                        state: PieceState::Falling(p.at_height(target)),
                        soft_drop: false,
                    }
                } else {
                    FallingPieceController {
                        state: PieceState::Landing(p.at_height(rest)),
                        soft_drop: false,
                    }
                }
            },
            _ => self,
        }
    }
}

/// The landing row is at or below the row the descent began in, is never
/// below the bottom row for a piece that has room, takes the piece, and has
/// no room below it.
pub proof fn lemma_landing_row(m: Map<Axial, Token>, col: int, row: int)
    ensures
        landing_row(m, col, row) <= row,
        fits(m, col, row) ==> 0 <= landing_row(m, col, row) && fits(
            m,
            col,
            landing_row(m, col, row),
        ),
        !fits(m, col, landing_row(m, col, row) - 1),
    decreases row,
{
    if fits(m, col, row - 1) {
        lemma_landing_row(m, col, row - 1);
    }
}

/// The top of a column's stack is a row from 0 to `r`, no token of the
/// column lies at or above it and below `r`, and the cell under it holds a
/// token unless it is the bottom row.
pub proof fn lemma_stack_top(m: Map<Axial, Token>, col: int, r: int)
    requires
        0 <= r,
    ensures
        0 <= stack_top(m, col, r) <= r,
        forall|k: int| stack_top(m, col, r) <= k < r ==> !m.dom().contains(#[trigger] axial(col, k)),
        stack_top(m, col, r) > 0 ==> m.dom().contains(axial(col, stack_top(m, col, r) - 1)),
    decreases r,
{
    if r > 0 && !m.dom().contains(axial(col, r - 1)) {
        lemma_stack_top(m, col, r - 1);
    }
}

/// Whether the piece of the controller, if it has one, is in place on board
/// `m`: a falling piece has room where it is, and a landing piece has room
/// where it is and none one row further down.
pub open spec fn in_place(c: FallingPieceController, m: Map<Axial, Token>) -> bool {
    match c.state {
        PieceState::Empty => true,
        PieceState::Falling(p) => fits(m, p.column as int, p.row()),
        PieceState::Landing(p) => fits(m, p.column as int, p.row()) && !fits(
            m,
            p.column as int,
            p.row() - 1,
        ),
    }
}

/// A piece that has room has room in every row of its descent.
pub proof fn lemma_descent_has_room(m: Map<Axial, Token>, col: int, row: int, r: int)
    requires
        fits(m, col, row),
        landing_row(m, col, row) <= r <= row,
    ensures
        fits(m, col, r),
    decreases row,
{
    if r < row {
        lemma_descent_has_room(m, col, row - 1, r);
    }
}

/// The three tokens of a piece are the three tokens of its stack: token `i`
/// is the one at the place that the arrangement gives it.
pub proof fn lemma_arrangement_permutes(p: FallingPiece, i: int)
    requires
        0 <= i < 3,
    ensures
        0 <= p.slot_of(i) < 3,
        p.token_in_slot(p.slot_of(i)) == p.tokens@[i],
        p.cycled().tokens == p.tokens,
        p.cycled().slot_of(i) == (p.slot_of(i) + 1) % 3,
{
}

/// A command leaves a piece in place, and leaves its tokens, its height
/// unless it is dropped, and its fall speed as they are.
pub proof fn lemma_command_keeps_place(c: FallingPieceController, cmd: Command, m: Map<Axial, Token>)
    requires
        in_place(c, m),
    ensures
        in_place(c.after_command(cmd, m), m),
        c.state is Empty <==> c.after_command(cmd, m).state is Empty,
        c.state is Landing ==> c.after_command(cmd, m) == c,
{
    match c.state {
        PieceState::Falling(p) => {
            lemma_landing_row(m, p.column as int, p.row());
        },
        _ => {},
    }
}

/// Any list of commands leaves a piece in place.
pub proof fn lemma_commands_keep_place(c: FallingPieceController, cmds: Seq<Command>, m: Map<Axial, Token>)
    requires
        in_place(c, m),
    ensures
        in_place(c.after_commands(cmds, m), m),
        c.state is Empty <==> c.after_commands(cmds, m).state is Empty,
    decreases cmds.len(),
{
    if cmds.len() > 0 {
        lemma_commands_keep_place(c, cmds.drop_last(), m);
        lemma_command_keeps_place(c.after_commands(cmds.drop_last(), m), cmds.last(), m);
    }
}

/// An advance leaves a piece in place: it never carries a piece into an
/// occupied cell or off the board.
pub proof fn lemma_advance_keeps_place(c: FallingPieceController, dt_ms: int, m: Map<Axial, Token>)
    requires
        in_place(c, m),
        0 <= dt_ms,
    ensures
        in_place(c.after_advance(dt_ms, m), m),
        c.state is Empty <==> c.after_advance(dt_ms, m).state is Empty,
{
    match c.state {
        PieceState::Falling(p) => {
            let col = p.column as int;
            lemma_landing_row(m, col, p.row());
            let low = landing_row(m, col, p.row());
            let distance = p.fall_distance(dt_ms, c.soft_drop);
            assert(0 <= distance) by (nonlinear_arith)
                requires
                    0 <= dt_ms,
                    0 <= p.fall_speed,
                    distance == if c.soft_drop {
                        p.fall_speed * SOFT_DROP_FACTOR * dt_ms
                    } else {
                        p.fall_speed * dt_ms
                    },
            ;
            let target = p.height - distance;
            if target >= low * UNIT {
                let r = target / (UNIT as int);
                assert(low <= r <= p.row());
                lemma_descent_has_room(m, col, p.row(), r);
            }
        },
        _ => {},
    }
}

/// Locking a landing piece that is in place puts its three tokens on the
/// board where they rest: a board on which every token rested stays so.
pub proof fn lemma_lock_rests(p: FallingPiece, m: Map<Axial, Token>)
    requires
        on_board(m),
        stable(m),
        fits(m, p.column as int, p.row()),
        !fits(m, p.column as int, p.row() - 1),
    ensures
        on_board(p.locked(m)),
        stable(p.locked(m)),
        forall|a: Axial| m.dom().contains(a) ==> p.locked(m).dom().contains(a) && p.locked(m)[a] == m[a],
        forall|i: int| 0 <= i < 3 ==> p.locked(m).dom().contains(#[trigger] p.cell(i)) && p.locked(m)[p.cell(i)] == p.tokens@[i],
        forall|a: Axial|
            p.locked(m).dom().contains(a) ==> m.dom().contains(a) || a == p.cell(0) || a == p.cell(1)
                || a == p.cell(2),
{
    let col = p.column as int;
    let row = p.row();
    let after = p.locked(m);
    assert forall|a: Axial| after.dom().contains(a) implies supported(after, a) by {
        if m.dom().contains(a) {
            assert(supported(m, a));
        } else if a == axial(col, row) {
            assert(!free(m, axial(col, row - 1)));
        } else if a == axial(col, row + 1) {
            assert(below(a) == axial(col, row));
        } else {
            assert(a == axial(col, row + 2));
            assert(below(a) == axial(col, row + 1));
        }
    }
    assert forall|i: int| 0 <= i < 3 implies after.dom().contains(#[trigger] p.cell(i)) && after[p.cell(i)] == p.tokens@[i] by {
        lemma_arrangement_permutes(p, i);
    }
}

/// The row that a piece at height `height` occupies.
pub fn height_row(height: i64) -> (row: i64)
    ensures
        row == height as int / (UNIT as int),
{
    let whole: i64 = height / UNIT;
    if height % UNIT < 0 {
        whole - 1
    } else {
        whole
    }
}

/// Whether a piece with its lowest token at `(col, row)` has room on the
/// grid: its three cells are on the board and empty.
pub fn has_room(grid: &Grid, col: i32, row: i64) -> (b: bool)
    ensures
        b == fits(grid@, col as int, row as int),
{
    if row < 0 || row > (HEIGHT - 3) as i64 {
        false
    } else {
        let r: i32 = row as i32;
        !grid.is_occupied(HexCoordinate { q: col, r }) && !grid.is_occupied(
            HexCoordinate { q: col, r: r + 1 },
        ) && !grid.is_occupied(HexCoordinate { q: col, r: r + 2 }) && 0 <= col && col < WIDTH
    }
}

/// The row at which a piece that descends from `row` in column `col` comes
/// to rest.
pub fn descend(grid: &Grid, col: i32, row: i64) -> (low: i64)
    ensures
        low == landing_row(grid@, col as int, row as int),
{
    let mut low: i64 = row;
    while low >= 1 && has_room(grid, col, low - 1)
        invariant
            low <= row,
            landing_row(grid@, col as int, low as int) == landing_row(
                grid@,
                col as int,
                row as int,
            ),
        decreases low,
    {
        low = low - 1;
    }
    low
}

/// The row on top of the tokens of column `col`: one above its highest
/// token, or the bottom row where the column holds none.
pub fn stack_height(grid: &Grid, col: i32) -> (top: i32)
    ensures
        top == stack_top(grid@, col as int, HEIGHT as int),
        0 <= top <= HEIGHT,
{
    let mut r: i32 = HEIGHT;
    proof {
        lemma_stack_top(grid@, col as int, HEIGHT as int);
    }
    while r > 0 && !grid.is_occupied(HexCoordinate::new(col, r - 1))
        invariant
            0 <= r <= HEIGHT,
            stack_top(grid@, col as int, r as int) == stack_top(grid@, col as int, HEIGHT as int),
        decreases r,
    {
        r = r - 1;
    }
    proof {
        lemma_stack_top(grid@, col as int, r as int);
    }
    r
}

/// Puts `t` on top of the tokens of column `col`. Where the column is full
/// or off the board the token is dropped and the grid stays as it was.
pub fn place_on_stack(grid: &mut Grid, col: i32, t: Token)
    ensures
        final(grid)@ == stacked(old(grid)@, col as int, t),
{
    let top: i32 = stack_height(grid, col);
    let _ = grid.insert(HexCoordinate { q: col, r: top }, t);
}

impl FallingPiece {
    /// A new piece of the given tokens at its spawn position.
    pub fn new(tokens: [Token; 3], fall_speed: u32) -> (p: FallingPiece)
        ensures
            p == spawned(tokens, fall_speed),
    {
        FallingPiece {
            tokens,
            column: SPAWN_COLUMN,
            height: SPAWN_ROW as i64 * UNIT,
            arrangement: 0,
            fall_speed,
        }
    }

    /// The row that the lowest token of the piece occupies.
    pub fn row_index(&self) -> (row: i64)
        ensures
            row == self.row(),
    {
        height_row(self.height)
    }

    /// The token at place `s` of the stack, counted from the bottom.
    pub fn token_at(&self, s: usize) -> (t: Token)
        requires
            s < PIECE_SIZE,
        ensures
            t == self.token_in_slot(s as int),
    {
        let shift: usize = (self.arrangement % 3) as usize;
        self.tokens[(s + 3 - shift) % 3]
    }

    /// The cell that token `i` occupies, where its row can be written as a
    /// coordinate.
    pub fn cell_of(&self, i: usize) -> (c: Option<HexCoordinate>)
        requires
            i < PIECE_SIZE,
        ensures
            c is Some <==> i32::MIN <= self.cell(i as int).r <= i32::MAX,
            c is Some ==> c->0@ == self.cell(i as int),
    {
        let slot: i64 = ((i + self.arrangement as usize) % 3) as i64;
        let row: i64 = height_row(self.height) + slot;
        if i32::MIN as i64 <= row && row <= i32::MAX as i64 {
            Some(HexCoordinate { q: self.column, r: row as i32 })
        } else {
            None
        }
    }

    /// Writes the tokens of the piece into the grid: each to its cell where
    /// all three cells are on the board and empty, else stacked from the
    /// bottom of the piece up on top of the piece's column.
    pub fn lock(&self, grid: &mut Grid)
        ensures
            final(grid)@ == self.locked(old(grid)@),
    {
        let row: i64 = height_row(self.height);
        if has_room(grid, self.column, row) {
            let r: i32 = row as i32;
            let _ = grid.insert(HexCoordinate { q: self.column, r }, self.token_at(0));
            let _ = grid.insert(HexCoordinate { q: self.column, r: r + 1 }, self.token_at(1));
            let _ = grid.insert(HexCoordinate { q: self.column, r: r + 2 }, self.token_at(2));
        } else {
            place_on_stack(grid, self.column, self.token_at(0));
            place_on_stack(grid, self.column, self.token_at(1));
            place_on_stack(grid, self.column, self.token_at(2));
        }
    }
}

impl FallingPieceController {
    /// A controller without a piece.
    pub fn new() -> (c: FallingPieceController)
        ensures
            c.state is Empty,
            !c.soft_drop,
    {
        FallingPieceController { state: PieceState::Empty, soft_drop: false }
    }

    /// Whether a piece is in play, falling or landing.
    pub fn has_piece(&self) -> (b: bool)
        ensures
            b == !(self.state is Empty),
    {
        match self.state {
            PieceState::Empty => false,
            _ => true,
        }
    }

    /// Brings a piece of the given tokens into play, for a controller that
    /// has none. Where one of the piece's three cells holds a token the
    /// piece does not appear, the controller stays without a piece, and the
    /// result is `SpawnBlocked`.
    pub fn spawn(&mut self, tokens: [Token; 3], fall_speed: u32, grid: &Grid) -> (res: Result<
        (),
        SpawnError,
    >)
        requires
            old(self).state is Empty,
        ensures
            spawn_blocked(grid@) ==> res == Err::<(), SpawnError>(SpawnError::SpawnBlocked)
                && *final(self) == *old(self),
            !spawn_blocked(grid@) ==> res is Ok && final(self).state == PieceState::Falling(
                spawned(tokens, fall_speed),
            ) && final(self).soft_drop == false,
    {
        if has_room(grid, SPAWN_COLUMN, SPAWN_ROW as i64) {
            self.state = PieceState::Falling(FallingPiece::new(tokens, fall_speed));
            self.soft_drop = false;
            Ok(())
        } else {
            Err(SpawnError::SpawnBlocked)
        }
    }

    /// Applies one command. Commands for a controller without a falling
    /// piece, and moves for which the piece has no room, change nothing.
    pub fn apply_command(&mut self, cmd: Command, grid: &Grid)
        ensures
            *final(self) == old(self).after_command(cmd, grid@),
    {
        match self.state {
            PieceState::Falling(p) => {
                let row: i64 = height_row(p.height);
                match cmd {
                    Command::MoveLeft => {
                        if p.column > i32::MIN && has_room(grid, p.column - 1, row) {
                            self.state = PieceState::Falling(
                                FallingPiece {
                                    tokens: p.tokens,
                                    column: p.column - 1,
                                    height: p.height,
                                    arrangement: p.arrangement,
                                    fall_speed: p.fall_speed,
                                },
                            );
                        }
                    },
                    Command::MoveRight => {
                        if p.column < i32::MAX && has_room(grid, p.column + 1, row) {
                            self.state = PieceState::Falling(
                                FallingPiece {
                                    tokens: p.tokens,
                                    column: p.column + 1,
                                    height: p.height,
                                    arrangement: p.arrangement,
                                    fall_speed: p.fall_speed,
                                },
                            );
                        }
                    },
                    Command::CycleArrangement => {
                        self.state = PieceState::Falling(
                            FallingPiece {
                                tokens: p.tokens,
                                column: p.column,
                                height: p.height,
                                arrangement: (p.arrangement % 3 + 1) % 3,
                                fall_speed: p.fall_speed,
                            },
                        );
                    },
                    Command::SoftDrop => {
                        self.soft_drop = true;
                    },
                    Command::HardDrop => {
                        if has_room(grid, p.column, row) {
                            let low: i64 = descend(grid, p.column, row);
                            proof {
                                lemma_landing_row(grid@, p.column as int, row as int);
                            }
                            self.state = PieceState::Landing(
                                FallingPiece {
                                    tokens: p.tokens,
                                    column: p.column,
                                    height: low * UNIT,
                                    arrangement: p.arrangement,
                                    fall_speed: p.fall_speed,
                                },
                            );
                        } else {
                            self.state = PieceState::Landing(p);
                        }
                    },
                }
            },
            _ => {},
        }
    }

    /// Applies the commands in order.
    pub fn apply_commands(&mut self, cmds: &Vec<Command>, grid: &Grid)
        ensures
            *final(self) == old(self).after_commands(cmds@, grid@),
    {
        let mut i: usize = 0;
        assert(cmds@.take(0) =~= Seq::<Command>::empty());
        while i < cmds.len()
            invariant
                i <= cmds.len(),
                *self == old(self).after_commands(cmds@.take(i as int), grid@),
            decreases cmds.len() - i,
        {
            proof {
                assert(cmds@.take(i + 1).drop_last() =~= cmds@.take(i as int));
            }
            self.apply_command(cmds[i], grid);
            i = i + 1;
        }
        assert(cmds@.take(i as int) =~= cmds@);
    }

    /// Lets `dt_ms` milliseconds pass. A falling piece descends, and lands
    /// where it would otherwise enter an occupied cell or leave the board at
    /// the bottom; it then rests on the last row that takes it.
    pub fn advance(&mut self, dt_ms: u32, grid: &Grid)
        ensures
            *final(self) == old(self).after_advance(dt_ms as int, grid@),
    {
        match self.state {
            PieceState::Falling(p) => {
                let row: i64 = height_row(p.height);
                if !has_room(grid, p.column, row) {
                    self.state = PieceState::Landing(p);
                } else {
                    let low: i64 = descend(grid, p.column, row);
                    proof {
                        lemma_landing_row(grid@, p.column as int, row as int);
                    }
                    let rest: i64 = low * UNIT;
                    let speed: u64 = if self.soft_drop {
                        p.fall_speed as u64 * SOFT_DROP_FACTOR as u64
                    } else {
                        p.fall_speed as u64
                    };
                    assert(speed * dt_ms <= 0x4_0000_0000_0000_0000) by (nonlinear_arith)
                        requires
                            0 <= speed <= 0x4_0000_0000,
                            0 <= dt_ms <= 0x1_0000_0000,
                    ;
                    let distance: u128 = speed as u128 * dt_ms as u128;
                    assert(distance == p.fall_distance(dt_ms as int, self.soft_drop)) by (nonlinear_arith)
                        requires
                            distance == speed * dt_ms,
                            speed == if self.soft_drop {
                                p.fall_speed * SOFT_DROP_FACTOR
                            } else {
                                p.fall_speed as int
                            },
                            p.fall_distance(dt_ms as int, self.soft_drop) == if self.soft_drop {
                                p.fall_speed * SOFT_DROP_FACTOR * dt_ms
                            } else {
                                p.fall_speed * dt_ms
                            },
                    ;
                    let target: i128 = p.height as i128 - distance as i128;
                    if target >= rest as i128 {
                        self.state = PieceState::Falling(
                            FallingPiece {
                                tokens: p.tokens,
                                column: p.column,
                                height: target as i64,
                                arrangement: p.arrangement,
                                fall_speed: p.fall_speed,
                            },
                        );
                    } else {
                        self.state = PieceState::Landing(
                            FallingPiece {
                                tokens: p.tokens,
                                column: p.column,
                                height: rest,
                                arrangement: p.arrangement,
                                fall_speed: p.fall_speed,
                            },
                        );
                    }
                }
                self.soft_drop = false;
            },
            _ => {},
        }
    }

    /// Locks a landing piece into the grid and leaves the controller without
    /// a piece. Returns whether a piece was locked; in any other state
    /// nothing changes.
    pub fn resolve_landing(&mut self, grid: &mut Grid) -> (locked: bool)
        ensures
            locked == (old(self).state is Landing),
            old(self).state matches PieceState::Landing(p) ==> final(grid)@ == p.locked(
                old(grid)@,
            ) && final(self).state is Empty && final(self).soft_drop == old(self).soft_drop,
            !(old(self).state is Landing) ==> final(grid)@ == old(grid)@ && *final(self) == *old(
                self,
            ),
    {
        match self.state {
            PieceState::Landing(p) => {
                p.lock(grid);
                self.state = PieceState::Empty;
                true
            },
            _ => false,
        }
    }
}

} // verus!
