//! The game: one context that holds the board, the falling piece, the score
//! and the spawn timer, and one step function that advances it by a tick.

use vstd::prelude::*;
use crate::cascade::{cascade, credited, lemma_cascade_outcome, ClearCascadeEngine, Score};
use crate::grid::{
    cell_at, cell_views, coordinate_of_slot, lemma_slot_cell, listing, on_board, slot, Grid, CELLS,
};
use crate::hex::{Axial, HexCoordinate};
use crate::matching::all_runs;
use crate::piece::{
    in_place, lemma_advance_keeps_place, lemma_commands_keep_place, lemma_lock_rests,
    spawn_blocked, spawned, Command, FallingPiece, FallingPieceController, PieceState, SPAWN_ROW,
};
use crate::support::stable;
use crate::token::Token;

verus! {

/// Settings of a session.
#[derive(Clone, Copy, Debug, PartialEq, Eq, Structural)]
pub struct GameConfig {
    /// Time from the appearance of one piece until the next may appear, in
    /// milliseconds.
    pub spawn_interval_ms: u32,
    /// Fall speed of new pieces, in height units per millisecond.
    pub fall_speed: u32,
}

/// The mathematical value of a [`GameController`].
pub struct GameModel {
    pub board: Map<Axial, Token>,
    pub controller: FallingPieceController,
    pub score: int,
    pub spawn_timer_ms: int,
    pub config: GameConfig,
    pub game_over: bool,
}

/// What the presentation reads after a tick: every locked token with its
/// cell, the piece in play if there is one, the score and the terminal flag.
#[derive(Debug, PartialEq, Eq)]
pub struct Snapshot {
    pub cells: Vec<(HexCoordinate, Token)>,
    pub piece: Option<FallingPiece>,
    pub score: u64,
    pub game_over: bool,
}

/// The simulation context, advanced by [`GameController::tick`].
#[derive(Clone, Copy, Debug)]
pub struct GameController {
    grid: Grid,
    controller: FallingPieceController,
    score: Score,
    spawn_timer_ms: u32,
    config: GameConfig,
    game_over: bool,
}

impl View for GameController {
    type V = GameModel;

    closed spec fn view(&self) -> GameModel {
        GameModel {
            board: self.grid@,
            controller: self.controller,
            score: self.score@,
            spawn_timer_ms: self.spawn_timer_ms as int,
            config: self.config,
            game_over: self.game_over,
        }
    }
}

/// Whether a locked token lies in the rows kept for new pieces.
pub open spec fn overflowed(m: Map<Axial, Token>) -> bool {
    exists|a: Axial| m.dom().contains(a) && a.r >= SPAWN_ROW
}

/// The spawn timer after `dt_ms` milliseconds: it runs down to zero.
pub open spec fn timer_after(timer_ms: int, dt_ms: int) -> int {
    if timer_ms > dt_ms {
        timer_ms - dt_ms
    } else {
        0
    }
}

/// The game after a landing: the piece is locked into the board, the
/// cascade runs to its end and is paid for, the controller is without a
/// piece, and the game is over if a token is left in the spawn rows.
pub open spec fn landed(g: GameModel, p: FallingPiece, soft_drop: bool, timer_ms: int) -> GameModel {
    let out = cascade(p.locked(g.board), 0);
    GameModel {
        board: out.board,
        controller: FallingPieceController { state: PieceState::Empty, soft_drop },
        score: credited(g.score, out.gain),
        spawn_timer_ms: timer_ms,
        config: g.config,
        game_over: overflowed(out.board),
    }
}

/// The game one tick later. A game that is over stays as it is. Otherwise
/// the spawn timer runs; a controller without a piece whose timer has run
/// out is given a piece of the tokens `draw`, and the timer starts again, or,
/// where the piece has no room, the game is over and nothing else changes.
/// Then the commands are applied in order, the piece falls for `dt_ms`
/// milliseconds, and a piece that lands is locked and cascaded.
pub open spec fn tick_model(g: GameModel, dt_ms: int, cmds: Seq<Command>, draw: [Token; 3]) -> GameModel {
    let timer = timer_after(g.spawn_timer_ms, dt_ms);
    let wants_piece = g.controller.state is Empty && timer == 0;
    if g.game_over {
        g
    } else if wants_piece && spawn_blocked(g.board) {
        GameModel {
            board: g.board,
            controller: g.controller,
            score: g.score,
            spawn_timer_ms: timer,
            config: g.config,
            game_over: true,
        }
    } else {
        let entered = if wants_piece {
            FallingPieceController {
                state: PieceState::Falling(spawned(draw, g.config.fall_speed)),
                soft_drop: false,
            }
        } else {
            g.controller
        };
        let next_timer = if wants_piece {
            g.config.spawn_interval_ms as int
        } else {
            timer
        };
        let moved = entered.after_commands(cmds, g.board).after_advance(dt_ms, g.board);
        match moved.state {
            PieceState::Landing(p) => landed(g, p, moved.soft_drop, next_timer),
            _ => GameModel {
                board: g.board,
                controller: moved,
                score: g.score,
                spawn_timer_ms: next_timer,
                config: g.config,
                game_over: false,
            },
        }
    }
}

/// Whether a game state is one that play can reach from a settled board:
/// every locked token is on the board and rests, no run is left standing,
/// the score and the timer are in range, a piece in play is falling and has
/// room where it is, and a game that is over has no piece, while one that
/// goes on has no token in the spawn rows.
pub open spec fn consistent(g: GameModel) -> bool {
    &&& on_board(g.board)
    &&& stable(g.board)
    &&& all_runs(g.board).len() == 0
    &&& 0 <= g.score <= u64::MAX
    &&& 0 <= g.spawn_timer_ms
    &&& !(g.controller.state is Landing)
    &&& in_place(g.controller, g.board)
    &&& (g.game_over ==> g.controller.state is Empty)
    &&& (!g.game_over ==> !overflowed(g.board))
}

/// A tick takes a consistent game to a consistent game, never lowers the
/// score, never removes the piece from play without locking it, and leaves
/// the board alone unless a piece lands.
pub proof fn lemma_tick_keeps_consistent(g: GameModel, dt_ms: int, cmds: Seq<Command>, draw: [Token; 3])
    requires
        consistent(g),
        0 <= dt_ms,
    ensures
        consistent(tick_model(g, dt_ms, cmds, draw)),
        tick_model(g, dt_ms, cmds, draw).score >= g.score,
        tick_model(g, dt_ms, cmds, draw).config == g.config,
        g.game_over ==> tick_model(g, dt_ms, cmds, draw) == g,
{
    let timer = timer_after(g.spawn_timer_ms, dt_ms);
    let wants_piece = g.controller.state is Empty && timer == 0;
    if g.game_over {
    } else if wants_piece && spawn_blocked(g.board) {
    } else {
        let entered = if wants_piece {
            FallingPieceController {
                state: PieceState::Falling(spawned(draw, g.config.fall_speed)),
                soft_drop: false,
            }
        } else {
            g.controller
        };
        assert(in_place(entered, g.board));
        lemma_commands_keep_place(entered, cmds, g.board);
        let commanded = entered.after_commands(cmds, g.board);
        lemma_advance_keeps_place(commanded, dt_ms, g.board);
        let moved = commanded.after_advance(dt_ms, g.board);
        match moved.state {
            PieceState::Landing(p) => {
                lemma_lock_rests(p, g.board);
                lemma_cascade_outcome(p.locked(g.board), 0);
            },
            _ => {},
        }
    }
}

/// Whether a locked token of the grid lies in the rows kept for new pieces.
pub fn reaches_spawn_rows(grid: &Grid) -> (b: bool)
    ensures
        b == overflowed(grid@),
{
    let mut i: usize = 0;
    while i < CELLS
        invariant
            i <= CELLS,
            forall|k: int|
                0 <= k < i ==> !(grid@.dom().contains(#[trigger] cell_at(k)) && cell_at(k).r
                    >= SPAWN_ROW),
        decreases CELLS - i,
    {
        let c: HexCoordinate = coordinate_of_slot(i);
        if c.r >= SPAWN_ROW && grid.is_occupied(c) {
            return true;
        }
        i = i + 1;
    }
    proof {
        grid.lemma_on_board();
        assert forall|a: Axial| grid@.dom().contains(a) implies a.r < SPAWN_ROW by {
            lemma_slot_cell(a, 0);
            assert(cell_at(slot(a)) == a);
        }
    }
    false
}

impl GameController {
    /// A new session: an empty board, no piece, no points, and a spawn timer
    /// that has run out, so that the first tick brings the first piece.
    pub fn new(config: GameConfig) -> (g: GameController)
        ensures
            g@ == (GameModel {
                board: Map::<Axial, Token>::empty(),
                controller: FallingPieceController { state: PieceState::Empty, soft_drop: false },
                score: 0,
                spawn_timer_ms: 0,
                config,
                game_over: false,
            }),
    {
        GameController {
            grid: Grid::new(),
            controller: FallingPieceController::new(),
            score: Score::new(),
            spawn_timer_ms: 0,
            config,
            game_over: false,
        }
    }

    /// A session that starts from the given board, with no piece, no points
    /// and a spawn timer that has run out.
    pub fn with_grid(config: GameConfig, grid: Grid) -> (g: GameController)
        ensures
            g@ == (GameModel {
                board: grid@,
                controller: FallingPieceController { state: PieceState::Empty, soft_drop: false },
                score: 0,
                spawn_timer_ms: 0,
                config,
                game_over: false,
            }),
    {
        GameController {
            grid,
            controller: FallingPieceController::new(),
            score: Score::new(),
            spawn_timer_ms: 0,
            config,
            game_over: false,
        }
    }

    /// The board of locked tokens.
    pub fn grid(&self) -> (g: &Grid)
        ensures
            g@ == self@.board,
    {
        &self.grid
    }

    /// The piece in play, falling or landing, if there is one.
    pub fn piece(&self) -> (p: Option<FallingPiece>)
        ensures
            p == (match self@.controller.state {
                PieceState::Empty => None,
                PieceState::Falling(q) => Some(q),
                PieceState::Landing(q) => Some(q),
            }),
    {
        match self.controller.state {
            PieceState::Empty => None,
            PieceState::Falling(q) => Some(q),
            PieceState::Landing(q) => Some(q),
        }
    }

    /// The state of the piece controller.
    pub fn piece_state(&self) -> (s: PieceState)
        ensures
            s == self@.controller.state,
    {
        self.controller.state
    }

    /// The points counted so far.
    pub fn score(&self) -> (v: u64)
        ensures
            v == self@.score,
    {
        self.score.value()
    }

    /// Milliseconds until the next piece may appear.
    pub fn spawn_timer_ms(&self) -> (t: u32)
        ensures
            t == self@.spawn_timer_ms,
    {
        self.spawn_timer_ms
    }

    /// Whether the game is over.
    pub fn is_game_over(&self) -> (b: bool)
        ensures
            b == self@.game_over,
    {
        self.game_over
    }

    /// A copy of the state for presentation.
    pub fn snapshot(&self) -> (s: Snapshot)
        ensures
            cell_views(s.cells@) == listing(self@.board),
            s.piece == (match self@.controller.state {
                PieceState::Empty => None,
                PieceState::Falling(q) => Some(q),
                PieceState::Landing(q) => Some(q),
            }),
            s.score == self@.score,
            s.game_over == self@.game_over,
    {
        Snapshot {
            cells: self.grid.occupied_cells(),
            piece: self.piece(),
            score: self.score.value(),
            game_over: self.game_over,
        }
    }

    /// Advances the game by one tick of `dt_ms` milliseconds with the given
    /// commands. `draw` holds the tokens of the next piece; they are used
    /// only if a piece appears in this tick.
    pub fn tick(&mut self, dt_ms: u32, commands: &Vec<Command>, draw: [Token; 3])
        ensures
            final(self)@ == tick_model(old(self)@, dt_ms as int, commands@, draw),
            consistent(old(self)@) ==> consistent(final(self)@),
            final(self)@.score >= old(self)@.score,
    {
        proof {
            if consistent(self@) {
                lemma_tick_keeps_consistent(self@, dt_ms as int, commands@, draw);
            }
            self.grid.lemma_on_board();
        }
        if self.game_over {
            return ;
        }
        let ghost g = self@;
        self.spawn_timer_ms = if self.spawn_timer_ms > dt_ms {
            self.spawn_timer_ms - dt_ms
        } else {
            0
        };
        if !self.controller.has_piece() && self.spawn_timer_ms == 0 {
            match self.controller.spawn(draw, self.config.fall_speed, &self.grid) {
                Ok(()) => {
                    self.spawn_timer_ms = self.config.spawn_interval_ms;
                },
                Err(_) => {
                    self.game_over = true;
                    return ;
                },
            }
        }
        self.controller.apply_commands(commands, &self.grid);
        self.controller.advance(dt_ms, &self.grid);
        if self.controller.resolve_landing(&mut self.grid) {
            let _ = ClearCascadeEngine::run(&mut self.grid, &mut self.score);
            self.game_over = reaches_spawn_rows(&self.grid);
        }
    }
}

} // verus!
