//! Gravity on the lattice: which tokens rest on something, and how the
//! others fall.
//!
//! A token rests if it lies in the bottom row or if one of the two cells
//! below it, `(q, r - 1)` and `(q + 1, r - 1)`, is occupied. A token that does
//! not rest falls straight down its column, one row per step.

use vstd::prelude::*;
use crate::grid::{
    cell_at, cell_count, coordinate_of_slot, count_in, lemma_cell_count, lemma_count_is_size,
    lemma_count_member, lemma_slot_cell, on_board, slot, Grid, CELLS,
};
use crate::hex::{axial, in_bounds, positions, Axial, HexCoordinate, HEIGHT};
use crate::settling::{transits, SettlingEntry, Transit};
use crate::token::Token;

verus! {

/// The cell straight below `a` in its column.
pub open spec fn below(a: Axial) -> Axial {
    axial(a.q, a.r - 1)
}

/// The other cell that `a` can rest on, one column to the right.
pub open spec fn below_side(a: Axial) -> Axial {
    axial(a.q + 1, a.r - 1)
}

/// The cell straight above `a` in its column.
pub open spec fn above(a: Axial) -> Axial {
    axial(a.q, a.r + 1)
}

/// Whether a token at `a` would rest: `a` is in the bottom row, or one of
/// the two cells below it is occupied.
pub open spec fn supported(m: Map<Axial, Token>, a: Axial) -> bool {
    a.r == 0 || m.dom().contains(below(a)) || m.dom().contains(below_side(a))
}

/// Whether `a` holds a token that does not rest.
pub open spec fn unsupported(m: Map<Axial, Token>, a: Axial) -> bool {
    m.dom().contains(a) && !supported(m, a)
}

/// The cells that hold a token without support.
pub open spec fn unsupported_set(m: Map<Axial, Token>) -> Set<Axial> {
    Set::new(|a: Axial| unsupported(m, a))
}

/// Whether every token of the board rests.
pub open spec fn stable(m: Map<Axial, Token>) -> bool {
    forall|a: Axial| m.dom().contains(a) ==> supported(m, a)
}

/// The board after one resolution pass: judged on `m` as it stands, every
/// token without support has moved to the cell straight below it and every
/// other token has stayed.
pub open spec fn step(m: Map<Axial, Token>) -> Map<Axial, Token> {
    Map::new(
        |a: Axial| (m.dom().contains(a) && supported(m, a)) || unsupported(m, above(a)),
        |a: Axial|
            if unsupported(m, above(a)) {
                m[above(a)]
            } else {
                m[a]
            },
    )
}

/// The unsupported cells among the first `n` of the canonical order, in
/// that order.
pub open spec fn falling_upto(m: Map<Axial, Token>, n: int) -> Seq<Axial>
    decreases n,
{
    if n <= 0 {
        Seq::<Axial>::empty()
    } else if unsupported(m, cell_at(n - 1)) {
        falling_upto(m, n - 1).push(cell_at(n - 1))
    } else {
        falling_upto(m, n - 1)
    }
}

/// The unsupported cells of the board in canonical order.
pub open spec fn falling(m: Map<Axial, Token>) -> Seq<Axial> {
    falling_upto(m, CELLS as int)
}

/// The move of the token at `a` one row down, just begun.
pub open spec fn fall_of(a: Axial) -> Transit {
    Transit { from: a, to: below(a), progress: 0 }
}

/// Sum of the rows of those of the first `n` cells that belong to `s`.
pub open spec fn row_sum_in(s: Set<Axial>, n: int) -> int
    decreases n,
{
    if n <= 0 {
        0
    } else {
        row_sum_in(s, n - 1) + if s.contains(cell_at(n - 1)) {
            cell_at(n - 1).r
        } else {
            0int
        }
    }
}

/// Potential energy of a board: the sum of the rows of its tokens.
pub open spec fn potential(m: Map<Axial, Token>) -> int {
    row_sum_in(m.dom(), CELLS as int)
}

/// The board that repeated resolution passes end in.
pub open spec fn settled(m: Map<Axial, Token>) -> Map<Axial, Token>
    decreases potential(m),
    when on_board(m)
    via settled_terminates
{
    if stable(m) {
        m
    } else {
        settled(step(m))
    }
}

#[via_fn]
proof fn settled_terminates(m: Map<Axial, Token>) {
    if !stable(m) {
        lemma_step_measures(m);
        lemma_unsupported_set(m);
        lemma_potential_bounded(step(m));
    }
}

proof fn lemma_row_sum_bounded(s: Set<Axial>, n: int)
    requires
        0 <= n,
    ensures
        0 <= row_sum_in(s, n) <= n * (HEIGHT - 1),
    decreases n,
{
    if n > 0 {
        lemma_row_sum_bounded(s, n - 1);
    }
}

/// The potential of a board is never negative and at most that of a full
/// board.
pub proof fn lemma_potential_bounded(m: Map<Axial, Token>)
    ensures
        0 <= potential(m) <= CELLS * (HEIGHT - 1),
{
    lemma_row_sum_bounded(m.dom(), CELLS as int);
}

/// The unsupported cells of a board are finitely many, as many as their
/// count over the board, and none exactly when the board is stable.
pub proof fn lemma_unsupported_set(m: Map<Axial, Token>)
    requires
        on_board(m),
    ensures
        unsupported_set(m).finite(),
        unsupported_set(m).len() == count_in(unsupported_set(m), CELLS as int),
        stable(m) <==> unsupported_set(m).len() == 0,
{
    lemma_count_is_size(unsupported_set(m));
    if stable(m) {
        assert(unsupported_set(m) =~= Set::<Axial>::empty());
    } else {
        let a = choose|a: Axial| m.dom().contains(a) && !supported(m, a);
        lemma_count_member(unsupported_set(m), a);
    }
}

/// A resolution pass keeps every token on the board.
pub proof fn lemma_step_on_board(m: Map<Axial, Token>)
    requires
        on_board(m),
    ensures
        on_board(step(m)),
{
    assert forall|a: Axial| step(m).dom().contains(a) implies in_bounds(a) by {
        if unsupported(m, above(a)) {
            assert(in_bounds(above(a)));
        }
    }
}

/// One if the cell with number `n` holds an unsupported token, else zero.
pub open spec fn falls_at(m: Map<Axial, Token>, n: int) -> int {
    if unsupported(m, cell_at(n)) {
        1
    } else {
        0
    }
}

proof fn lemma_step_prefix(m: Map<Axial, Token>, n: int)
    requires
        on_board(m),
        0 <= n <= CELLS,
    ensures
        count_in(step(m).dom(), n) == count_in(m.dom(), n) + falls_at(m, n),
        row_sum_in(step(m).dom(), n) == row_sum_in(m.dom(), n) - count_in(unsupported_set(m), n)
            + falls_at(m, n) * (cell_at(n).r - 1),
    decreases n,
{
    if n == 0 {
        assert(cell_at(0).r == 0);
    } else {
        lemma_step_prefix(m, n - 1);
        let a = cell_at(n - 1);
        let b = cell_at(n);
        lemma_slot_cell(a, n - 1);
        assert(in_bounds(a));
        if a.r < HEIGHT - 1 {
            assert(b == above(a));
        } else {
            assert(b.r == 0);
            assert(!in_bounds(above(a)));
            assert(!unsupported(m, above(a)));
        }
        assert(unsupported(m, above(a)) == unsupported(m, b));
        if unsupported(m, b) {
            assert(below(b) == a);
            assert(!m.dom().contains(a));
        }
        assert(step(m).dom().contains(a) == ((m.dom().contains(a) && supported(m, a)) || unsupported(
            m,
            b,
        )));
        assert(unsupported_set(m).contains(a) == unsupported(m, a));
    }
}

/// A resolution pass keeps the number of tokens and lowers the potential
/// by exactly the number of unsupported tokens.
pub proof fn lemma_step_measures(m: Map<Axial, Token>)
    requires
        on_board(m),
    ensures
        on_board(step(m)),
        cell_count(step(m)) == cell_count(m),
        potential(step(m)) == potential(m) - unsupported_set(m).len(),
        potential(step(m)) <= potential(m),
{
    lemma_step_on_board(m);
    lemma_cell_count(m);
    lemma_cell_count(step(m));
    lemma_unsupported_set(m);
    lemma_step_prefix(m, CELLS as int);
    assert(cell_at(CELLS as int).r == 0);
}

/// A board is a fixpoint of the resolution pass exactly when every token
/// on it rests: once passes change nothing, no token is without support.
pub proof fn lemma_fixpoint_is_stable(m: Map<Axial, Token>)
    ensures
        stable(m) <==> step(m) == m,
{
    if stable(m) {
        assert forall|a: Axial| !unsupported(m, above(a)) by {}
        assert(step(m) =~= m);
    }
    if step(m) == m {
        assert forall|a: Axial| m.dom().contains(a) implies supported(m, a) by {
            if !supported(m, a) {
                assert(below(above(a)) == a);
                assert(!unsupported(m, above(a)));
                assert(!step(m).dom().contains(a));
            }
        }
    }
}

/// Settling ends on a stable board with the same number of tokens and no
/// more potential than it began with.
pub proof fn lemma_settled(m: Map<Axial, Token>)
    requires
        on_board(m),
    ensures
        on_board(settled(m)),
        stable(settled(m)),
        cell_count(settled(m)) == cell_count(m),
        potential(settled(m)) <= potential(m),
        stable(m) ==> settled(m) == m,
    decreases potential(m),
{
    if !stable(m) {
        lemma_step_measures(m);
        lemma_unsupported_set(m);
        lemma_potential_bounded(step(m));
        lemma_settled(step(m));
    }
}

/// Number of resolution passes until the board is stable.
pub open spec fn passes_needed(m: Map<Axial, Token>) -> int
    decreases potential(m),
    when on_board(m)
    via passes_needed_terminates
{
    if stable(m) {
        0
    } else {
        1 + passes_needed(step(m))
    }
}

#[via_fn]
proof fn passes_needed_terminates(m: Map<Axial, Token>) {
    if !stable(m) {
        lemma_step_measures(m);
        lemma_unsupported_set(m);
        lemma_potential_bounded(step(m));
    }
}

/// Settling takes at most as many passes as the board has potential.
pub proof fn lemma_passes_bounded(m: Map<Axial, Token>)
    requires
        on_board(m),
    ensures
        0 <= passes_needed(m) <= potential(m),
    decreases potential(m),
{
    lemma_potential_bounded(m);
    if !stable(m) {
        lemma_step_measures(m);
        lemma_unsupported_set(m);
        lemma_potential_bounded(step(m));
        lemma_passes_bounded(step(m));
    }
}

/// The list of falling cells names exactly the unsupported cells of the
/// board, each once and in canonical order.
pub proof fn lemma_falling_lists_unsupported(m: Map<Axial, Token>)
    requires
        on_board(m),
    ensures
        falling(m).len() == unsupported_set(m).len(),
        forall|a: Axial|
            #![trigger falling(m).contains(a)]
            falling(m).contains(a) <==> unsupported(m, a),
        forall|i: int, j: int|
            0 <= i < j < falling(m).len() ==> slot(falling(m)[i]) < slot(falling(m)[j]),
{
    lemma_falling_complete(m, CELLS as int);
    lemma_unsupported_set(m);
    assert forall|a: Axial| unsupported(m, a) implies slot(a) < CELLS by {
        lemma_slot_cell(a, 0);
    }
}

proof fn lemma_falling_complete(m: Map<Axial, Token>, n: int)
    requires
        on_board(m),
        0 <= n <= CELLS,
    ensures
        falling_upto(m, n).len() == count_in(unsupported_set(m), n),
        forall|a: Axial|
            #![trigger falling_upto(m, n).contains(a)]
            falling_upto(m, n).contains(a) <==> (unsupported(m, a) && slot(a) < n),
        forall|i: int, j: int|
            0 <= i < j < falling_upto(m, n).len() ==> slot(falling_upto(m, n)[i]) < slot(
                falling_upto(m, n)[j],
            ),
    decreases n,
{
    if n > 0 {
        lemma_falling_complete(m, n - 1);
        let rest = falling_upto(m, n - 1);
        let c = cell_at(n - 1);
        lemma_slot_cell(c, n - 1);
        assert forall|a: Axial|
            falling_upto(m, n).contains(a) <==> (unsupported(m, a) && slot(a) < n) by {
            if unsupported(m, a) {
                lemma_slot_cell(a, 0);
            }
            if unsupported(m, c) {
                let full = rest.push(c);
                assert(full[rest.len() as int] == c);
                if rest.contains(a) {
                    let k = choose|k: int| 0 <= k < rest.len() && rest[k] == a;
                    assert(full[k] == a);
                }
                if full.contains(a) {
                    let k = choose|k: int| 0 <= k < full.len() && full[k] == a;
                    if k < rest.len() {
                        assert(rest[k] == a);
                    }
                }
            }
        }
        assert forall|i: int, j: int| 0 <= i < j < falling_upto(m, n).len() implies slot(
            falling_upto(m, n)[i],
        ) < slot(falling_upto(m, n)[j]) by {
            let full = falling_upto(m, n);
            if unsupported(m, c) {
                assert(full == rest.push(c));
                assert(full[i] == rest[i]);
                assert(rest.contains(rest[i]));
                assert(slot(rest[i]) < n - 1);
                if j < rest.len() {
                    assert(full[j] == rest[j]);
                } else {
                    assert(full[j] == c);
                }
            }
        }
    } else {
        assert forall|a: Axial| unsupported(m, a) implies slot(a) >= 0 by {
            lemma_slot_cell(a, 0);
        }
    }
}

/// The resolver of support and gravity on a grid.
pub struct SupportResolver;

impl SupportResolver {
    /// Whether a token at `c` rests on `grid`: `c` is in the bottom row or one
    /// of the two cells below it is occupied.
    pub fn is_supported(grid: &Grid, c: HexCoordinate) -> (b: bool)
        ensures
            b == supported(grid@, c@),
    {
        proof {
            grid.lemma_on_board();
            assert(!in_bounds(below(c@)) ==> !grid@.dom().contains(below(c@)));
            assert(!in_bounds(below_side(c@)) ==> !grid@.dom().contains(below_side(c@)));
        }
        if c.r == 0 {
            true
        } else if c.r == i32::MIN {
            false
        } else if grid.is_occupied(HexCoordinate { q: c.q, r: c.r - 1 }) {
            true
        } else if c.q == i32::MAX {
            false
        } else {
            grid.is_occupied(HexCoordinate { q: c.q + 1, r: c.r - 1 })
        }
    }

    /// The cells whose token has no support, in canonical order, each once.
    pub fn find_unsupported(grid: &Grid) -> (out: Vec<HexCoordinate>)
        ensures
            positions(out@) == falling(grid@),
            out.len() == unsupported_set(grid@).len(),
            forall|a: Axial| positions(out@).contains(a) <==> unsupported(grid@, a),
    {
        let mut out: Vec<HexCoordinate> = Vec::new();
        let mut i: usize = 0;
        assert(positions(out@) =~= falling_upto(grid@, 0));
        while i < CELLS
            invariant
                i <= CELLS,
                positions(out@) == falling_upto(grid@, i as int),
            decreases CELLS - i,
        {
            let c: HexCoordinate = coordinate_of_slot(i);
            if grid.is_occupied(c) && !Self::is_supported(grid, c) {
                let ghost before = positions(out@);
                out.push(c);
                assert(positions(out@) =~= before.push(c@));
            }
            i = i + 1;
        }
        proof {
            grid.lemma_on_board();
            lemma_falling_lists_unsupported(grid@);
        }
        out
    }

    /// One resolution pass. Support is judged on the grid as it stands before
    /// the pass, so moves of the same pass do not see each other: every token
    /// without support moves to the cell straight below it, every other token
    /// stays. Returns the moves made, in canonical order of the cells left.
    pub fn resolve_step(grid: &mut Grid) -> (moves: Vec<SettlingEntry>)
        ensures
            final(grid)@ == step(old(grid)@),
            transits(moves@) == falling(old(grid)@).map_values(|a: Axial| fall_of(a)),
            moves.len() == unsupported_set(old(grid)@).len(),
    {
        let before: Grid = *grid;
        let mut next: Grid = Grid::new();
        let mut moves: Vec<SettlingEntry> = Vec::new();
        let mut i: usize = 0;
        proof {
            before.lemma_on_board();
            assert(transits(moves@) =~= falling_upto(before@, 0).map_values(|a: Axial| fall_of(a)));
        }
        while i < CELLS
            invariant
                i <= CELLS,
                on_board(before@),
                forall|a: Axial|
                    #![trigger next@.dom().contains(a)]
                    next@.dom().contains(a) <==> (in_bounds(a) && slot(a) < i && step(
                        before@,
                    ).dom().contains(a)),
                forall|a: Axial|
                    #![trigger next@.dom().contains(a)]
                    next@.dom().contains(a) ==> next@[a] == step(before@)[a],
                transits(moves@) == falling_upto(before@, i as int).map_values(|a: Axial| fall_of(a)),
            decreases CELLS - i,
        {
            let c: HexCoordinate = coordinate_of_slot(i);
            proof {
                lemma_slot_cell(c@, i as int);
                assert forall|a: Axial| in_bounds(a) && slot(a) == i implies a == c@ by {
                    lemma_slot_cell(a, 0);
                }
            }
            match before.get(c) {
                Some(t) => {
                    assert(!unsupported(before@, above(c@))) by {
                        assert(below(above(c@)) == c@);
                    }
                    if Self::is_supported(&before, c) {
                        let _ = next.insert(c, t);
                    } else {
                        let ghost listed = transits(moves@);
                        moves.push(SettlingEntry::new(c, HexCoordinate { q: c.q, r: c.r - 1 }));
                        assert(transits(moves@) =~= listed.push(fall_of(c@)));
                        assert(falling_upto(before@, i + 1).map_values(|a: Axial| fall_of(a))
                            =~= falling_upto(before@, i as int).map_values(|a: Axial| fall_of(a)).push(
                            fall_of(c@),
                        ));
                    }
                },
                None => {
                    if c.r + 1 < HEIGHT {
                        let up: HexCoordinate = HexCoordinate { q: c.q, r: c.r + 1 };
                        assert(up@ == above(c@));
                        match before.get(up) {
                            Some(t) => {
                                if !Self::is_supported(&before, up) {
                                    let _ = next.insert(c, t);
                                }
                            },
                            None => {},
                        }
                    } else {
                        assert(!in_bounds(above(c@)));
                    }
                },
            }
            i = i + 1;
        }
        proof {
            lemma_step_on_board(before@);
            assert forall|a: Axial| in_bounds(a) implies slot(a) < CELLS by {
                lemma_slot_cell(a, 0);
            }
            assert forall|a: Axial| step(before@).dom().contains(a) implies next@.dom().contains(
                a,
            ) by {
                assert(in_bounds(a));
                assert(slot(a) < CELLS);
            }
            assert(next@.dom() =~= step(before@).dom());
            assert forall|a: Axial| next@.dom().contains(a) implies #[trigger] next@[a] == step(
                before@,
            )[a] by {}
            assert(next@ =~= step(before@));
            lemma_falling_lists_unsupported(before@);
        }
        *grid = next;
        moves
    }

    /// Repeats resolution passes until no token is without support, and returns
    /// the number of passes that moved a token.
    pub fn settle(grid: &mut Grid) -> (passes: usize)
        ensures
            final(grid)@ == settled(old(grid)@),
            stable(final(grid)@),
            cell_count(final(grid)@) == cell_count(old(grid)@),
            passes == passes_needed(old(grid)@),
    {
        let mut passes: usize = 0;
        proof {
            grid.lemma_on_board();
            lemma_passes_bounded(grid@);
            lemma_potential_bounded(grid@);
        }
        loop
            invariant
                on_board(grid@),
                settled(grid@) == settled(old(grid)@),
                passes + passes_needed(grid@) == passes_needed(old(grid)@),
                passes_needed(old(grid)@) <= CELLS * (HEIGHT - 1),
                0 <= passes_needed(grid@),
            ensures
                stable(grid@),
                grid@ == settled(old(grid)@),
                passes == passes_needed(old(grid)@),
            decreases potential(grid@),
        {
            let ghost m = grid@;
            let moves: Vec<SettlingEntry> = Self::resolve_step(grid);
            proof {
                lemma_step_measures(m);
                lemma_potential_bounded(step(m));
                lemma_passes_bounded(step(m));
                lemma_unsupported_set(m);
                lemma_fixpoint_is_stable(m);
            }
            if moves.len() == 0 {
                break ;
            }
            passes = passes + 1;
        }
        proof {
            lemma_settled(old(grid)@);
        }
        passes
    }
}

} // verus!
