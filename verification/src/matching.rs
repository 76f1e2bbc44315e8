//! Match detection: maximal straight runs of one token along the three axes
//! of the lattice.
//!
//! The axes are numbered 0, 1, 2 and run in the directions `(+1, 0)`,
//! `(0, +1)` and `(+1, -1)`. A run is counted once per axis, from its first
//! cell in that direction.

use vstd::prelude::*;
use crate::grid::{cell_at, coordinate_of_slot, lemma_slot_cell, on_board, slot, Grid, CELLS};
use crate::hex::{axial, in_bounds, positions, Axial, HexCoordinate};
use crate::token::Token;

verus! {

/// Least number of cells in a run that is cleared.
pub const MIN_RUN: usize = 3;

/// No straight line of cells on the board is longer than this.
pub const SPAN: i32 = 12;

/// The position `k` steps from `a` along `axis`.
pub open spec fn along(a: Axial, axis: int, k: int) -> Axial {
    if axis == 0 {
        axial(a.q + k, a.r)
    } else if axis == 1 {
        axial(a.q, a.r + k)
    } else {
        axial(a.q + k, a.r - k)
    }
}

/// Whether `a` and `b` both hold a token, and the same one.
pub open spec fn same_token(m: Map<Axial, Token>, a: Axial, b: Axial) -> bool {
    m.dom().contains(a) && m.dom().contains(b) && m[a] == m[b]
}

/// Given that the `k` cells from `a` along `axis` hold one token, the number
/// of cells of the longest such stretch.
pub open spec fn extent(m: Map<Axial, Token>, a: Axial, axis: int, k: int) -> int
    decreases SPAN - k,
    when on_board(m)
    via extent_terminates
{
    if same_token(m, a, along(a, axis, k)) {
        extent(m, a, axis, k + 1)
    } else {
        k
    }
}

#[via_fn]
proof fn extent_terminates(m: Map<Axial, Token>, a: Axial, axis: int, k: int) {
    if same_token(m, a, along(a, axis, k)) {
        assert(in_bounds(a));
        assert(in_bounds(along(a, axis, k)));
    }
}

/// Number of cells, from `a` along `axis`, that hold the token of `a` without
/// a gap; zero where `a` is empty.
pub open spec fn run_length(m: Map<Axial, Token>, a: Axial, axis: int) -> int {
    if m.dom().contains(a) {
        extent(m, a, axis, 1)
    } else {
        0
    }
}

/// Whether a maximal run begins at `a`: `a` holds a token and the cell before
/// it on the axis does not hold the same.
pub open spec fn run_start(m: Map<Axial, Token>, a: Axial, axis: int) -> bool {
    m.dom().contains(a) && !same_token(m, a, along(a, axis, -1))
}

/// Whether the maximal run that begins at `a` along `axis` is long enough to
/// be cleared.
pub open spec fn scoring_start(m: Map<Axial, Token>, a: Axial, axis: int) -> bool {
    run_start(m, a, axis) && run_length(m, a, axis) >= MIN_RUN
}

/// The `n` cells from `a` along `axis`.
pub open spec fn run_cells(a: Axial, axis: int, n: int) -> Seq<Axial> {
    Seq::new(n as nat, |k: int| along(a, axis, k))
}

/// The scoring runs among the first `j` candidates. Candidates are ordered by
/// axis, then by the canonical order of their first cell.
pub open spec fn runs_upto(m: Map<Axial, Token>, j: int) -> Seq<Seq<Axial>>
    decreases j,
{
    if j <= 0 {
        Seq::<Seq<Axial>>::empty()
    } else {
        let axis = (j - 1) / (CELLS as int);
        let a = cell_at((j - 1) % (CELLS as int));
        if scoring_start(m, a, axis) {
            runs_upto(m, j - 1).push(run_cells(a, axis, run_length(m, a, axis)))
        } else {
            runs_upto(m, j - 1)
        }
    }
}

/// Every maximal run of at least three cells, in discovery order: by axis,
/// then by increasing column and row of the first cell.
pub open spec fn all_runs(m: Map<Axial, Token>) -> Seq<Seq<Axial>> {
    runs_upto(m, 3 * CELLS)
}

/// The cell lists named by a list of runs.
pub open spec fn run_lists(v: Seq<Vec<HexCoordinate>>) -> Seq<Seq<Axial>> {
    v.map_values(|r: Vec<HexCoordinate>| positions(r@))
}

/// Whether all `n` cells from `a` along `axis` hold the token of `a`.
pub open spec fn uniform(m: Map<Axial, Token>, a: Axial, axis: int, n: int) -> bool {
    forall|k: int| 0 <= k < n ==> same_token(m, a, #[trigger] along(a, axis, k))
}

/// A stretch of one token that starts on the board stays on it, so it has at
/// most `SPAN` cells.
pub proof fn lemma_stretch_bounded(m: Map<Axial, Token>, a: Axial, axis: int, k: int)
    requires
        on_board(m),
        0 <= k,
        same_token(m, a, along(a, axis, k)),
    ensures
        k < SPAN,
{
    assert(in_bounds(a));
    assert(in_bounds(along(a, axis, k)));
}

/// The extent is the exact length of the stretch: every cell before it holds
/// the token of `a`, and the cell at it does not.
pub proof fn lemma_extent(m: Map<Axial, Token>, a: Axial, axis: int, k: int)
    requires
        on_board(m),
        1 <= k,
        uniform(m, a, axis, k),
    ensures
        k <= extent(m, a, axis, k) <= SPAN,
        uniform(m, a, axis, extent(m, a, axis, k)),
        !same_token(m, a, along(a, axis, extent(m, a, axis, k))),
    decreases SPAN - k,
{
    assert(same_token(m, a, along(a, axis, k - 1)));
    lemma_stretch_bounded(m, a, axis, k - 1);
    if same_token(m, a, along(a, axis, k)) {
        lemma_stretch_bounded(m, a, axis, k);
        assert forall|j: int| 0 <= j < k + 1 implies same_token(m, a, #[trigger] along(a, axis, j)) by {
            if j < k {
            }
        }
        lemma_extent(m, a, axis, k + 1);
    }
}

/// The length of the run from an occupied cell: all its cells hold one token
/// and the next cell on the axis does not.
pub proof fn lemma_run_length(m: Map<Axial, Token>, a: Axial, axis: int)
    requires
        on_board(m),
        m.dom().contains(a),
    ensures
        1 <= run_length(m, a, axis) <= SPAN,
        uniform(m, a, axis, run_length(m, a, axis)),
        !same_token(m, a, along(a, axis, run_length(m, a, axis))),
{
    assert(along(a, axis, 0) == a);
    assert forall|j: int| 0 <= j < 1 implies same_token(m, a, #[trigger] along(a, axis, j)) by {
        assert(along(a, axis, j) == a);
    }
    lemma_extent(m, a, axis, 1);
}

/// Whether `run` is a maximal run of at least three cells of the board `m`:
/// the cells from some first cell along some axis, as far as its token goes.
pub open spec fn is_scoring_run(m: Map<Axial, Token>, run: Seq<Axial>) -> bool {
    exists|a: Axial, axis: int|
        0 <= axis < 3 && in_bounds(a) && #[trigger] scoring_start(m, a, axis) && run == run_cells(
            a,
            axis,
            run_length(m, a, axis),
        )
}

/// Whether some run of the list holds the cell `a`.
pub open spec fn covered(runs: Seq<Seq<Axial>>, a: Axial) -> bool {
    exists|i: int| 0 <= i < runs.len() && (#[trigger] runs[i]).contains(a)
}

/// What is found is a run: every entry of the list is a maximal run of at
/// least three cells.
pub proof fn lemma_runs_sound(m: Map<Axial, Token>, j: int)
    requires
        0 <= j <= 3 * CELLS,
    ensures
        forall|i: int|
            0 <= i < runs_upto(m, j).len() ==> is_scoring_run(m, #[trigger] runs_upto(m, j)[i]),
    decreases j,
{
    if j > 0 {
        lemma_runs_sound(m, j - 1);
        let axis = (j - 1) / (CELLS as int);
        let a = cell_at((j - 1) % (CELLS as int));
        lemma_slot_cell(a, (j - 1) % (CELLS as int));
        let prev = runs_upto(m, j - 1);
        assert forall|i: int| 0 <= i < runs_upto(m, j).len() implies is_scoring_run(
            m,
            #[trigger] runs_upto(m, j)[i],
        ) by {
            if i < prev.len() {
                assert(runs_upto(m, j)[i] == prev[i]);
            } else {
                assert(scoring_start(m, a, axis));
            }
        }
    }
}

/// Every run is found: the maximal run from any first cell of the board
/// along any axis is in the list if it has at least three cells.
pub proof fn lemma_runs_complete(m: Map<Axial, Token>, a: Axial, axis: int, j: int)
    requires
        0 <= axis < 3,
        in_bounds(a),
        scoring_start(m, a, axis),
        axis * CELLS + slot(a) < j <= 3 * CELLS,
    ensures
        runs_upto(m, j).contains(run_cells(a, axis, run_length(m, a, axis))),
    decreases j,
{
    let here = axis * CELLS + slot(a) + 1;
    lemma_slot_cell(a, 0);
    let prev = runs_upto(m, j - 1);
    let run = run_cells(a, axis, run_length(m, a, axis));
    if j == here {
        assert((j - 1) / (CELLS as int) == axis);
        assert((j - 1) % (CELLS as int) == slot(a));
        assert(runs_upto(m, j) == prev.push(run));
        assert(runs_upto(m, j)[prev.len() as int] == run);
    } else {
        lemma_runs_complete(m, a, axis, j - 1);
        let k = choose|k: int| 0 <= k < prev.len() && prev[k] == run;
        assert(runs_upto(m, j)[k] == run);
    }
}

/// The shape of a run: at least three cells in a straight line, all on the
/// board, all holding one token, with a different content before the first
/// and after the last cell.
pub proof fn lemma_scoring_run_shape(m: Map<Axial, Token>, a: Axial, axis: int)
    requires
        on_board(m),
        scoring_start(m, a, axis),
    ensures
        MIN_RUN <= run_length(m, a, axis) <= SPAN,
        uniform(m, a, axis, run_length(m, a, axis)),
        !same_token(m, a, along(a, axis, -1)),
        !same_token(m, a, along(a, axis, run_length(m, a, axis))),
        forall|k: int|
            0 <= k < run_length(m, a, axis) ==> in_bounds(#[trigger] along(a, axis, k)),
{
    lemma_run_length(m, a, axis);
    assert forall|k: int| 0 <= k < run_length(m, a, axis) implies in_bounds(
        #[trigger] along(a, axis, k),
    ) by {
        assert(same_token(m, a, along(a, axis, k)));
    }
}

/// Whether `a` is one of three cells in a row along `axis` that hold one
/// token: the last, the middle or the first of them.
pub open spec fn in_line_of_three(m: Map<Axial, Token>, a: Axial, axis: int) -> bool {
    ||| same_token(m, a, along(a, axis, -2)) && same_token(m, a, along(a, axis, -1))
    ||| same_token(m, a, along(a, axis, -1)) && same_token(m, a, along(a, axis, 1))
    ||| same_token(m, a, along(a, axis, 1)) && same_token(m, a, along(a, axis, 2))
}

/// Whether `a` is part of a match: one of three equal tokens in a row along
/// one of the three axes.
pub open spec fn matched(m: Map<Axial, Token>, a: Axial) -> bool {
    in_line_of_three(m, a, 0) || in_line_of_three(m, a, 1) || in_line_of_three(m, a, 2)
}

/// The first cell of the stretch of one token that `a` lies in, looking
/// back from `a` against the direction of `axis`.
pub open spec fn first_cell(m: Map<Axial, Token>, a: Axial, axis: int) -> Axial
    decreases
            if axis == 1 {
                a.r
            } else {
                a.q
            },
    when on_board(m)
    via first_cell_terminates
{
    if same_token(m, a, along(a, axis, -1)) {
        first_cell(m, along(a, axis, -1), axis)
    } else {
        a
    }
}

#[via_fn]
proof fn first_cell_terminates(m: Map<Axial, Token>, a: Axial, axis: int) {
    if same_token(m, a, along(a, axis, -1)) {
        assert(in_bounds(a));
        assert(in_bounds(along(a, axis, -1)));
    }
}

/// A stretch that is known to hold one token for `k` cells has at least `k`
/// cells.
pub proof fn lemma_uniform_run(m: Map<Axial, Token>, a: Axial, axis: int, k: int)
    requires
        on_board(m),
        1 <= k,
        uniform(m, a, axis, k),
    ensures
        run_length(m, a, axis) == extent(m, a, axis, k),
        k <= run_length(m, a, axis),
    decreases k,
{
    assert(same_token(m, a, along(a, axis, 0)));
    if k > 1 {
        assert forall|j: int| 0 <= j < k - 1 implies same_token(m, a, #[trigger] along(a, axis, j)) by {}
        lemma_uniform_run(m, a, axis, k - 1);
        assert(same_token(m, a, along(a, axis, k - 1)));
        lemma_stretch_bounded(m, a, axis, k - 1);
    }
    lemma_extent(m, a, axis, k);
}

/// Looking back from an occupied cell finds the start of a maximal run
/// that reaches the cell without a gap.
pub proof fn lemma_first_cell(m: Map<Axial, Token>, a: Axial, axis: int)
    requires
        on_board(m),
        0 <= axis < 3,
        m.dom().contains(a),
    ensures
        run_start(m, first_cell(m, a, axis), axis),
        in_bounds(first_cell(m, a, axis)),
        exists|d: int|
            0 <= d < SPAN && a == #[trigger] along(first_cell(m, a, axis), axis, d) && uniform(
                m,
                first_cell(m, a, axis),
                axis,
                d + 1,
            ),
    decreases
            if axis == 1 {
                a.r
            } else {
                a.q
            },
{
    assert(in_bounds(a));
    let b = along(a, axis, -1);
    if same_token(m, a, b) {
        assert(in_bounds(b));
        lemma_first_cell(m, b, axis);
        let s = first_cell(m, b, axis);
        assert(first_cell(m, a, axis) == s);
        let d = choose|d: int|
            0 <= d < SPAN && b == #[trigger] along(s, axis, d) && uniform(m, s, axis, d + 1);
        assert(a == along(s, axis, d + 1));
        assert(same_token(m, s, along(s, axis, d)));
        assert forall|k: int| 0 <= k < d + 2 implies same_token(m, s, #[trigger] along(s, axis, k)) by {
            if k == d + 1 {
                assert(along(s, axis, k) == a);
            }
        }
        assert(same_token(m, s, along(s, axis, d + 1)));
        lemma_stretch_bounded(m, s, axis, d + 1);
    } else {
        assert(first_cell(m, a, axis) == a);
        assert(a == along(a, axis, 0));
        assert forall|k: int| 0 <= k < 1 implies same_token(m, a, #[trigger] along(a, axis, k)) by {
            assert(along(a, axis, k) == a);
        }
    }
}

/// A cell belongs to a run that is found exactly when it is part of a
/// match: the runs together cover the cells that stand three or more in a
/// row, and no others.
pub proof fn lemma_covered_iff_matched(m: Map<Axial, Token>, a: Axial)
    requires
        on_board(m),
    ensures
        covered(all_runs(m), a) <==> matched(m, a),
{
    let runs = all_runs(m);
    if covered(runs, a) {
        let i = choose|i: int| 0 <= i < runs.len() && (#[trigger] runs[i]).contains(a);
        lemma_runs_sound(m, 3 * CELLS);
        assert(is_scoring_run(m, runs[i]));
        let (s, axis) = choose|s: Axial, axis: int|
            0 <= axis < 3 && in_bounds(s) && #[trigger] scoring_start(m, s, axis) && runs[i]
                == run_cells(s, axis, run_length(m, s, axis));
        lemma_run_length(m, s, axis);
        let k = choose|k: int| 0 <= k < runs[i].len() && runs[i][k] == a;
        assert(a == along(s, axis, k));
        assert(same_token(m, s, along(s, axis, k)));
        if k >= 2 {
            assert(same_token(m, s, along(s, axis, k - 1)));
            assert(same_token(m, s, along(s, axis, k - 2)));
            assert(along(a, axis, -1) == along(s, axis, k - 1));
            assert(along(a, axis, -2) == along(s, axis, k - 2));
        } else if k == 1 {
            assert(same_token(m, s, along(s, axis, 0)));
            assert(same_token(m, s, along(s, axis, 2)));
            assert(along(a, axis, -1) == along(s, axis, 0));
            assert(along(a, axis, 1) == along(s, axis, 2));
        } else {
            assert(same_token(m, s, along(s, axis, 1)));
            assert(same_token(m, s, along(s, axis, 2)));
            assert(along(a, axis, 1) == along(s, axis, 1));
            assert(along(a, axis, 2) == along(s, axis, 2));
        }
        assert(in_line_of_three(m, a, axis));
    }
    if matched(m, a) {
        let axis: int = if in_line_of_three(m, a, 0) {
            0
        } else if in_line_of_three(m, a, 1) {
            1
        } else {
            2
        };
        assert(in_line_of_three(m, a, axis));
        lemma_match_is_covered(m, a, axis);
    }
}

proof fn lemma_match_is_covered(m: Map<Axial, Token>, a: Axial, axis: int)
    requires
        on_board(m),
        0 <= axis < 3,
        in_line_of_three(m, a, axis),
    ensures
        covered(all_runs(m), a),
{
    lemma_first_cell(m, a, axis);
    let s = first_cell(m, a, axis);
    let d = choose|d: int|
        0 <= d < SPAN && a == #[trigger] along(s, axis, d) && uniform(m, s, axis, d + 1);
    assert(same_token(m, s, along(s, axis, d)));
    // How far the match reaches beyond `a`, and how far `a` must lie from the start.
    let ahead: int = if same_token(m, a, along(a, axis, 1)) && same_token(m, a, along(a, axis, 2)) {
        2
    } else if same_token(m, a, along(a, axis, 1)) {
        1
    } else {
        0
    };
    if ahead < 2 {
        assert(same_token(m, a, along(a, axis, -1)));
        assert(d >= 1) by {
            if d == 0 {
                assert(along(s, axis, -1) == along(a, axis, -1));
            }
        }
    }
    if ahead == 0 {
        assert(same_token(m, a, along(a, axis, -2)));
        assert(d >= 2) by {
            if d == 1 {
                assert(along(s, axis, 0) == along(a, axis, -1));
                assert(along(s, axis, -1) == along(a, axis, -2));
                assert(same_token(m, s, along(s, axis, 0)));
            }
        }
    }
    let n = d + 1 + ahead;
    assert(n >= 3);
    assert forall|k: int| 0 <= k < n implies same_token(m, s, #[trigger] along(s, axis, k)) by {
        if k > d {
            assert(along(s, axis, k) == along(a, axis, k - d));
        }
    }
    lemma_uniform_run(m, s, axis, n);
    lemma_run_length(m, s, axis);
    let len = run_length(m, s, axis);
    lemma_runs_complete(m, s, axis, 3 * CELLS);
    let run = run_cells(s, axis, len);
    assert(run[d] == a);
    let i = choose|i: int| 0 <= i < all_runs(m).len() && all_runs(m)[i] == run;
    assert(all_runs(m)[i].contains(a));
}

/// The coordinate `k` steps from `c` along `axis`.
fn stepped(c: HexCoordinate, axis: u8, k: i32) -> (d: HexCoordinate)
    requires
        in_bounds(c@),
        axis < 3,
        -1 <= k <= SPAN,
    ensures
        d@ == along(c@, axis as int, k as int),
{
    if axis == 0 {
        HexCoordinate { q: c.q + k, r: c.r }
    } else if axis == 1 {
        HexCoordinate { q: c.q, r: c.r + k }
    } else {
        HexCoordinate { q: c.q + k, r: c.r - k }
    }
}

/// Whether `d` holds the token `t`.
fn holds(grid: &Grid, d: HexCoordinate, t: Token) -> (b: bool)
    ensures
        b == (grid@.dom().contains(d@) && grid@[d@] == t),
{
    match grid.get(d) {
        Some(u) => u == t,
        None => false,
    }
}

/// The maximal run that begins at `c` along `axis`, if one begins there and
/// has at least three cells.
fn run_at(grid: &Grid, c: HexCoordinate, axis: u8) -> (found: Option<Vec<HexCoordinate>>)
    requires
        in_bounds(c@),
        axis < 3,
    ensures
        found is Some <==> scoring_start(grid@, c@, axis as int),
        found is Some ==> positions(found->0@) == run_cells(
            c@,
            axis as int,
            run_length(grid@, c@, axis as int),
        ),
{
    proof {
        grid.lemma_on_board();
    }
    let t: Token = match grid.get(c) {
        Some(t) => t,
        None => {
            return None;
        },
    };
    if holds(grid, stepped(c, axis, -1), t) {
        return None;
    }
    let mut cells: Vec<HexCoordinate> = Vec::new();
    cells.push(c);
    let mut k: i32 = 1;
    proof {
        assert(along(c@, axis as int, 0) == c@);
        assert(positions(cells@) =~= run_cells(c@, axis as int, 1));
        lemma_run_length(grid@, c@, axis as int);
    }
    while k < SPAN && holds(grid, stepped(c, axis, k), t)
        invariant
            on_board(grid@),
            in_bounds(c@),
            axis < 3,
            grid@.dom().contains(c@),
            grid@[c@] == t,
            1 <= k <= SPAN,
            extent(grid@, c@, axis as int, k as int) == run_length(grid@, c@, axis as int),
            positions(cells@) == run_cells(c@, axis as int, k as int),
        decreases SPAN - k,
    {
        let ghost before = positions(cells@);
        cells.push(stepped(c, axis, k));
        assert(positions(cells@) =~= before.push(along(c@, axis as int, k as int)));
        assert(run_cells(c@, axis as int, k + 1) =~= run_cells(c@, axis as int, k as int).push(
            along(c@, axis as int, k as int),
        ));
        k = k + 1;
    }
    proof {
        if k == SPAN {
            if same_token(grid@, c@, along(c@, axis as int, k as int)) {
                lemma_stretch_bounded(grid@, c@, axis as int, k as int);
            }
        }
        assert(run_length(grid@, c@, axis as int) == k);
    }
    if k >= 3 {
        Some(cells)
    } else {
        None
    }
}

/// The detector of runs on a grid.
pub struct MatchDetector;

impl MatchDetector {
    /// Every maximal run of at least three equal tokens along one of the three
    /// axes, in discovery order: by axis, then by increasing column and row of
    /// the run's first cell. Each run lists its cells from the first on.
    pub fn find_runs(grid: &Grid) -> (runs: Vec<Vec<HexCoordinate>>)
        ensures
            run_lists(runs@) == all_runs(grid@),
    {
        let mut runs: Vec<Vec<HexCoordinate>> = Vec::new();
        let mut axis: u8 = 0;
        assert(run_lists(runs@) =~= runs_upto(grid@, 0));
        while axis < 3
            invariant
                axis <= 3,
                run_lists(runs@) == runs_upto(grid@, axis * CELLS),
            decreases 3 - axis,
        {
            let mut i: usize = 0;
            while i < CELLS
                invariant
                    axis < 3,
                    i <= CELLS,
                    run_lists(runs@) == runs_upto(grid@, axis * CELLS + i),
                decreases CELLS - i,
            {
                let c: HexCoordinate = coordinate_of_slot(i);
                let ghost j: int = axis * CELLS + i + 1;
                assert((j - 1) / (CELLS as int) == axis && (j - 1) % (CELLS as int) == i);
                match run_at(grid, c, axis) {
                    Some(cells) => {
                        let ghost before = run_lists(runs@);
                        let ghost listed = positions(cells@);
                        runs.push(cells);
                        assert(run_lists(runs@) =~= before.push(listed));
                    },
                    None => {},
                }
                i = i + 1;
            }
            axis = axis + 1;
        }
        runs
    }
}

} // verus!
