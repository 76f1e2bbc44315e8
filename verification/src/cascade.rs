//! The clear cascade: clear every run, let the rest fall, look again, until
//! no run is left.
//!
//! A round that clears `n` cells as the `k`-th round of a cascade (counting
//! from zero) is worth `10 * n * (k + 1)` points, so a later round of a chain
//! is worth more than the same clear on its own.

use vstd::prelude::*;
use crate::grid::{
    cell_count, lemma_cell_count, lemma_count_difference, lemma_count_is_size, lemma_count_three,
    on_board, Grid, CELLS,
};
use crate::hex::{in_bounds, positions, Axial, HexCoordinate};
use crate::matching::{
    all_runs, along, covered, is_scoring_run, lemma_covered_iff_matched, lemma_run_length,
    lemma_runs_sound, matched, run_cells, run_length, run_lists, same_token, scoring_start,
    MatchDetector, MIN_RUN,
};
use crate::support::{lemma_settled, settled, stable, SupportResolver};
use crate::token::Token;

verus! {

/// Points for one cleared cell in the first round of a cascade.
pub const POINTS_PER_CELL: u64 = 10;

/// The score counter. It never decreases, and stops at the largest value it
/// can hold.
#[derive(Clone, Copy, Debug)]
pub struct Score {
    points: u64,
}

impl View for Score {
    type V = int;

    closed spec fn view(&self) -> int {
        self.points as int
    }
}

/// The counter value after `gain` more points.
pub open spec fn credited(points: int, gain: int) -> int {
    if points + gain >= u64::MAX {
        u64::MAX as int
    } else {
        points + gain
    }
}

/// Points for a round that clears `cells` cells as round number `chain` of a
/// cascade, the first round being number 0.
pub open spec fn clear_score(cells: int, chain: int) -> int {
    POINTS_PER_CELL * cells * (chain + 1)
}

/// The cells that belong to at least one run of the board.
pub open spec fn cleared_set(m: Map<Axial, Token>) -> Set<Axial> {
    Set::new(|a: Axial| covered(all_runs(m), a))
}

/// The board without the cells of its runs.
pub open spec fn after_clear(m: Map<Axial, Token>) -> Map<Axial, Token> {
    m.remove_keys(cleared_set(m))
}

/// What a cascade comes to.
pub struct Cascade {
    /// The board at the end.
    pub board: Map<Axial, Token>,
    /// The points gained.
    pub gain: int,
    /// The number of rounds that cleared something.
    pub rounds: int,
    /// The number of cells cleared.
    pub cleared: int,
}

/// The cascade from board `m` whose next round has number `chain`: while the
/// board has runs, their cells are cleared and paid for, and the rest
/// settles.
pub open spec fn cascade(m: Map<Axial, Token>, chain: int) -> Cascade
    decreases cell_count(m),
    when on_board(m)
    via cascade_terminates
{
    if all_runs(m).len() == 0 {
        Cascade { board: m, gain: 0, rounds: 0, cleared: 0 }
    } else {
        let n = cleared_set(m).len() as int;
        let rest = cascade(settled(after_clear(m)), chain + 1);
        Cascade {
            board: rest.board,
            gain: clear_score(n, chain) + rest.gain,
            rounds: 1 + rest.rounds,
            cleared: n + rest.cleared,
        }
    }
}

#[via_fn]
proof fn cascade_terminates(m: Map<Axial, Token>, chain: int) {
    if all_runs(m).len() != 0 {
        lemma_clear_shrinks(m);
        lemma_settled(after_clear(m));
        lemma_cell_count(settled(after_clear(m)));
    }
}

/// Every cell of a run of the board holds a token.
pub proof fn lemma_cleared_occupied(m: Map<Axial, Token>, a: Axial)
    requires
        on_board(m),
        cleared_set(m).contains(a),
    ensures
        m.dom().contains(a),
{
    let runs = all_runs(m);
    let i = choose|i: int| 0 <= i < runs.len() && (#[trigger] runs[i]).contains(a);
    lemma_runs_sound(m, 3 * CELLS);
    assert(is_scoring_run(m, runs[i]));
    let (a0, axis) = choose|a0: Axial, axis: int|
        0 <= axis < 3 && in_bounds(a0) && #[trigger] scoring_start(m, a0, axis) && runs[i]
            == run_cells(a0, axis, run_length(m, a0, axis));
    lemma_run_length(m, a0, axis);
    let k = choose|k: int| 0 <= k < runs[i].len() && runs[i][k] == a;
    assert(same_token(m, a0, along(a0, axis, k)));
}

/// What a round clears is what is matched: a cell is cleared exactly when it
/// is one of three equal tokens in a row along an axis, and a board has no
/// run exactly when no cell of it is matched.
pub proof fn lemma_cleared_is_matched(m: Map<Axial, Token>)
    requires
        on_board(m),
    ensures
        forall|a: Axial| cleared_set(m).contains(a) <==> matched(m, a),
        all_runs(m).len() == 0 <==> (forall|a: Axial| !matched(m, a)),
{
    assert forall|a: Axial| cleared_set(m).contains(a) <==> matched(m, a) by {
        lemma_covered_iff_matched(m, a);
    }
    let runs = all_runs(m);
    if runs.len() > 0 {
        lemma_runs_sound(m, 3 * CELLS);
        assert(is_scoring_run(m, runs[0]));
        let (a0, axis) = choose|a0: Axial, axis: int|
            0 <= axis < 3 && in_bounds(a0) && #[trigger] scoring_start(m, a0, axis) && runs[0]
                == run_cells(a0, axis, run_length(m, a0, axis));
        assert(runs[0][0] == along(a0, axis, 0));
        assert(runs[0].contains(along(a0, axis, 0)));
        assert(cleared_set(m).contains(along(a0, axis, 0)));
        assert(matched(m, along(a0, axis, 0)));
    } else {
        assert forall|a: Axial| !matched(m, a) by {
            assert(!cleared_set(m).contains(a));
        }
    }
}

/// Clearing a board that has a run takes at least three tokens off it, and
/// exactly as many as there are cells in its runs.
pub proof fn lemma_clear_shrinks(m: Map<Axial, Token>)
    requires
        on_board(m),
        all_runs(m).len() > 0,
    ensures
        on_board(after_clear(m)),
        cleared_set(m).finite(),
        cleared_set(m).len() >= MIN_RUN,
        cell_count(after_clear(m)) == cell_count(m) - cleared_set(m).len(),
{
    let runs = all_runs(m);
    assert forall|a: Axial| cleared_set(m).contains(a) implies in_bounds(a) by {
        lemma_cleared_occupied(m, a);
    }
    lemma_count_is_size(cleared_set(m));
    lemma_cell_count(m);
    lemma_cell_count(after_clear(m));
    assert forall|a: Axial| in_bounds(a) && cleared_set(m).contains(a) implies m.dom().contains(
        a,
    ) by {
        lemma_cleared_occupied(m, a);
    }
    assert(after_clear(m).dom() =~= m.dom().difference(cleared_set(m)));
    lemma_count_difference(m.dom(), cleared_set(m), CELLS as int);
    lemma_runs_sound(m, 3 * CELLS);
    assert(is_scoring_run(m, runs[0]));
    let (a0, axis) = choose|a0: Axial, axis: int|
        0 <= axis < 3 && in_bounds(a0) && #[trigger] scoring_start(m, a0, axis) && runs[0]
            == run_cells(a0, axis, run_length(m, a0, axis));
    lemma_run_length(m, a0, axis);
    let b0 = along(a0, axis, 0);
    let b1 = along(a0, axis, 1);
    let b2 = along(a0, axis, 2);
    assert(same_token(m, a0, b0) && same_token(m, a0, b1) && same_token(m, a0, b2));
    assert(runs[0][0] == b0 && runs[0][1] == b1 && runs[0][2] == b2);
    assert(runs[0].contains(b0) && runs[0].contains(b1) && runs[0].contains(b2));
    lemma_count_three(cleared_set(m), b0, b1, b2);
}

/// A clear is worth more the more cells it takes, and more the later it
/// comes in a chain.
pub proof fn lemma_clear_score_grows(cells: int, more_cells: int, chain: int, later: int)
    requires
        0 <= cells <= more_cells,
        0 <= chain <= later,
    ensures
        0 <= clear_score(cells, chain) <= clear_score(more_cells, chain),
        clear_score(cells, chain) <= clear_score(cells, later),
        cells < more_cells ==> clear_score(cells, chain) < clear_score(more_cells, chain),
        0 < cells && chain < later ==> clear_score(cells, chain) < clear_score(cells, later),
        clear_score(MIN_RUN as int, 0) == 30,
{
    assert(0 <= cells * (chain + 1) <= more_cells * (chain + 1)) by (nonlinear_arith)
        requires
            0 <= cells <= more_cells,
            0 <= chain,
    ;
    assert(cells * (chain + 1) <= cells * (later + 1)) by (nonlinear_arith)
        requires
            0 <= cells,
            0 <= chain <= later,
    ;
    assert(cells < more_cells ==> cells * (chain + 1) < more_cells * (chain + 1))
        by (nonlinear_arith)
        requires
            0 <= cells <= more_cells,
            0 <= chain,
    ;
    assert(0 < cells && chain < later ==> cells * (chain + 1) < cells * (later + 1))
        by (nonlinear_arith)
        requires
            0 <= cells,
            0 <= chain <= later,
    ;
    assert(clear_score(cells, chain) == 10 * (cells * (chain + 1))) by (nonlinear_arith)
        requires
            clear_score(cells, chain) == 10 * cells * (chain + 1),
    ;
    assert(clear_score(more_cells, chain) == 10 * (more_cells * (chain + 1)))
        by (nonlinear_arith)
        requires
            clear_score(more_cells, chain) == 10 * more_cells * (chain + 1),
    ;
    assert(clear_score(cells, later) == 10 * (cells * (later + 1))) by (nonlinear_arith)
        requires
            clear_score(cells, later) == 10 * cells * (later + 1),
    ;
}

/// On a board without runs the cascade does nothing: the board stays as it
/// is and no points are gained.
pub proof fn lemma_cascade_without_runs(m: Map<Axial, Token>, chain: int)
    requires
        on_board(m),
        all_runs(m).len() == 0,
    ensures
        cascade(m, chain) == (Cascade { board: m, gain: 0, rounds: 0, cleared: 0 }),
{
}

/// On a board with runs the cascade is one round followed by the cascade
/// from the settled rest, one place further down the chain.
pub proof fn lemma_cascade_round(m: Map<Axial, Token>, chain: int)
    requires
        on_board(m),
        all_runs(m).len() > 0,
    ensures
        cascade(m, chain) == (Cascade {
            board: cascade(settled(after_clear(m)), chain + 1).board,
            gain: clear_score(cleared_set(m).len() as int, chain) + cascade(
                settled(after_clear(m)),
                chain + 1,
            ).gain,
            rounds: 1 + cascade(settled(after_clear(m)), chain + 1).rounds,
            cleared: cleared_set(m).len() + cascade(settled(after_clear(m)), chain + 1).cleared,
        }),
{
    lemma_clear_shrinks(m);
    lemma_settled(after_clear(m));
    lemma_cell_count(settled(after_clear(m)));
}

/// What every cascade comes to: a board without runs, on which every token
/// rests if every token rested before; at least three cells cleared in every
/// round, and exactly as many cleared as tokens are gone; at least thirty
/// points for every round.
pub proof fn lemma_cascade_outcome(m: Map<Axial, Token>, chain: int)
    requires
        on_board(m),
        0 <= chain,
    ensures
        on_board(cascade(m, chain).board),
        all_runs(cascade(m, chain).board).len() == 0,
        stable(m) ==> stable(cascade(m, chain).board),
        0 <= cascade(m, chain).rounds,
        MIN_RUN * cascade(m, chain).rounds <= cascade(m, chain).cleared,
        cell_count(cascade(m, chain).board) == cell_count(m) - cascade(m, chain).cleared,
        30 * cascade(m, chain).rounds <= cascade(m, chain).gain,
    decreases cell_count(m),
{
    if all_runs(m).len() != 0 {
        lemma_clear_shrinks(m);
        lemma_settled(after_clear(m));
        lemma_cell_count(settled(after_clear(m)));
        lemma_cascade_outcome(settled(after_clear(m)), chain + 1);
        lemma_clear_score_grows(MIN_RUN as int, cleared_set(m).len() as int, chain, chain);
        lemma_clear_score_grows(MIN_RUN as int, MIN_RUN as int, 0, chain);
    }
}

/// A board whose only run has exactly three cells: the first round of the
/// cascade removes exactly those three cells and is worth thirty points, and
/// where the settled rest has no run that is the whole cascade.
pub proof fn lemma_cascade_single_run(m: Map<Axial, Token>, run: Seq<Axial>)
    requires
        on_board(m),
        all_runs(m) == seq![run],
        run.len() == 3,
    ensures
        m.dom().contains(run[0]) && m.dom().contains(run[1]) && m.dom().contains(run[2]),
        after_clear(m) == m.remove(run[0]).remove(run[1]).remove(run[2]),
        cell_count(after_clear(m)) == cell_count(m) - 3,
        cascade(m, 0).gain == 30 + cascade(settled(after_clear(m)), 1).gain,
        cascade(m, 0).cleared == 3 + cascade(settled(after_clear(m)), 1).cleared,
        all_runs(settled(after_clear(m))).len() == 0 ==> cascade(m, 0) == (Cascade {
            board: settled(after_clear(m)),
            gain: 30,
            rounds: 1,
            cleared: 3,
        }),
{
    let runs = all_runs(m);
    assert(runs[0] == run);
    lemma_runs_sound(m, 3 * CELLS);
    assert(is_scoring_run(m, runs[0]));
    let (a0, axis) = choose|a0: Axial, axis: int|
        0 <= axis < 3 && in_bounds(a0) && #[trigger] scoring_start(m, a0, axis) && runs[0]
            == run_cells(a0, axis, run_length(m, a0, axis));
    lemma_run_length(m, a0, axis);
    assert(run_length(m, a0, axis) == 3);
    let b0 = along(a0, axis, 0);
    let b1 = along(a0, axis, 1);
    let b2 = along(a0, axis, 2);
    assert(same_token(m, a0, b0) && same_token(m, a0, b1) && same_token(m, a0, b2));
    assert(run[0] == b0 && run[1] == b1 && run[2] == b2);
    assert forall|a: Axial| cleared_set(m).contains(a) <==> (a == b0 || a == b1 || a == b2) by {
        if a == b0 || a == b1 || a == b2 {
            assert(runs[0].contains(a));
        }
        if cleared_set(m).contains(a) {
            let i = choose|i: int| 0 <= i < runs.len() && (#[trigger] runs[i]).contains(a);
            let k = choose|k: int| 0 <= k < runs[i].len() && runs[i][k] == a;
        }
    }
    assert(after_clear(m) =~= m.remove(b0).remove(b1).remove(b2));
    lemma_clear_shrinks(m);
    assert(cleared_set(m) =~= Set::<Axial>::empty().insert(b0).insert(b1).insert(b2));
    assert(b0 != b1 && b1 != b2 && b0 != b2);
    assert(cleared_set(m).len() == 3);
    assert(clear_score(3, 0) == 30);
    assert(all_runs(m).len() == 1);
    lemma_cascade_round(m, 0);
    if all_runs(settled(after_clear(m))).len() == 0 {
        lemma_settled(after_clear(m));
        lemma_cascade_without_runs(settled(after_clear(m)), 1);
    }
}

impl Score {
    /// A counter at zero.
    pub fn new() -> (s: Score)
        ensures
            s@ == 0,
    {
        Score { points: 0 }
    }

    /// The points counted so far.
    pub fn value(&self) -> (v: u64)
        ensures
            v == self@,
    {
        self.points
    }

    /// Adds `gain` points, stopping at the largest value the counter holds.
    fn credit(&mut self, gain: u64)
        ensures
            final(self)@ == credited(old(self)@, gain as int),
            final(self)@ >= old(self)@,
    {
        if gain >= u64::MAX - self.points {
            self.points = u64::MAX;
        } else {
            self.points = self.points + gain;
        }
    }
}

/// Whether `a` is a cell of one of the first `i` runs of the list, or one of
/// the first `j` cells of run number `i`.
pub open spec fn covered_before(runs: Seq<Seq<Axial>>, i: int, j: int, a: Axial) -> bool {
    covered(runs.take(i), a) || (0 <= i < runs.len() && runs[i].take(j).contains(a))
}

/// What one cascade did.
#[derive(Clone, Copy, Debug, PartialEq, Eq, Structural)]
pub struct CascadeReport {
    /// Number of rounds that cleared something.
    pub rounds: u32,
    /// Number of cells cleared over all rounds.
    pub cleared: u32,
    /// Points gained over all rounds, before any capping of the counter.
    pub gained: u64,
}

/// Removes every cell of every listed run from the grid, each cell once
/// however many runs hold it, and returns the number of tokens removed.
pub fn clear_cells(grid: &mut Grid, runs: &Vec<Vec<HexCoordinate>>) -> (removed: usize)
    ensures
        final(grid)@ == old(grid)@.remove_keys(
            Set::new(|a: Axial| covered(run_lists(runs@), a)),
        ),
        removed == cell_count(old(grid)@) - cell_count(final(grid)@),
{
    let ghost lists = run_lists(runs@);
    let ghost start = grid@;
    let mut removed: usize = 0;
    let mut i: usize = 0;
    proof {
        grid.lemma_on_board();
        lemma_cell_count(start);
        assert(grid@ =~= start.remove_keys(Set::new(|a: Axial| covered_before(lists, 0, 0, a))));
    }
    while i < runs.len()
        invariant
            i <= runs.len(),
            lists == run_lists(runs@),
            on_board(start),
            grid@ == start.remove_keys(Set::new(|a: Axial| covered_before(lists, i as int, 0, a))),
            grid@.dom().finite(),
            removed + cell_count(grid@) == cell_count(start),
            cell_count(start) <= CELLS,
        decreases runs.len() - i,
    {
        let run: &Vec<HexCoordinate> = &runs[i];
        let mut j: usize = 0;
        while j < run.len()
            invariant
                i < runs.len(),
                j <= run.len(),
                run == &runs[i as int],
                lists == run_lists(runs@),
                on_board(start),
                grid@ == start.remove_keys(
                    Set::new(|a: Axial| covered_before(lists, i as int, j as int, a)),
                ),
                grid@.dom().finite(),
                removed + cell_count(grid@) == cell_count(start),
                cell_count(start) <= CELLS,
            decreases run.len() - j,
        {
            let c: HexCoordinate = run[j];
            let ghost before = grid@;
            let taken: Option<Token> = grid.remove(c);
            proof {
                assert(lists[i as int] == positions(run@));
                assert(lists[i as int][j as int] == c@);
                assert forall|a: Axial|
                    covered_before(lists, i as int, j + 1, a) <==> (covered_before(
                        lists,
                        i as int,
                        j as int,
                        a,
                    ) || a == c@) by {
                    let row = lists[i as int];
                    let shorter = row.take(j as int);
                    let longer = row.take(j + 1);
                    if longer.contains(a) {
                        let k = choose|k: int| 0 <= k < longer.len() && longer[k] == a;
                        if k < j {
                            assert(shorter[k] == a);
                        }
                    }
                    if shorter.contains(a) {
                        let k = choose|k: int| 0 <= k < shorter.len() && shorter[k] == a;
                        assert(longer[k] == a);
                    }
                    if a == c@ {
                        assert(longer[j as int] == a);
                    }
                }
                assert(grid@ =~= start.remove_keys(
                    Set::new(|a: Axial| covered_before(lists, i as int, j + 1, a)),
                ));
                grid.lemma_on_board();
                lemma_cell_count(grid@);
                if taken is Some {
                    assert(in_bounds(c@));
                    assert(before.dom().finite());
                    assert(grid@.dom() =~= before.dom().remove(c@));
                } else {
                    assert(grid@ =~= before);
                }
            }
            if taken.is_some() {
                removed = removed + 1;
            }
            j = j + 1;
        }
        proof {
            assert forall|a: Axial|
                covered_before(lists, i + 1, 0, a) <==> covered_before(
                    lists,
                    i as int,
                    j as int,
                    a,
                ) by {
                let row = lists[i as int];
                assert(row.take(j as int) =~= row);
                assert(lists.take(i + 1)[i as int] == row);
                if covered(lists.take(i + 1), a) {
                    let k = choose|k: int|
                        0 <= k < lists.take(i + 1).len() && (#[trigger] lists.take(
                            i + 1,
                        )[k]).contains(a);
                    if k < i {
                        assert(lists.take(i as int)[k].contains(a));
                    }
                }
                if covered(lists.take(i as int), a) {
                    let k = choose|k: int|
                        0 <= k < lists.take(i as int).len() && (#[trigger] lists.take(
                            i as int,
                        )[k]).contains(a);
                    assert(lists.take(i + 1)[k].contains(a));
                }
                if i + 1 < lists.len() {
                    assert(lists[i + 1].take(0) =~= Seq::<Axial>::empty());
                }
            }
            assert(grid@ =~= start.remove_keys(
                Set::new(|a: Axial| covered_before(lists, i + 1, 0, a)),
            ));
        }
        i = i + 1;
    }
    proof {
        assert(lists.take(i as int) =~= lists);
        assert(grid@ =~= start.remove_keys(Set::new(|a: Axial| covered(lists, a))));
    }
    removed
}

/// The engine that clears runs and lets the board resettle until no run is
/// left.
pub struct ClearCascadeEngine;

impl ClearCascadeEngine {
    /// Runs the cascade on `grid` to its end and adds the points to `score`.
    /// Each round clears the cells of every run at once, pays for them by
    /// the round's number, and lets the remaining tokens settle. A grid
    /// without runs is left as it is, and so is the score.
    pub fn run(grid: &mut Grid, score: &mut Score) -> (report: CascadeReport)
        ensures
            final(grid)@ == cascade(old(grid)@, 0).board,
            final(score)@ == credited(old(score)@, cascade(old(grid)@, 0).gain),
            final(score)@ >= old(score)@,
            report.rounds == cascade(old(grid)@, 0).rounds,
            report.cleared == cascade(old(grid)@, 0).cleared,
            report.gained == cascade(old(grid)@, 0).gain,
            all_runs(final(grid)@).len() == 0,
            all_runs(old(grid)@).len() == 0 ==> final(grid)@ == old(grid)@ && final(score)@ == old(
                score,
            )@,
            stable(old(grid)@) ==> stable(final(grid)@),
            cell_count(final(grid)@) == cell_count(old(grid)@) - report.cleared,
            MIN_RUN * report.rounds <= report.cleared,
    {
        let ghost start = grid@;
        let ghost start_score = score@;
        let ghost total = cascade(start, 0);
        let mut chain: u32 = 0;
        let mut cleared: u32 = 0;
        let mut gained: u64 = 0;
        proof {
            grid.lemma_on_board();
            lemma_cell_count(start);
            lemma_cascade_outcome(start, 0);
        }
        loop
            invariant
                on_board(grid@),
                total == cascade(start, 0),
                cascade(grid@, chain as int).board == total.board,
                gained + cascade(grid@, chain as int).gain == total.gain,
                chain + cascade(grid@, chain as int).rounds == total.rounds,
                cleared + cascade(grid@, chain as int).cleared == total.cleared,
                score@ == credited(start_score, gained as int),
                score@ >= start_score,
                3 * chain + cell_count(grid@) <= cell_count(start),
                cleared + cell_count(grid@) == cell_count(start),
                cell_count(start) <= CELLS,
                0 <= cell_count(grid@),
                gained <= 100000 * chain,
                chain == 0 ==> grid@ == start && score@ == start_score,
                chain > 0 ==> all_runs(start).len() > 0,
            ensures
                grid@ == total.board,
                score@ == credited(start_score, total.gain),
                score@ >= start_score,
                chain == total.rounds,
                cleared == total.cleared,
                gained == total.gain,
                all_runs(grid@).len() == 0,
                all_runs(start).len() == 0 ==> grid@ == start && score@ == start_score,
            decreases cell_count(grid@),
        {
            let ghost m = grid@;
            let runs: Vec<Vec<HexCoordinate>> = MatchDetector::find_runs(grid);
            if runs.len() == 0 {
                break ;
            }
            proof {
                lemma_clear_shrinks(m);
                lemma_settled(after_clear(m));
                lemma_cell_count(settled(after_clear(m)));
                lemma_cell_count(m);
            }
            let n: usize = clear_cells(grid, &runs);
            assert(grid@ == after_clear(m)) by {
                assert(Set::new(|a: Axial| covered(run_lists(runs@), a)) =~= cleared_set(m));
            }
            assert(n == cleared_set(m).len());
            assert(3 <= n <= 96 && chain <= 32);
            let per_round: u64 = POINTS_PER_CELL * (n as u64);
            assert(per_round * (chain + 1) <= 100000) by (nonlinear_arith)
                requires
                    0 <= per_round <= 960,
                    0 <= chain <= 32,
            ;
            let points: u64 = per_round * (chain as u64 + 1);
            assert(points == clear_score(n as int, chain as int)) by (nonlinear_arith)
                requires
                    points == per_round * (chain + 1),
                    per_round == 10 * n,
                    clear_score(n as int, chain as int) == 10 * n * (chain + 1),
            ;
            score.credit(points);
            let _ = SupportResolver::settle(grid);
            proof {
                grid.lemma_on_board();
            }
            gained = gained + points;
            cleared = cleared + n as u32;
            chain = chain + 1;
        }
        CascadeReport { rounds: chain, cleared, gained }
    }
}

} // verus!
