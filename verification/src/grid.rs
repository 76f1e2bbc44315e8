//! The board: which cells hold a locked token, and which token.
//!
//! A `Grid` is read as a map from lattice positions to tokens whose keys all
//! lie on the board. Cells are also numbered column by column, bottom to
//! top, which gives every scan of the board one canonical order.

use vstd::prelude::*;
use crate::hex::{axial, in_bounds, Axial, HexCoordinate, HEIGHT};
use crate::token::Token;

verus! {

/// Number of cells of the board: one for every column and row.
pub const CELLS: usize = 96;

/// Why a grid operation was refused.
#[derive(Clone, Copy, Debug, PartialEq, Eq, Structural)]
pub enum GridError {
    /// The coordinate does not lie on the board.
    InvalidCoordinate,
}

/// The locked tokens of the board.
#[derive(Clone, Copy, Debug)]
pub struct Grid {
    cells: [Option<Token>; CELLS],
}

/// Number of the cell at `a` in the canonical order: columns left to right,
/// each from the bottom row up.
pub open spec fn slot(a: Axial) -> int {
    a.q * HEIGHT + a.r
}

/// The cell with number `i`.
pub open spec fn cell_at(i: int) -> Axial {
    axial(i / (HEIGHT as int), i % (HEIGHT as int))
}

/// Whether every key of `m` lies on the board.
pub open spec fn on_board(m: Map<Axial, Token>) -> bool {
    forall|a: Axial| m.dom().contains(a) ==> in_bounds(a)
}

/// How many of the first `n` cells of the canonical order belong to `s`.
pub open spec fn count_in(s: Set<Axial>, n: int) -> int
    decreases n,
{
    if n <= 0 {
        0
    } else {
        count_in(s, n - 1) + if s.contains(cell_at(n - 1)) {
            1int
        } else {
            0int
        }
    }
}

/// Number of occupied cells of a board.
pub open spec fn cell_count(m: Map<Axial, Token>) -> int {
    m.dom().len() as int
}

/// The members of `s` among the first `n` cells of the canonical order.
pub open spec fn first_cells(s: Set<Axial>, n: int) -> Set<Axial> {
    Set::new(|a: Axial| s.contains(a) && in_bounds(a) && slot(a) < n)
}

/// The occupied cells among the first `n` of the canonical order, each with
/// its token, in that order.
pub open spec fn listing_upto(m: Map<Axial, Token>, n: int) -> Seq<(Axial, Token)>
    decreases n,
{
    if n <= 0 {
        Seq::<(Axial, Token)>::empty()
    } else if m.dom().contains(cell_at(n - 1)) {
        listing_upto(m, n - 1).push((cell_at(n - 1), m[cell_at(n - 1)]))
    } else {
        listing_upto(m, n - 1)
    }
}

/// Every occupied cell of the board with its token, in canonical order.
pub open spec fn listing(m: Map<Axial, Token>) -> Seq<(Axial, Token)> {
    listing_upto(m, CELLS as int)
}

/// The positions and tokens named by a list of cells.
pub open spec fn cell_views(v: Seq<(HexCoordinate, Token)>) -> Seq<(Axial, Token)> {
    v.map_values(|e: (HexCoordinate, Token)| (e.0@, e.1))
}

impl View for Grid {
    type V = Map<Axial, Token>;

    closed spec fn view(&self) -> Map<Axial, Token> {
        Map::new(
            |a: Axial| in_bounds(a) && self.cells@[slot(a)] is Some,
            |a: Axial| self.cells@[slot(a)]->0,
        )
    }
}

/// Numbering the cells and reading a number back are inverse to each other.
pub proof fn lemma_slot_cell(a: Axial, i: int)
    ensures
        in_bounds(a) ==> 0 <= slot(a) < CELLS && cell_at(slot(a)) == a,
        0 <= i < CELLS ==> in_bounds(cell_at(i)) && slot(cell_at(i)) == i,
{
}

/// Counting along the canonical order gives the size of the set counted.
pub proof fn lemma_count_prefix(s: Set<Axial>, n: int)
    requires
        0 <= n <= CELLS,
    ensures
        first_cells(s, n).finite(),
        first_cells(s, n).len() == count_in(s, n),
    decreases n,
{
    if n == 0 {
        assert forall|a: Axial| in_bounds(a) implies slot(a) >= 0 by {
            lemma_slot_cell(a, 0);
        }
        assert(first_cells(s, 0) =~= Set::<Axial>::empty());
    } else {
        lemma_count_prefix(s, n - 1);
        let c = cell_at(n - 1);
        lemma_slot_cell(c, n - 1);
        assert forall|a: Axial| in_bounds(a) && slot(a) == n - 1 implies a == c by {
            lemma_slot_cell(a, 0);
        }
        if s.contains(c) {
            assert(first_cells(s, n) =~= first_cells(s, n - 1).insert(c));
        } else {
            assert(first_cells(s, n) =~= first_cells(s, n - 1));
        }
    }
}

/// A set of cells of the board is finite, and its size is its count over
/// the whole board.
pub proof fn lemma_count_is_size(s: Set<Axial>)
    requires
        forall|a: Axial| s.contains(a) ==> in_bounds(a),
    ensures
        s.finite(),
        s.len() == count_in(s, CELLS as int),
{
    lemma_count_prefix(s, CELLS as int);
    assert forall|a: Axial| in_bounds(a) implies slot(a) < CELLS by {
        lemma_slot_cell(a, 0);
    }
    assert(first_cells(s, CELLS as int) =~= s);
}

/// The number of occupied cells of a board is its count over the board.
pub proof fn lemma_cell_count(m: Map<Axial, Token>)
    requires
        on_board(m),
    ensures
        m.dom().finite(),
        cell_count(m) == count_in(m.dom(), CELLS as int),
        0 <= cell_count(m) <= CELLS,
{
    lemma_count_is_size(m.dom());
    lemma_count_nonnegative(m.dom(), CELLS as int);
}

/// Taking a cell of the board out of a set lowers the count by one once the
/// cell is among those looked at.
pub proof fn lemma_count_remove(s: Set<Axial>, a: Axial, n: int)
    requires
        in_bounds(a),
        s.contains(a),
        n <= CELLS,
    ensures
        count_in(s.remove(a), n) == count_in(s, n) - if slot(a) < n {
            1int
        } else {
            0int
        },
    decreases n,
{
    if n > 0 {
        lemma_count_remove(s, a, n - 1);
        lemma_slot_cell(a, n - 1);
    } else {
        lemma_slot_cell(a, 0);
    }
}

/// Taking a subset away lowers the count by the count of the subset.
pub proof fn lemma_count_difference(t: Set<Axial>, s: Set<Axial>, n: int)
    requires
        forall|a: Axial| in_bounds(a) && s.contains(a) ==> t.contains(a),
        n <= CELLS,
    ensures
        count_in(t.difference(s), n) == count_in(t, n) - count_in(s, n),
    decreases n,
{
    if n > 0 {
        lemma_count_difference(t, s, n - 1);
        lemma_slot_cell(cell_at(n - 1), n - 1);
    }
}

/// Three members of a set at three different cells of the board are all
/// counted.
pub proof fn lemma_count_three(s: Set<Axial>, a: Axial, b: Axial, c: Axial)
    requires
        in_bounds(a) && in_bounds(b) && in_bounds(c),
        s.contains(a) && s.contains(b) && s.contains(c),
        slot(a) < slot(b) < slot(c),
    ensures
        count_in(s, CELLS as int) >= 3,
{
    lemma_slot_cell(a, 0);
    lemma_slot_cell(b, 0);
    lemma_slot_cell(c, 0);
    lemma_count_remove(s, c, CELLS as int);
    lemma_count_remove(s.remove(c), b, CELLS as int);
    lemma_count_remove(s.remove(c).remove(b), a, CELLS as int);
    lemma_count_nonnegative(s.remove(c).remove(b).remove(a), CELLS as int);
}

/// A count is never negative and never more than the number of cells
/// looked at.
pub proof fn lemma_count_nonnegative(s: Set<Axial>, n: int)
    ensures
        0 <= count_in(s, n),
        0 <= n ==> count_in(s, n) <= n,
    decreases n,
{
    if n > 0 {
        lemma_count_nonnegative(s, n - 1);
    }
}

/// A count grows with the number of cells looked at.
pub proof fn lemma_count_monotone(s: Set<Axial>, i: int, n: int)
    requires
        i <= n,
    ensures
        count_in(s, i) <= count_in(s, n),
    decreases n - i,
{
    lemma_count_nonnegative(s, n);
    lemma_count_nonnegative(s, i);
    if i < n {
        lemma_count_monotone(s, i, n - 1);
    }
}

/// A member of a set that is a cell of the board is counted.
pub proof fn lemma_count_member(s: Set<Axial>, a: Axial)
    requires
        in_bounds(a),
        s.contains(a),
    ensures
        count_in(s, CELLS as int) >= 1,
{
    lemma_slot_cell(a, 0);
    lemma_count_nonnegative(s, slot(a));
    lemma_count_monotone(s, slot(a) + 1, CELLS as int);
}

/// The coordinate of the cell with number `i`.
pub fn coordinate_of_slot(i: usize) -> (c: HexCoordinate)
    requires
        i < CELLS,
    ensures
        c@ == cell_at(i as int),
        in_bounds(c@),
{
    let rows: usize = HEIGHT as usize;
    HexCoordinate { q: (i / rows) as i32, r: (i % rows) as i32 }
}

impl Grid {
    /// The empty board.
    pub fn new() -> (g: Grid)
        ensures
            g@ == Map::<Axial, Token>::empty(),
    {
        let g = Grid { cells: [None; CELLS] };
        assert(g@ =~= Map::<Axial, Token>::empty());
        g
    }

    /// Every key of a grid lies on the board.
    pub proof fn lemma_on_board(&self)
        ensures
            on_board(self@),
    {
    }

    /// The token at `c`, or `None` where the cell is empty or off the board.
    pub fn get(&self, c: HexCoordinate) -> (t: Option<Token>)
        ensures
            t == (if self@.dom().contains(c@) {
                Some(self@[c@])
            } else {
                None
            }),
    {
        if c.is_valid() {
            let i: usize = (c.q * HEIGHT + c.r) as usize;
            self.cells[i]
        } else {
            None
        }
    }

    /// Whether `c` holds a token.
    pub fn is_occupied(&self, c: HexCoordinate) -> (b: bool)
        ensures
            b == self@.dom().contains(c@),
    {
        self.get(c).is_some()
    }

    /// Puts `t` at `c` and returns what the cell held before. A coordinate
    /// off the board is refused and the grid stays as it was.
    pub fn insert(&mut self, c: HexCoordinate, t: Token) -> (res: Result<Option<Token>, GridError>)
        ensures
            in_bounds(c@) ==> final(self)@ == old(self)@.insert(c@, t) && res == Ok::<
                Option<Token>,
                GridError,
            >(
                if old(self)@.dom().contains(c@) {
                    Some(old(self)@[c@])
                } else {
                    None
                },
            ),
            !in_bounds(c@) ==> final(self)@ == old(self)@ && res == Err::<Option<Token>, GridError>(
                GridError::InvalidCoordinate,
            ),
    {
        if c.is_valid() {
            let i: usize = (c.q * HEIGHT + c.r) as usize;
            let before: Option<Token> = self.cells[i];
            self.cells[i] = Some(t);
            proof {
                assert forall|a: Axial| in_bounds(a) && a != c@ implies slot(a) != slot(c@) by {}
                assert(self@ =~= old(self)@.insert(c@, t));
            }
            Ok(before)
        } else {
            Err(GridError::InvalidCoordinate)
        }
    }

    /// Empties `c` and returns the token it held. An empty cell or a
    /// coordinate off the board leaves the grid as it was.
    pub fn remove(&mut self, c: HexCoordinate) -> (t: Option<Token>)
        ensures
            final(self)@ == old(self)@.remove(c@),
            t == (if old(self)@.dom().contains(c@) {
                Some(old(self)@[c@])
            } else {
                None
            }),
    {
        if c.is_valid() {
            let i: usize = (c.q * HEIGHT + c.r) as usize;
            let before: Option<Token> = self.cells[i];
            self.cells[i] = None;
            proof {
                assert forall|a: Axial| in_bounds(a) && a != c@ implies slot(a) != slot(c@) by {}
                assert(self@ =~= old(self)@.remove(c@));
            }
            before
        } else {
            proof {
                assert(self@ =~= old(self)@.remove(c@));
            }
            None
        }
    }

    /// Number of occupied cells.
    pub fn len(&self) -> (n: usize)
        ensures
            n == cell_count(self@),
    {
        let mut n: usize = 0;
        let mut i: usize = 0;
        proof {
            lemma_cell_count(self@);
        }
        while i < CELLS
            invariant
                i <= CELLS,
                n <= i,
                n == count_in(self@.dom(), i as int),
            decreases CELLS - i,
        {
            proof {
                lemma_slot_cell(cell_at(i as int), i as int);
            }
            if self.cells[i].is_some() {
                n = n + 1;
            }
            i = i + 1;
        }
        n
    }

    /// Every occupied cell with its token, in canonical order: the content
    /// of the grid for whoever presents it.
    pub fn occupied_cells(&self) -> (out: Vec<(HexCoordinate, Token)>)
        ensures
            cell_views(out@) == listing(self@),
    {
        let mut out: Vec<(HexCoordinate, Token)> = Vec::new();
        let mut i: usize = 0;
        assert(cell_views(out@) =~= listing_upto(self@, 0));
        while i < CELLS
            invariant
                i <= CELLS,
                cell_views(out@) == listing_upto(self@, i as int),
            decreases CELLS - i,
        {
            let c: HexCoordinate = coordinate_of_slot(i);
            match self.get(c) {
                Some(t) => {
                    let ghost before = cell_views(out@);
                    out.push((c, t));
                    assert(cell_views(out@) =~= before.push((c@, t)));
                },
                None => {},
            }
            i = i + 1;
        }
        out
    }

    /// Whether no cell is occupied.
    pub fn is_empty(&self) -> (b: bool)
        ensures
            b == (self@ == Map::<Axial, Token>::empty()),
    {
        let mut i: usize = 0;
        while i < CELLS
            invariant
                i <= CELLS,
                forall|k: int| 0 <= k < i ==> !self@.dom().contains(#[trigger] cell_at(k)),
            decreases CELLS - i,
        {
            proof {
                lemma_slot_cell(cell_at(i as int), i as int);
            }
            if self.cells[i].is_some() {
                assert(self@.dom().contains(cell_at(i as int)));
                return false;
            }
            i = i + 1;
        }
        proof {
            assert forall|a: Axial| !self@.dom().contains(a) by {
                if in_bounds(a) {
                    lemma_slot_cell(a, 0);
                    assert(!self@.dom().contains(cell_at(slot(a))));
                }
            }
            assert(self@ =~= Map::<Axial, Token>::empty());
        }
        true
    }
}

} // verus!
