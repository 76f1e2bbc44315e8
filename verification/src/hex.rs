//! Axial hex coordinates: bounds, neighbours, and the exact correspondence
//! between lattice cells and world-space lattice points.
//!
//! World positions are kept on an integer lattice so that the mapping and its
//! inverse are exact. One horizontal unit is a quarter of a hexagon's width
//! (`size * sqrt(3) / 4`) and one vertical unit is a quarter of its
//! circumradius (`size / 4`), so the centre of cell `(q, r)` lies at
//! `x = size * sqrt(3) * (q + r / 2)`, `y = size * 1.5 * r`, shifted so that the
//! centre of the board is the origin.

use vstd::prelude::*;

verus! {

/// Number of columns of the board.
pub const WIDTH: i32 = 8;

/// Number of rows of the board. Row 0 is the bottom row.
pub const HEIGHT: i32 = 12;

/// Horizontal shift that centres the board on the world origin.
pub const ORIGIN_X: i32 = 2 * (WIDTH - 1) + (HEIGHT - 1);

/// Vertical shift that centres the board on the world origin.
pub const ORIGIN_Y: i32 = 3 * (HEIGHT - 1);

/// A lattice position with unbounded integer components: the mathematical
/// value of a [`HexCoordinate`].
pub struct Axial {
    pub q: int,
    pub r: int,
}

/// A point of the world lattice with unbounded integer components: the
/// mathematical value of a [`WorldPoint`].
pub struct WorldPos {
    pub x: int,
    pub y: int,
}

/// Axial address of a cell: column `q`, row `r`. Any pair is representable;
/// whether it lies on the board is a separate test.
#[derive(Clone, Copy, Debug, PartialEq, Eq, Structural)]
pub struct HexCoordinate {
    pub q: i32,
    pub r: i32,
}

/// A point of world space, in lattice units.
#[derive(Clone, Copy, Debug, PartialEq, Eq, Structural)]
pub struct WorldPoint {
    pub x: i64,
    pub y: i64,
}

impl View for HexCoordinate {
    type V = Axial;

    open spec fn view(&self) -> Axial {
        Axial { q: self.q as int, r: self.r as int }
    }
}

impl View for WorldPoint {
    type V = WorldPos;

    open spec fn view(&self) -> WorldPos {
        WorldPos { x: self.x as int, y: self.y as int }
    }
}

/// The positions named by a list of coordinates.
pub open spec fn positions(v: Seq<HexCoordinate>) -> Seq<Axial> {
    v.map_values(|c: HexCoordinate| c@)
}

/// The position `(q, r)`.
pub open spec fn axial(q: int, r: int) -> Axial {
    Axial { q, r }
}

/// Whether a position lies on the board.
pub open spec fn in_bounds(a: Axial) -> bool {
    0 <= a.q < WIDTH && 0 <= a.r < HEIGHT
}

/// The `i`-th of the six neighbours of `a`, in the fixed order
/// `(+1, 0), (-1, 0), (0, +1), (0, -1), (+1, -1), (-1, +1)`.
pub open spec fn neighbor(a: Axial, i: int) -> Axial {
    if i == 0 {
        axial(a.q + 1, a.r)
    } else if i == 1 {
        axial(a.q - 1, a.r)
    } else if i == 2 {
        axial(a.q, a.r + 1)
    } else if i == 3 {
        axial(a.q, a.r - 1)
    } else if i == 4 {
        axial(a.q + 1, a.r - 1)
    } else {
        axial(a.q - 1, a.r + 1)
    }
}

/// Whether `b` is one of the six neighbours of `a`.
pub open spec fn adjacent(a: Axial, b: Axial) -> bool {
    exists|i: int| 0 <= i < 6 && #[trigger] neighbor(a, i) == b
}

/// World lattice point of the centre of cell `a`.
pub open spec fn world_of(a: Axial) -> WorldPos {
    WorldPos { x: 4 * a.q + 2 * a.r - ORIGIN_X, y: 6 * a.r - ORIGIN_Y }
}

/// Absolute value.
pub open spec fn magnitude(v: int) -> int {
    if v < 0 {
        -v
    } else {
        v
    }
}

/// Whether the world point `p` lies in the closed hexagon of cell `a`: at
/// most half a width to either side of the centre, and inside the four
/// slanted edges.
pub open spec fn cell_contains(a: Axial, p: WorldPos) -> bool {
    let c = world_of(a);
    magnitude(p.x - c.x) <= 2 && magnitude(p.x - c.x) + magnitude(p.y - c.y) <= 4
}

/// Column of the cell of row `r` whose centre is horizontally nearest to the
/// board-relative abscissa `xc`; of two equally near centres, the right one.
pub open spec fn nearest_column(xc: int, r: int) -> int {
    (xc - 2 * r + 2) / 4
}

/// The cell whose hexagon holds the world point `p`. A point on an edge
/// shared by two rows goes to the lower row, and one on an edge shared by two
/// cells of a row to the right one.
pub open spec fn hex_at(p: WorldPos) -> Axial {
    let xc = p.x + ORIGIN_X;
    let yc = p.y + ORIGIN_Y;
    let r0 = yc / 6;
    let q0 = nearest_column(xc, r0);
    if magnitude(xc - 2 * r0 - 4 * q0) + (yc - 6 * r0) <= 4 {
        axial(q0, r0)
    } else {
        axial(nearest_column(xc, r0 + 1), r0 + 1)
    }
}

/// Whether both components of a position fit a [`HexCoordinate`].
pub open spec fn representable(a: Axial) -> bool {
    i32::MIN <= a.q <= i32::MAX && i32::MIN <= a.r <= i32::MAX
}

impl HexCoordinate {
    /// The coordinate `(q, r)`.
    pub fn new(q: i32, r: i32) -> (c: HexCoordinate)
        ensures
            c@ == axial(q as int, r as int),
            c.q == q,
            c.r == r,
    {
        HexCoordinate { q, r }
    }

    /// Bounds test against the board's width and height.
    pub fn is_valid(&self) -> (b: bool)
        ensures
            b == in_bounds(self@),
    {
        0 <= self.q && self.q < WIDTH && 0 <= self.r && self.r < HEIGHT
    }

    /// The six neighbours in their fixed order, never filtered by bounds.
    /// The coordinate must leave room for a step of one in every direction.
    pub fn neighbors(&self) -> (out: [HexCoordinate; 6])
        requires
            i32::MIN < self.q < i32::MAX,
            i32::MIN < self.r < i32::MAX,
        ensures
            forall|i: int| 0 <= i < 6 ==> (#[trigger] out[i])@ == neighbor(self@, i),
    {
        [
            HexCoordinate { q: self.q + 1, r: self.r },
            HexCoordinate { q: self.q - 1, r: self.r },
            HexCoordinate { q: self.q, r: self.r + 1 },
            HexCoordinate { q: self.q, r: self.r - 1 },
            HexCoordinate { q: self.q + 1, r: self.r - 1 },
            HexCoordinate { q: self.q - 1, r: self.r + 1 },
        ]
    }

    /// World lattice point of the centre of this cell. The point leads back
    /// to the cell: it lies in the cell's hexagon and in no other.
    pub fn to_world(&self) -> (p: WorldPoint)
        ensures
            p@ == world_of(self@),
            hex_at(p@) == self@,
    {
        proof {
            lemma_world_round_trip(self@);
        }
        let q: i64 = self.q as i64;
        let r: i64 = self.r as i64;
        WorldPoint { x: 4 * q + 2 * r - ORIGIN_X as i64, y: 6 * r - ORIGIN_Y as i64 }
    }

    /// The cell whose hexagon holds the world point `p`: the inverse of
    /// [`HexCoordinate::to_world`], extended to every point of the plane.
    /// Returns `None` exactly when that cell's components do not fit the
    /// coordinate type.
    pub fn from_world(p: WorldPoint) -> (found: Option<HexCoordinate>)
        ensures
            representable(hex_at(p@)) ==> found is Some && found->0@ == hex_at(p@),
            !representable(hex_at(p@)) ==> found is None,
    {
        let xc: i128 = p.x as i128 + ORIGIN_X as i128;
        let yc: i128 = p.y as i128 + ORIGIN_Y as i128;
        let r0: i128 = floor_sixth(yc);
        let q0: i128 = floor_quarter(xc - 2 * r0 + 2);
        let dx: i128 = xc - 2 * r0 - 4 * q0;
        let spread: i128 = if dx < 0 {
            -dx
        } else {
            dx
        };
        let (q, r): (i128, i128) = if spread + (yc - 6 * r0) <= 4 {
            (q0, r0)
        } else {
            (floor_quarter(xc - 2 * (r0 + 1) + 2), r0 + 1)
        };
        if i32::MIN as i128 <= q && q <= i32::MAX as i128 && i32::MIN as i128 <= r && r
            <= i32::MAX as i128 {
            Some(HexCoordinate { q: q as i32, r: r as i32 })
        } else {
            None
        }
    }
}

/// A quarter of `n`, rounded toward negative infinity.
fn floor_quarter(n: i128) -> (k: i128)
    requires
        -0x1_0000_0000_0000_0000_0000 <= n <= 0x1_0000_0000_0000_0000_0000,
    ensures
        k == n as int / 4,
{
    let t: i128 = n / 4;
    if n % 4 < 0 {
        t - 1
    } else {
        t
    }
}

/// A sixth of `n`, rounded toward negative infinity.
fn floor_sixth(n: i128) -> (k: i128)
    requires
        -0x1_0000_0000_0000_0000_0000 <= n <= 0x1_0000_0000_0000_0000_0000,
    ensures
        k == n as int / 6,
{
    let t: i128 = n / 6;
    if n % 6 < 0 {
        t - 1
    } else {
        t
    }
}

/// Mapping a cell to its world point and back gives the cell again, for
/// every cell of the unbounded lattice and so for every cell of the board.
pub proof fn lemma_world_round_trip(a: Axial)
    ensures
        hex_at(world_of(a)) == a,
{
}

/// The cell found for a world point contains that point.
pub proof fn lemma_hex_at_contains(p: WorldPos)
    ensures
        cell_contains(hex_at(p), p),
{
}

/// Whether the world point `p` lies strictly inside the hexagon of cell `a`,
/// on none of its edges.
pub open spec fn cell_surrounds(a: Axial, p: WorldPos) -> bool {
    let c = world_of(a);
    magnitude(p.x - c.x) < 2 && magnitude(p.x - c.x) + magnitude(p.y - c.y) < 4
}

/// A world point strictly inside the hexagon of a cell is found in that cell
/// and in no other: the hexagons overlap on their edges only.
pub proof fn lemma_hex_at_inside(a: Axial, p: WorldPos)
    requires
        cell_surrounds(a, p),
    ensures
        hex_at(p) == a,
{
}

/// The six neighbours of a cell are pairwise distinct, and none is the cell
/// itself.
pub proof fn lemma_neighbors_distinct(a: Axial)
    ensures
        forall|i: int, j: int|
            0 <= i < 6 && 0 <= j < 6 && i != j ==> #[trigger] neighbor(a, i) != #[trigger] neighbor(
                a,
                j,
            ),
        forall|i: int| 0 <= i < 6 ==> #[trigger] neighbor(a, i) != a,
{
}

/// Index of the neighbour step opposite to step `i`.
pub open spec fn opposite(i: int) -> int {
    if i == 0 {
        1
    } else if i == 1 {
        0
    } else if i == 2 {
        3
    } else if i == 3 {
        2
    } else if i == 4 {
        5
    } else {
        4
    }
}

/// Adjacency is symmetric: every neighbour of a cell has that cell among its
/// own six neighbours, reached by the opposite step.
pub proof fn lemma_neighbors_symmetric(a: Axial, i: int)
    requires
        0 <= i < 6,
    ensures
        neighbor(neighbor(a, i), opposite(i)) == a,
        adjacent(neighbor(a, i), a),
        adjacent(a, neighbor(a, i)),
{
    assert(0 <= opposite(i) < 6);
}

} // verus!
