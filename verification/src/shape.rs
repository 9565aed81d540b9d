//! The outline of each tile, and its placement in the level.
//!
//! Outlines live on an integer lattice whose unit is half a world unit, so
//! that the corners of a cell, which lie half a cell from its centre, have
//! whole coordinates.  A local outline is given for a cell of size one:
//! its corners are at `(-1, -1)`, `(-1, 1)`, `(1, 1)` and `(1, -1)`.

use crate::grid::{rows_of, Grid};
use crate::tile::{RampOrientation, Tile};
use vstd::prelude::*;

verus! {

/// A point of the lattice.  `y` grows upwards.
#[derive(Debug, Copy, Clone, PartialEq, Eq, Hash, Structural)]
pub struct Point {
    pub x: i128,
    pub y: i128,
}

/// The point with the coordinates given.
pub open spec fn pt(x: int, y: int) -> Point {
    Point { x: x as i128, y: y as i128 }
}

/// The three corners of the ramp with orientation `o`, in a cell of size
/// one around the origin.  The first corner is the one with the right
/// angle.
pub open spec fn triangle_of(o: RampOrientation) -> Seq<Point> {
    match o {
        RampOrientation::SW => seq![pt(-1, -1), pt(-1, 1), pt(1, -1)],
        RampOrientation::SE => seq![pt(1, -1), pt(-1, -1), pt(1, 1)],
        RampOrientation::NE => seq![pt(1, 1), pt(1, -1), pt(-1, 1)],
        RampOrientation::NW => seq![pt(-1, 1), pt(1, 1), pt(-1, -1)],
    }
}

/// The closed outline of `tile` in a cell of size one around the origin,
/// or `None` for a tile without geometry.
pub open spec fn outline_of(tile: Tile) -> Option<Seq<Point>> {
    match tile {
        Tile::Solid => Some(seq![pt(-1, -1), pt(-1, 1), pt(1, 1), pt(1, -1), pt(-1, -1)]),
        Tile::Ramp(o) => Some(triangle_of(o).push(triangle_of(o)[0])),
        Tile::Air => None,
        Tile::Player => None,
    }
}

/// Where the local point `p` of the cell at column `x` and row `y` lies in
/// the level, for cells of `tile_size` world units: the cell's centre is
/// at `(x * tile_size, -y * tile_size)` in world units, and the local
/// outline is scaled by `tile_size` around it.
pub open spec fn placed_at(p: Point, x: usize, y: usize, tile_size: u32) -> Point {
    pt(2 * x * tile_size + p.x * tile_size, -2 * y * tile_size + p.y * tile_size)
}

/// The local outline `ring`, placed point by point.
pub open spec fn placed(ring: Seq<Point>, x: usize, y: usize, tile_size: u32) -> Seq<Point> {
    Seq::new(ring.len(), |i: int| placed_at(ring[i], x, y, tile_size))
}

/// Twice the signed area that the closed ring `ring` encloses, positive
/// when the ring runs counter-clockwise.
pub open spec fn twice_area(ring: Seq<Point>) -> int
    decreases ring.len(),
{
    if ring.len() < 2 {
        0
    } else {
        let a = ring[ring.len() - 2];
        let b = ring[ring.len() - 1];
        twice_area(ring.drop_last()) + (a.x * b.y - b.x * a.y)
    }
}

/// The orientation a quarter turn counter-clockwise from `o`.
pub open spec fn quarter_turn(o: RampOrientation) -> RampOrientation {
    match o {
        RampOrientation::SW => RampOrientation::SE,
        RampOrientation::SE => RampOrientation::NE,
        RampOrientation::NE => RampOrientation::NW,
        RampOrientation::NW => RampOrientation::SW,
    }
}

impl RampOrientation {
    /// The three corners of the ramp, the one with the right angle first.
    pub fn to_triangle(&self) -> (tri: [Point; 3])
        ensures
            tri@ == triangle_of(*self),
    {
        let tri = match self {
            RampOrientation::SW => [
                Point { x: -1, y: -1 },
                Point { x: -1, y: 1 },
                Point { x: 1, y: -1 },
            ],
            RampOrientation::SE => [
                Point { x: 1, y: -1 },
                Point { x: -1, y: -1 },
                Point { x: 1, y: 1 },
            ],
            RampOrientation::NE => [
                Point { x: 1, y: 1 },
                Point { x: 1, y: -1 },
                Point { x: -1, y: 1 },
            ],
            RampOrientation::NW => [
                Point { x: -1, y: 1 },
                Point { x: 1, y: 1 },
                Point { x: -1, y: -1 },
            ],
        };
        assert(tri@ =~= triangle_of(*self));
        tri
    }
}

impl Tile {
    /// The closed outline of the tile: the whole cell for a solid tile, a
    /// right triangle for a ramp, nothing for air and for the player's
    /// mark.
    pub fn to_collider_verts(&self) -> (ring: Option<Vec<Point>>)
        ensures
            match ring {
                Some(r) => outline_of(*self) == Some(r@),
                None => outline_of(*self) is None,
            },
    {
        match self {
            Tile::Solid => {
                let mut ring: Vec<Point> = Vec::new();
                ring.push(Point { x: -1, y: -1 });
                ring.push(Point { x: -1, y: 1 });
                ring.push(Point { x: 1, y: 1 });
                ring.push(Point { x: 1, y: -1 });
                ring.push(Point { x: -1, y: -1 });
                assert(ring@ =~= outline_of(*self)->Some_0);
                Some(ring)
            },
            Tile::Ramp(o) => {
                let tri = o.to_triangle();
                let mut ring: Vec<Point> = Vec::new();
                ring.push(tri[0]);
                ring.push(tri[1]);
                ring.push(tri[2]);
                ring.push(tri[0]);
                assert(ring@ =~= outline_of(*self)->Some_0);
                Some(ring)
            },
            Tile::Air => None,
            Tile::Player => None,
        }
    }
}

/// What the four ramps have in common.  Each is a right triangle on
/// three corners of the cell, with its legs along the cell's sides, and
/// fills half of the cell; the outlines run clockwise, so their signed
/// areas are negative.  Each is the ramp before it turned by a quarter
/// turn.
pub proof fn lemma_ramp_triangles(o: RampOrientation)
    ensures
        twice_area(outline_of(Tile::Solid)->Some_0) == -8,
        twice_area(outline_of(Tile::Ramp(o))->Some_0) == -4,
        ({
            let t = triangle_of(o);
            ||| t[1].x == t[0].x && t[2].y == t[0].y
            ||| t[1].y == t[0].y && t[2].x == t[0].x
        }),
        forall|i: int|
            0 <= i < 3 ==> (#[trigger] triangle_of(quarter_turn(o))[i]) == pt(
                -triangle_of(o)[i].y,
                triangle_of(o)[i].x as int,
            ),
{
    reveal_with_fuel(twice_area, 6);
    let square = outline_of(Tile::Solid)->Some_0;
    assert(square.drop_last() =~= seq![pt(-1, -1), pt(-1, 1), pt(1, 1), pt(1, -1)]);
    assert(square.drop_last().drop_last() =~= seq![pt(-1, -1), pt(-1, 1), pt(1, 1)]);
    assert(square.drop_last().drop_last().drop_last() =~= seq![pt(-1, -1), pt(-1, 1)]);
    assert(square.drop_last().drop_last().drop_last().drop_last() =~= seq![pt(-1, -1)]);
    let t = triangle_of(o);
    let ring = outline_of(Tile::Ramp(o))->Some_0;
    assert(ring.drop_last() =~= t);
    assert(t.drop_last() =~= seq![t[0], t[1]]);
    assert(t.drop_last().drop_last() =~= seq![t[0]]);
}

/// A placed corner of a tile lies where the formula says: its
/// coordinates are within the range of a coordinate, whatever the cell and
/// the tile size.  The corner of the cell at column `x` and row `y` that
/// lies towards `(sx, sy)`, each `1` or `-1`, is at `((2 * x + sx) *
/// tile_size, (-2 * y + sy) * tile_size)`.
pub proof fn lemma_placed_corner(tile: Tile, x: usize, y: usize, tile_size: u32, i: int)
    requires
        outline_of(tile) matches Some(ring) && 0 <= i < ring.len(),
    ensures
        ({
            let p = outline_of(tile)->Some_0[i];
            let q = placed(outline_of(tile)->Some_0, x, y, tile_size)[i];
            &&& p.x == 1 || p.x == -1
            &&& p.y == 1 || p.y == -1
            &&& q.x == (2 * x + p.x) * tile_size
            &&& q.y == (-2 * y + p.y) * tile_size
        }),
{
    let p = outline_of(tile)->Some_0[i];
    assert((p.x == 1 || p.x == -1) && (p.y == 1 || p.y == -1));
    let ts = tile_size as int;
    assert(2 * x * ts + p.x * ts == (2 * x + p.x) * ts && -2 * y * ts + p.y * ts == (-2 * y + p.y)
        * ts) by (nonlinear_arith);
    assert(-0x4_0000_0000_0000_0000_0000_0000 <= (2 * x + p.x) * ts
        <= 0x4_0000_0000_0000_0000_0000_0000 && -0x4_0000_0000_0000_0000_0000_0000 <= (-2 * y
        + p.y) * ts <= 0x4_0000_0000_0000_0000_0000_0000) by (nonlinear_arith)
        requires
            0 <= x <= 0xffff_ffff_ffff_ffff,
            0 <= y <= 0xffff_ffff_ffff_ffff,
            -1 <= p.x <= 1,
            -1 <= p.y <= 1,
            0 <= ts <= 0xffff_ffff,
    ;
}

/// Places the local outline `ring` of the cell at column `x` and row `y`
/// in the level.  Rows are counted downwards while `y` grows upwards, so
/// the cell's centre lies at `-y * tile_size`.
pub fn place(ring: &Vec<Point>, x: usize, y: usize, tile_size: u32) -> (r: Vec<Point>)
    requires
        forall|i: int|
            0 <= i < ring@.len() ==> i64::MIN <= (#[trigger] ring@[i]).x <= i64::MAX && i64::MIN
                <= ring@[i].y <= i64::MAX,
    ensures
        r@ == placed(ring@, x, y, tile_size),
        forall|i: int|
            0 <= i < ring@.len() ==> (#[trigger] r@[i]).x == 2 * x * tile_size + ring@[i].x
                * tile_size && r@[i].y == -2 * y * tile_size + ring@[i].y * tile_size,
{
    let ts = tile_size as i128;
    let two_x = 2 * (x as i128);
    let neg_two_y = -2 * (y as i128);
    assert(0 <= two_x * ts <= 0x2_0000_0000_0000_0000_0000_0000 && 0 >= neg_two_y * ts
        >= -0x2_0000_0000_0000_0000_0000_0000) by (nonlinear_arith)
        requires
            0 <= two_x <= 0x2_0000_0000_0000_0000,
            0 >= neg_two_y >= -0x2_0000_0000_0000_0000,
            0 <= ts <= u32::MAX,
    ;
    let cx = two_x * ts;
    let cy = neg_two_y * ts;
    let mut r: Vec<Point> = Vec::new();
    let mut i: usize = 0;
    while i < ring.len()
        invariant
            i <= ring@.len(),
            ts == tile_size,
            cx == 2 * x * tile_size,
            cy == -2 * y * tile_size,
            0 <= cx <= 0x2_0000_0000_0000_0000_0000_0000,
            0 >= cy >= -0x2_0000_0000_0000_0000_0000_0000,
            forall|i: int|
                0 <= i < ring@.len() ==> i64::MIN <= (#[trigger] ring@[i]).x <= i64::MAX
                    && i64::MIN <= ring@[i].y <= i64::MAX,
            r@.len() == i,
            forall|j: int|
                0 <= j < i ==> (#[trigger] r@[j]) == placed_at(ring@[j], x, y, tile_size) && r@[j].x
                    == 2 * x * tile_size + ring@[j].x * tile_size && r@[j].y == -2 * y * tile_size
                    + ring@[j].y * tile_size,
        decreases ring@.len() - i,
    {
        let p = ring[i];
        assert(-0x8000_0000_0000_0000_0000_0000 <= p.x * ts <= 0x8000_0000_0000_0000_0000_0000
            && -0x8000_0000_0000_0000_0000_0000 <= p.y * ts <= 0x8000_0000_0000_0000_0000_0000)
            by (nonlinear_arith)
            requires
                i64::MIN <= p.x <= i64::MAX,
                i64::MIN <= p.y <= i64::MAX,
                0 <= ts <= u32::MAX,
        ;
        r.push(Point { x: cx + p.x * ts, y: cy + p.y * ts });
        i += 1;
    }
    assert(r@ =~= placed(ring@, x, y, tile_size));
    r
}

/// The placed outlines of the cells `cells` that have geometry, in the
/// order of the cells.
pub open spec fn polygons_of(cells: Seq<((usize, usize), Tile)>, tile_size: u32) -> Seq<
    Seq<Point>,
>
    decreases cells.len(),
{
    if cells.len() == 0 {
        Seq::empty()
    } else {
        let rest = polygons_of(cells.drop_last(), tile_size);
        let ((x, y), tile) = cells.last();
        match outline_of(tile) {
            Some(ring) => rest.push(placed(ring, x, y, tile_size)),
            None => rest,
        }
    }
}

/// The outline of every cell of `grid` that has geometry, placed in the
/// level, in row-major order of the cells.  Cells of air and the player's
/// mark contribute nothing.
pub fn tile_polygons(grid: &Grid<Tile>, tile_size: u32) -> (polygons: Vec<Vec<Point>>)
    ensures
        rows_of(polygons@) == polygons_of(grid.cells(), tile_size),
{
    let mut polygons: Vec<Vec<Point>> = Vec::new();
    let mut cells = grid.iter();
    let ghost mut done: int = 0;
    loop
        invariant
            0 <= done <= grid.cells().len(),
            cells.remaining() == grid.cells().skip(done),
            rows_of(polygons@) == polygons_of(grid.cells().take(done), tile_size),
        ensures
            rows_of(polygons@) == polygons_of(grid.cells(), tile_size),
        decreases grid.cells().len() - done,
    {
        match cells.next() {
            None => {
                assert(grid.cells().take(done) =~= grid.cells());
                break ;
            },
            Some(((x, y), tile)) => {
                let ghost before = rows_of(polygons@);
                proof {
                    assert(grid.cells()[done] == ((x, y), *tile));
                    assert(grid.cells().take(done + 1).drop_last() =~= grid.cells().take(done));
                    assert(grid.cells().skip(done).skip(1) =~= grid.cells().skip(done + 1));
                }
                match tile.to_collider_verts() {
                    Some(ring) => {
                        polygons.push(place(&ring, x, y, tile_size));
                        assert(rows_of(polygons@) =~= before.push(
                            placed(ring@, x, y, tile_size),
                        ));
                    },
                    None => {},
                }
                proof {
                    done = done + 1;
                }
            },
        }
    }
    polygons
}

/// Cells without geometry give no polygon: a level of air and the
/// player's mark alone has none.
pub proof fn lemma_no_geometry_no_polygons(cells: Seq<((usize, usize), Tile)>, tile_size: u32)
    requires
        forall|i: int|
            0 <= i < cells.len() ==> (#[trigger] cells[i]).1 == Tile::Air || cells[i].1
                == Tile::Player,
    ensures
        polygons_of(cells, tile_size).len() == 0,
    decreases cells.len(),
{
    if cells.len() > 0 {
        lemma_no_geometry_no_polygons(cells.drop_last(), tile_size);
    }
}

} // verus!
