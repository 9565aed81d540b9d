use geo::triangulate_spade::{SpadeTriangulationConfig, TriangulationError};
use geo::{
    Area, BooleanOps, Centroid, Coord, LineString, MultiPolygon, Polygon, TriangulateSpade,
    Vector2DOps,
};
use tilegrid::grid::Grid;
use tilegrid::reduce::divide_reduce;
use tilegrid::shape::{tile_polygons, Point};
use tilegrid::simplify::removed_in_line;
use tilegrid::tile::{RampOrientation, Tile};
use tilegrid::triangulate::triangulate_all;

type Relative = ([Coord<f32>; 3], Coord<f32>);

fn to_world(p: &Point) -> Coord<f32> {
    Coord { x: p.x as f32 * 0.5, y: p.y as f32 * 0.5 }
}

fn along_path(a: Coord<f32>, b: Coord<f32>, c: Coord<f32>) -> bool {
    let dir_1 = (c - b).try_normalize().unwrap_or_default();
    let dir_2 = (b - a).try_normalize().unwrap_or_default();
    dir_1.dot_product(dir_2) >= 0.9995
}

fn simplify_ring(ring: &LineString<f32>) -> LineString<f32> {
    LineString::new(removed_in_line(&ring.0, along_path, |a, b| a == b))
}

fn grid_to_polys(grid: &Grid<Tile>, tile_size: u32) -> MultiPolygon<f32> {
    let polygons: Vec<MultiPolygon<f32>> = tile_polygons(grid, tile_size)
        .iter()
        .map(|ring| LineString::new(ring.iter().map(to_world).collect()))
        .map(|ring| MultiPolygon::new(vec![Polygon::new(ring, vec![])]))
        .collect();
    let polys =
        divide_reduce(polygons, |a, b| a.union(&b)).unwrap_or(MultiPolygon::new(vec![]));
    polys
        .into_iter()
        .map(|p| {
            Polygon::new(
                simplify_ring(p.exterior()),
                p.interiors().iter().map(simplify_ring).collect(),
            )
        })
        .collect()
}

fn triangulate(polygon: &Polygon<f32>) -> Result<Vec<Relative>, TriangulationError> {
    let triangles = polygon.constrained_triangulation(SpadeTriangulationConfig::default())?;
    Ok(triangles
        .into_iter()
        .map(|tri| {
            let d = tri.centroid().0;
            (tri.to_array().map(|p| p - d), d)
        })
        .collect())
}

fn colliders(grid: &Grid<Tile>, tile_size: u32) -> Vec<Relative> {
    triangulate_all(&grid_to_polys(grid, tile_size).0, triangulate).unwrap()
}

fn area(tri: &[Coord<f32>; 3]) -> f32 {
    let [a, b, c] = *tri;
    ((b - a).wedge_product(c - a) / 2.0).abs()
}

fn sorted(mut coords: Vec<(f32, f32)>) -> Vec<(f32, f32)> {
    coords.sort_by(|a, b| a.partial_cmp(b).unwrap());
    coords
}

#[test]
fn two_solid_tiles_merge_into_one_rectangle_of_two_triangles() {
    let grid = Grid::new(vec![vec![Tile::Solid, Tile::Solid]]);
    let polys = grid_to_polys(&grid, 16);
    assert_eq!(polys.0.len(), 1);
    let polygon = &polys.0[0];
    assert!(polygon.interiors().is_empty());
    assert_eq!(polygon.exterior().0.len(), 5);
    let corners = polygon.exterior().0[..4].iter().map(|c| c.x_y()).collect();
    assert_eq!(sorted(corners), vec![(-8.0, -8.0), (-8.0, 8.0), (24.0, -8.0), (24.0, 8.0)]);
    assert_eq!(polygon.unsigned_area(), 512.0);

    let triangles = colliders(&grid, 16);
    assert_eq!(triangles.len(), 2);
    let total: f32 = triangles.iter().map(|(tri, _)| area(tri)).sum();
    assert!((total - 512.0).abs() < 1e-3);
}

#[test]
fn a_south_west_ramp_is_one_right_triangle() {
    let grid = Grid::new(vec![vec![Tile::Ramp(RampOrientation::SW)]]);
    let triangles = colliders(&grid, 16);
    assert_eq!(triangles.len(), 1);
    let (tri, centroid) = triangles[0];
    let corners = sorted(tri.iter().map(|&p| (p + centroid).x_y()).collect());
    assert_eq!(corners, vec![(-8.0, -8.0), (-8.0, 8.0), (8.0, -8.0)]);
    assert!((area(&tri) - 128.0).abs() < 1e-3);

    // the legs meet in the south-west corner and are 16 long
    let at = |x: f32, y: f32| {
        tri.iter().find(|p| (**p + centroid).x_y() == (x, y)).copied().unwrap()
    };
    let (corner, north, east) = (at(-8.0, -8.0), at(-8.0, 8.0), at(8.0, -8.0));
    assert_eq!((north - corner).x_y(), (0.0, 16.0));
    assert_eq!((east - corner).x_y(), (16.0, 0.0));
    // the hypotenuse runs down the diagonal from north-west to south-east
    assert_eq!((east - north).x_y(), (16.0, -16.0));
}

#[test]
fn triangles_are_stored_relative_to_their_centroid() {
    let grid = Grid::new(vec![
        vec![Tile::Air, Tile::Air, Tile::Air],
        vec![Tile::Air, Tile::Air, Tile::Solid],
    ]);
    let triangles = colliders(&grid, 16);
    assert_eq!(triangles.len(), 2);
    for (tri, centroid) in triangles {
        let sum = tri[0] + tri[1] + tri[2];
        assert!(sum.x.abs() < 1e-3 && sum.y.abs() < 1e-3);
        assert!(24.0 < centroid.x && centroid.x < 40.0);
        assert!(-24.0 < centroid.y && centroid.y < -8.0);
        assert!(tri.iter().all(|p| p.x.abs() <= 16.0 && p.y.abs() <= 16.0));
    }
}

#[test]
fn a_block_of_tiles_is_simplified_to_its_four_corners() {
    let grid = Grid::new(vec![vec![Tile::Solid; 5]; 3]);
    let polys = grid_to_polys(&grid, 16);
    assert_eq!(polys.0.len(), 1);
    assert_eq!(polys.0[0].exterior().0.len(), 5);
    assert_eq!(polys.unsigned_area(), 5.0 * 3.0 * 256.0);
    let triangles = colliders(&grid, 16);
    assert_eq!(triangles.len(), 2);
}

#[test]
fn a_ring_of_tiles_keeps_its_hole() {
    let s = Tile::Solid;
    let grid = Grid::new(vec![vec![s, s, s], vec![s, Tile::Air, s], vec![s, s, s]]);
    let polys = grid_to_polys(&grid, 16);
    assert_eq!(polys.0.len(), 1);
    assert_eq!(polys.0[0].interiors().len(), 1);
    assert_eq!(polys.0[0].exterior().0.len(), 5);
    assert_eq!(polys.0[0].interiors()[0].0.len(), 5);
    assert_eq!(polys.unsigned_area(), 8.0 * 256.0);
    let triangles = colliders(&grid, 16);
    let total: f32 = triangles.iter().map(|(tri, _)| area(tri)).sum();
    assert!((total - 8.0 * 256.0).abs() < 1e-2);
    // no triangle covers the middle of the hole
    let hole = Coord { x: 16.0f32, y: -16.0f32 };
    for (tri, centroid) in triangles {
        let [a, b, c] = tri.map(|p| p + centroid);
        let side = |p: Coord<f32>, q: Coord<f32>| (q - p).wedge_product(hole - p);
        let (d1, d2, d3) = (side(a, b), side(b, c), side(c, a));
        let inside = (d1 > 0.0 && d2 > 0.0 && d3 > 0.0) || (d1 < 0.0 && d2 < 0.0 && d3 < 0.0);
        assert!(!inside);
    }
}

#[test]
fn tiles_that_do_not_touch_stay_apart() {
    let grid = Grid::new(vec![vec![Tile::Solid, Tile::Air, Tile::Solid]]);
    let polys = grid_to_polys(&grid, 16);
    assert_eq!(polys.0.len(), 2);
    assert_eq!(colliders(&grid, 16).len(), 4);
}

#[test]
fn a_level_without_solid_tiles_has_no_colliders() {
    let grid = Grid::new(vec![vec![Tile::Air, Tile::Player], vec![Tile::Air, Tile::Air]]);
    assert!(grid_to_polys(&grid, 16).0.is_empty());
    assert!(colliders(&grid, 16).is_empty());
    assert_eq!(grid.positions(|tile| *tile == Tile::Player), vec![(1, 0)]);
}

#[test]
fn the_float_judgement_has_a_tolerance() {
    let c = |x: f32, y: f32| Coord { x, y };
    assert!(along_path(c(0.0, 0.0), c(1.0, 0.0), c(2.0, 0.0)));
    assert!(along_path(c(0.0, 0.0), c(100.0, 0.0), c(200.0, 1.0)));
    assert!(!along_path(c(0.0, 0.0), c(100.0, 0.0), c(200.0, 10.0)));
    assert!(!along_path(c(0.0, 0.0), c(1.0, 0.0), c(1.0, 1.0)));
    assert!(!along_path(c(0.0, 0.0), c(1.0, 0.0), c(0.0, 0.0)));
    assert!(!along_path(c(0.0, 0.0), c(0.0, 0.0), c(1.0, 0.0)));
}

#[test]
fn simplifying_with_the_tolerance_keeps_the_area_nearly() {
    let ring = LineString::from(vec![
        (0.0f32, 0.0f32),
        (0.0, 50.0),
        (0.1, 100.0),
        (50.0, 100.0),
        (100.0, 100.0),
        (100.0, 0.0),
        (50.0, 0.0),
        (0.0, 0.0),
    ]);
    let simple = simplify_ring(&ring);
    assert_eq!(simple.0.len(), 5);
    assert!(simple.is_closed());
    let before = Polygon::new(ring, vec![]).unsigned_area();
    let after = Polygon::new(simple, vec![]).unsigned_area();
    assert!((before - after).abs() <= 5.0);
    assert!((before - after).abs() / before < 1e-3);
}

#[test]
fn with_the_tolerance_a_second_pass_can_remove_more() {
    // the ring bends by 1.7 degrees at (1000, 0) and back by 1.9 degrees at (1010, -0.3)
    let ring = LineString::from(vec![
        (0.0f32, 0.0f32),
        (1000.0, 0.0),
        (1010.0, -0.3),
        (2010.0, 3.19),
        (2010.0, 1000.0),
        (0.0, 1000.0),
        (0.0, 0.0),
    ]);
    let once = simplify_ring(&ring);
    assert_eq!(once.0.len(), 6);
    assert!(once.0.contains(&Coord { x: 1010.0, y: -0.3 }));
    let twice = simplify_ring(&once);
    assert_eq!(twice.0.len(), 5);
    assert!(!twice.0.contains(&Coord { x: 1010.0, y: -0.3 }));
    assert_eq!(simplify_ring(&twice), twice);
}

#[test]
fn a_square_of_side_sixteen_is_simplified_to_itself() {
    let square = LineString::from(vec![
        (-8.0f32, -8.0f32),
        (-8.0, 8.0),
        (8.0, 8.0),
        (8.0, -8.0),
        (-8.0, -8.0),
    ]);
    let once = simplify_ring(&square);
    assert_eq!(once, square);
    assert_eq!(simplify_ring(&once), once);
}

#[test]
fn an_open_triangle_keeps_its_three_corners() {
    let triangle = LineString::from(vec![(0.0f32, 0.0f32), (16.0, 0.0), (0.0, 16.0)]);
    let once = simplify_ring(&triangle);
    assert_eq!(once, triangle);
    assert_eq!(Polygon::new(once, vec![]).unsigned_area(), 128.0);
}

#[test]
fn outlines_for_tiles_of_size_one_scale_to_any_tile_size() {
    let grid = Grid::new(vec![vec![Tile::Air, Tile::Solid]]);
    let unit = tile_polygons(&grid, 1);
    let scaled: Vec<(f32, f32)> =
        unit[0].iter().map(|p| (p.x as f32 * 0.5 * 2.5, p.y as f32 * 0.5 * 2.5)).collect();
    assert_eq!(
        scaled,
        vec![(1.25, -1.25), (1.25, 1.25), (3.75, 1.25), (3.75, -1.25), (1.25, -1.25)]
    );
    let sixteen: Vec<(f32, f32)> =
        unit[0].iter().map(|p| (p.x as f32 * 0.5 * 16.0, p.y as f32 * 0.5 * 16.0)).collect();
    let placed: Vec<(f32, f32)> =
        tile_polygons(&grid, 16)[0].iter().map(|p| to_world(p).x_y()).collect();
    assert_eq!(sixteen, placed);
}
