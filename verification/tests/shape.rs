use tilegrid::grid::Grid;
use tilegrid::reduce::divide_reduce;
use tilegrid::shape::{place, tile_polygons, Point};
use tilegrid::tile::{RampOrientation, Tile};
use tilegrid::triangulate::triangulate_all;

fn points(coords: &[(i128, i128)]) -> Vec<Point> {
    coords.iter().map(|&(x, y)| Point { x, y }).collect()
}

fn twice_area(ring: &[Point]) -> i128 {
    ring.windows(2).map(|w| w[0].x * w[1].y - w[1].x * w[0].y).sum()
}

const RAMPS: [RampOrientation; 4] =
    [RampOrientation::SW, RampOrientation::SE, RampOrientation::NE, RampOrientation::NW];

#[test]
fn a_solid_tile_is_the_whole_cell() {
    assert_eq!(
        Tile::Solid.to_collider_verts(),
        Some(points(&[(-1, -1), (-1, 1), (1, 1), (1, -1), (-1, -1)]))
    );
}

#[test]
fn air_and_the_player_have_no_outline() {
    assert_eq!(Tile::Air.to_collider_verts(), None);
    assert_eq!(Tile::Player.to_collider_verts(), None);
}

#[test]
fn each_ramp_has_its_triangle() {
    assert_eq!(RampOrientation::SW.to_triangle().to_vec(), points(&[(-1, -1), (-1, 1), (1, -1)]));
    assert_eq!(RampOrientation::SE.to_triangle().to_vec(), points(&[(1, -1), (-1, -1), (1, 1)]));
    assert_eq!(RampOrientation::NE.to_triangle().to_vec(), points(&[(1, 1), (1, -1), (-1, 1)]));
    assert_eq!(RampOrientation::NW.to_triangle().to_vec(), points(&[(-1, 1), (1, 1), (-1, -1)]));
}

#[test]
fn a_ramp_outline_is_its_closed_triangle() {
    for o in RAMPS {
        let tri = o.to_triangle();
        let ring = Tile::Ramp(o).to_collider_verts().unwrap();
        assert_eq!(ring, vec![tri[0], tri[1], tri[2], tri[0]]);
    }
}

#[test]
fn a_ramp_fills_half_of_its_cell() {
    let square = Tile::Solid.to_collider_verts().unwrap();
    assert_eq!(twice_area(&square), -8);
    for o in RAMPS {
        let ring = Tile::Ramp(o).to_collider_verts().unwrap();
        assert_eq!(twice_area(&ring), -4);
    }
}

#[test]
fn the_ramps_are_quarter_turns_of_one_triangle() {
    for i in 0..4 {
        let from = RAMPS[i].to_triangle();
        let to = RAMPS[(i + 1) % 4].to_triangle();
        for k in 0..3 {
            assert_eq!(to[k], Point { x: -from[k].y, y: from[k].x });
        }
    }
}

#[test]
fn the_right_angle_of_a_ramp_is_in_its_named_corner() {
    assert_eq!(RampOrientation::SW.to_triangle()[0], Point { x: -1, y: -1 });
    assert_eq!(RampOrientation::SE.to_triangle()[0], Point { x: 1, y: -1 });
    assert_eq!(RampOrientation::NE.to_triangle()[0], Point { x: 1, y: 1 });
    assert_eq!(RampOrientation::NW.to_triangle()[0], Point { x: -1, y: 1 });
}

#[test]
fn ramps_are_mirrored_from_the_south_west_one() {
    assert_eq!(RampOrientation::SW.flips(), (false, false));
    assert_eq!(RampOrientation::SE.flips(), (true, false));
    assert_eq!(RampOrientation::NE.flips(), (true, true));
    assert_eq!(RampOrientation::NW.flips(), (false, true));
}

#[test]
fn place_moves_by_the_cell_and_scales_by_the_tile_size() {
    let square = Tile::Solid.to_collider_verts().unwrap();
    // the centre of cell (3, 2) is at (48, -32) in world units, (96, -64) in halves
    assert_eq!(
        place(&square, 3, 2, 16),
        points(&[(80, -80), (80, -48), (112, -48), (112, -80), (80, -80)])
    );
}

#[test]
fn place_at_the_origin_only_scales() {
    let ring = points(&[(-1, -1), (1, 3), (0, 0)]);
    assert_eq!(place(&ring, 0, 0, 5), points(&[(-5, -5), (5, 15), (0, 0)]));
    assert_eq!(place(&ring, 0, 0, 0), points(&[(0, 0), (0, 0), (0, 0)]));
}

#[test]
fn rows_grow_downwards() {
    let ring = points(&[(0, 0)]);
    assert_eq!(place(&ring, 0, 1, 1), points(&[(0, -2)]));
    assert_eq!(place(&ring, 1, 0, 1), points(&[(2, 0)]));
    assert_eq!(place(&ring, 7, 9, 3), points(&[(42, -54)]));
}

#[test]
fn place_does_not_overflow_on_the_largest_cell() {
    let ring = points(&[(i64::MAX as i128, i64::MIN as i128)]);
    let placed = place(&ring, usize::MAX, usize::MAX, u32::MAX);
    let ts = u32::MAX as i128;
    assert_eq!(placed[0].x, 2 * (usize::MAX as i128) * ts + (i64::MAX as i128) * ts);
    assert_eq!(placed[0].y, -2 * (usize::MAX as i128) * ts + (i64::MIN as i128) * ts);
}

#[test]
fn tile_polygons_follow_the_cells_in_row_major_order() {
    let grid = Grid::new(vec![
        vec![Tile::Air, Tile::Solid],
        vec![Tile::Ramp(RampOrientation::NE), Tile::Player],
    ]);
    assert_eq!(
        tile_polygons(&grid, 16),
        vec![
            points(&[(16, -16), (16, 16), (48, 16), (48, -16), (16, -16)]),
            points(&[(16, -16), (16, -48), (-16, -16), (16, -16)]),
        ]
    );
}

#[test]
fn two_solid_tiles_side_by_side_share_an_edge() {
    let grid = Grid::new(vec![vec![Tile::Solid, Tile::Solid]]);
    let polygons = tile_polygons(&grid, 16);
    assert_eq!(polygons.len(), 2);
    assert_eq!(polygons[0], points(&[(-16, -16), (-16, 16), (16, 16), (16, -16), (-16, -16)]));
    assert_eq!(polygons[1], points(&[(16, -16), (16, 16), (48, 16), (48, -16), (16, -16)]));
}

#[test]
fn a_level_of_air_has_no_polygon_and_no_triangle() {
    let grid = Grid::new(vec![vec![Tile::Air; 4]; 3]);
    let polygons = tile_polygons(&grid, 16);
    assert!(polygons.is_empty());
    let merged = divide_reduce(polygons, |a, _| a);
    assert_eq!(merged, None);
    let none: Vec<Vec<Point>> = merged.into_iter().collect();
    let triangles: Result<Vec<[Point; 3]>, ()> = triangulate_all(&none, |_| Err(()));
    assert_eq!(triangles, Ok(vec![]));
}

#[test]
fn a_level_with_the_player_alone_has_no_triangle() {
    let grid = Grid::new(vec![
        vec![Tile::Air, Tile::Air, Tile::Air],
        vec![Tile::Air, Tile::Player, Tile::Air],
    ]);
    let polygons = tile_polygons(&grid, 16);
    assert!(polygons.is_empty());
    let triangles: Result<Vec<[Point; 3]>, ()> = triangulate_all(&polygons, |_| Err(()));
    assert_eq!(triangles, Ok(vec![]));
    assert_eq!(grid.positions(|tile| *tile == Tile::Player), vec![(1, 1)]);
}

#[test]
fn triangles_are_gathered_in_the_order_of_the_polygons() {
    let polygons = vec![3u32, 0, 2];
    let triangles: Result<Vec<(u32, u32)>, String> =
        triangulate_all(&polygons, |n| Ok((0..*n).map(|i| (*n, i)).collect()));
    assert_eq!(triangles, Ok(vec![(3, 0), (3, 1), (3, 2), (2, 0), (2, 1)]));
}

#[test]
fn the_first_failed_polygon_fails_the_level() {
    let polygons = vec![1u32, 13, 2, 17];
    let triangles: Result<Vec<u32>, String> = triangulate_all(&polygons, |n| {
        if *n > 10 {
            Err(format!("polygon {n} is degenerate"))
        } else {
            Ok(vec![*n])
        }
    });
    assert_eq!(triangles, Err("polygon 13 is degenerate".to_string()));
}
