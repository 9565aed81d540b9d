use tilegrid::grid::Grid;
use tilegrid::tile::{RampOrientation, Tile, TileImageUnknownPixel, UnknownPixel};

const TABLE: [([u8; 4], Tile); 6] = [
    ([0xee, 0x40, 0x80, 0xff], Tile::Ramp(RampOrientation::NW)),
    ([0x12, 0x40, 0x80, 0xff], Tile::Ramp(RampOrientation::NE)),
    ([0x28, 0xb3, 0xcb, 0xff], Tile::Ramp(RampOrientation::SE)),
    ([0xee, 0xbf, 0x80, 0xff], Tile::Ramp(RampOrientation::SW)),
    ([0x00, 0x00, 0x00, 0xff], Tile::Solid),
    ([0xff, 0x00, 0x00, 0xff], Tile::Player),
];

#[test]
fn every_colour_of_the_table_has_its_tile() {
    for (pixel, tile) in TABLE {
        assert_eq!(Tile::try_from(pixel), Ok(tile));
    }
}

#[test]
fn the_table_is_one_to_one() {
    for (i, (pixel_a, tile_a)) in TABLE.iter().enumerate() {
        for (pixel_b, tile_b) in TABLE.iter().skip(i + 1) {
            assert_ne!(pixel_a, pixel_b);
            assert_ne!(tile_a, tile_b);
        }
        assert_ne!(*tile_a, Tile::Air);
    }
}

#[test]
fn a_transparent_pixel_is_air_whatever_its_colour() {
    assert_eq!(Tile::try_from([0, 0, 0, 0]), Ok(Tile::Air));
    assert_eq!(Tile::try_from([255, 255, 255, 0]), Ok(Tile::Air));
    assert_eq!(Tile::try_from([0xff, 0x00, 0x00, 0x00]), Ok(Tile::Air));
    assert_eq!(Tile::try_from([0xee, 0x40, 0x80, 0x00]), Ok(Tile::Air));
    assert_eq!(Tile::try_from([12, 34, 56, 0]), Ok(Tile::Air));
}

#[test]
fn an_opaque_pixel_outside_the_table_is_unknown() {
    assert_eq!(Tile::try_from([10, 20, 30, 255]), Err(UnknownPixel([10, 20, 30, 255])));
    assert_eq!(Tile::try_from([255, 255, 255, 255]), Err(UnknownPixel([255, 255, 255, 255])));
}

#[test]
fn colours_are_matched_exactly() {
    for pixel in [[0x00, 0x00, 0x01, 0xff], [0xee, 0x40, 0x81, 0xff], [0xfe, 0x00, 0x00, 0xff]] {
        assert_eq!(Tile::try_from(pixel), Err(UnknownPixel(pixel)));
    }
}

#[test]
fn a_half_transparent_pixel_is_unknown() {
    assert_eq!(Tile::try_from([0, 0, 0, 0xfe]), Err(UnknownPixel([0, 0, 0, 0xfe])));
    assert_eq!(Tile::try_from([0xff, 0, 0, 1]), Err(UnknownPixel([0xff, 0, 0, 1])));
}

#[test]
fn characters_stand_for_tiles() {
    assert_eq!(Tile::try_from('X'), Ok(Tile::Solid));
    assert_eq!(Tile::try_from(' '), Ok(Tile::Air));
    assert_eq!(Tile::try_from('\\'), Ok(Tile::Ramp(RampOrientation::SW)));
    assert_eq!(Tile::try_from('/'), Ok(Tile::Ramp(RampOrientation::SE)));
    assert_eq!(Tile::try_from('`'), Ok(Tile::Ramp(RampOrientation::NE)));
    assert_eq!(Tile::try_from(','), Ok(Tile::Ramp(RampOrientation::NW)));
    assert_eq!(Tile::try_from('x'), Err('x'));
    assert_eq!(Tile::try_from('P'), Err('P'));
}

#[test]
fn tiles_are_shown_by_their_glyphs() {
    assert_eq!(Tile::Solid.glyph(), '\u{25A0}');
    assert_eq!(Tile::Air.glyph(), ' ');
    assert_eq!(Tile::Player.glyph(), '\u{1F3C3}');
    assert_eq!(Tile::Ramp(RampOrientation::SW).glyph(), '\u{25E3}');
    assert_eq!(RampOrientation::SE.glyph(), '\u{25E2}');
    assert_eq!(RampOrientation::NE.glyph(), '\u{25E5}');
    assert_eq!(RampOrientation::NW.glyph(), '\u{25E4}');
}

#[test]
fn an_unknown_pixel_keeps_its_place() {
    let e = TileImageUnknownPixel::new(12, 34, [10, 20, 30, 255]);
    assert_eq!((e.x, e.y, e.pixel), (12, 34, [10, 20, 30, 255]));
}

#[test]
fn a_level_is_rendered_with_the_glyphs_of_its_tiles() {
    let level = Grid::new(vec![
        vec![Tile::Air, Tile::Player, Tile::Ramp(RampOrientation::SE)],
        vec![Tile::Solid, Tile::Solid, Tile::Solid],
    ]);
    assert_eq!(level.render(Tile::glyph), " \u{1F3C3}\u{25E2}\n\u{25A0}\u{25A0}\u{25A0}\n");
}
