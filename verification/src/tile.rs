//! Tiles, and the classification of pixels into tiles.

use vstd::prelude::*;
use vstd::std_specs::convert::TryFromSpecImpl;

verus! {

/// The content of one cell of a level.
#[derive(Debug, Copy, Clone, PartialEq, Eq, Structural)]
pub enum Tile {
    Solid,
    Air,
    /// Marks where the player starts; it has no geometry.
    Player,
    Ramp(RampOrientation),
}

/// The corner of the cell in which a ramp has its right angle.
#[derive(Debug, Copy, Clone, PartialEq, Eq, Structural)]
pub enum RampOrientation {
    SW,
    SE,
    NE,
    NW,
}

/// An opaque pixel whose colour stands for no tile.
#[derive(Debug, Copy, Clone, PartialEq, Eq)]
pub struct UnknownPixel(pub [u8; 4]);

/// An unknown pixel together with its place in the image.
#[derive(Debug, Copy, Clone, PartialEq, Eq)]
pub struct TileImageUnknownPixel {
    pub x: u32,
    pub y: u32,
    pub pixel: [u8; 4],
}

impl TileImageUnknownPixel {
    pub fn new(x: u32, y: u32, pixel: [u8; 4]) -> (e: Self)
        ensures
            e == (TileImageUnknownPixel { x, y, pixel }),
    {
        Self { x, y, pixel }
    }
}

/// The pixel `p` has exactly the red, green, blue and alpha values given.
pub open spec fn is_color(p: [u8; 4], r: u8, g: u8, b: u8, a: u8) -> bool {
    p[0] == r && p[1] == g && p[2] == b && p[3] == a
}

/// The colour that is painted for `tile`.  Air has no colour of its own:
/// it is any fully transparent pixel.
pub open spec fn color_of(tile: Tile) -> Option<(u8, u8, u8, u8)> {
    match tile {
        Tile::Ramp(RampOrientation::NW) => Some((0xee, 0x40, 0x80, 0xff)),
        Tile::Ramp(RampOrientation::NE) => Some((0x12, 0x40, 0x80, 0xff)),
        Tile::Ramp(RampOrientation::SE) => Some((0x28, 0xb3, 0xcb, 0xff)),
        Tile::Ramp(RampOrientation::SW) => Some((0xee, 0xbf, 0x80, 0xff)),
        Tile::Solid => Some((0x00, 0x00, 0x00, 0xff)),
        Tile::Player => Some((0xff, 0x00, 0x00, 0xff)),
        Tile::Air => None,
    }
}

/// The tile that the pixel `p` stands for.  The colours of the table are
/// matched exactly; any other fully transparent pixel is air; any other
/// pixel is unknown.
pub open spec fn classify(p: [u8; 4]) -> Result<Tile, UnknownPixel> {
    if is_color(p, 0xee, 0x40, 0x80, 0xff) {
        Ok(Tile::Ramp(RampOrientation::NW))
    } else if is_color(p, 0x12, 0x40, 0x80, 0xff) {
        Ok(Tile::Ramp(RampOrientation::NE))
    } else if is_color(p, 0x28, 0xb3, 0xcb, 0xff) {
        Ok(Tile::Ramp(RampOrientation::SE))
    } else if is_color(p, 0xee, 0xbf, 0x80, 0xff) {
        Ok(Tile::Ramp(RampOrientation::SW))
    } else if is_color(p, 0x00, 0x00, 0x00, 0xff) {
        Ok(Tile::Solid)
    } else if is_color(p, 0xff, 0x00, 0x00, 0xff) {
        Ok(Tile::Player)
    } else if p[3] == 0 {
        Ok(Tile::Air)
    } else {
        Err(UnknownPixel(p))
    }
}

/// The tile that the character `c` stands for in a level written as text.
pub open spec fn classify_char(c: char) -> Result<Tile, char> {
    if c == 'X' {
        Ok(Tile::Solid)
    } else if c == ' ' {
        Ok(Tile::Air)
    } else if c == '\\' {
        Ok(Tile::Ramp(RampOrientation::SW))
    } else if c == '/' {
        Ok(Tile::Ramp(RampOrientation::SE))
    } else if c == '`' {
        Ok(Tile::Ramp(RampOrientation::NE))
    } else if c == ',' {
        Ok(Tile::Ramp(RampOrientation::NW))
    } else {
        Err(c)
    }
}

/// The character that shows `o` in a level printed as text.
pub open spec fn ramp_glyph_of(o: RampOrientation) -> char {
    match o {
        RampOrientation::SW => '\u{25E3}',
        RampOrientation::SE => '\u{25E2}',
        RampOrientation::NE => '\u{25E5}',
        RampOrientation::NW => '\u{25E4}',
    }
}

/// The character that shows `tile` in a level printed as text.
pub open spec fn glyph_of(tile: Tile) -> char {
    match tile {
        Tile::Solid => '\u{25A0}',
        Tile::Air => ' ',
        Tile::Ramp(o) => ramp_glyph_of(o),
        Tile::Player => '\u{1F3C3}',
    }
}

/// Whether the picture of a ramp, drawn with its right angle in the
/// south-west, is to be mirrored from left to right and from top to bottom
/// to show `o`.
pub open spec fn flips_of(o: RampOrientation) -> (bool, bool) {
    match o {
        RampOrientation::SW => (false, false),
        RampOrientation::SE => (true, false),
        RampOrientation::NE => (true, true),
        RampOrientation::NW => (false, true),
    }
}

impl RampOrientation {
    /// How to mirror the picture of a south-west ramp to show this one:
    /// first from left to right, second from top to bottom.
    pub fn flips(&self) -> (f: (bool, bool))
        ensures
            f == flips_of(*self),
            f.0 <==> (*self == RampOrientation::SE || *self == RampOrientation::NE),
            f.1 <==> (*self == RampOrientation::NE || *self == RampOrientation::NW),
    {
        match self {
            RampOrientation::SW => (false, false),
            RampOrientation::SE => (true, false),
            RampOrientation::NE => (true, true),
            RampOrientation::NW => (false, true),
        }
    }

    /// A triangle with its right angle in the corner that the orientation
    /// names.
    pub fn glyph(&self) -> (c: char)
        ensures
            c == ramp_glyph_of(*self),
    {
        match self {
            RampOrientation::SW => '\u{25E3}',
            RampOrientation::SE => '\u{25E2}',
            RampOrientation::NE => '\u{25E5}',
            RampOrientation::NW => '\u{25E4}',
        }
    }
}

impl Tile {
    /// A filled square for a solid tile, a blank for air, a runner for the
    /// player's mark, and the ramp's triangle for a ramp.
    pub fn glyph(&self) -> (c: char)
        ensures
            c == glyph_of(*self),
    {
        match self {
            Tile::Solid => '\u{25A0}',
            Tile::Air => ' ',
            Tile::Ramp(o) => o.glyph(),
            Tile::Player => '\u{1F3C3}',
        }
    }
}

fn has_color(p: &[u8; 4], r: u8, g: u8, b: u8, a: u8) -> (same: bool)
    ensures
        same == is_color(*p, r, g, b, a),
{
    p[0] == r && p[1] == g && p[2] == b && p[3] == a
}

impl TryFrom<[u8; 4]> for Tile {
    type Error = UnknownPixel;

    /// Classifies one RGBA pixel.
    fn try_from(value: [u8; 4]) -> (r: Result<Self, Self::Error>)
        ensures
            r == classify(value),
    {
        if has_color(&value, 0xee, 0x40, 0x80, 0xff) {
            Ok(Tile::Ramp(RampOrientation::NW))
        } else if has_color(&value, 0x12, 0x40, 0x80, 0xff) {
            Ok(Tile::Ramp(RampOrientation::NE))
        } else if has_color(&value, 0x28, 0xb3, 0xcb, 0xff) {
            Ok(Tile::Ramp(RampOrientation::SE))
        } else if has_color(&value, 0xee, 0xbf, 0x80, 0xff) {
            Ok(Tile::Ramp(RampOrientation::SW))
        } else if has_color(&value, 0x00, 0x00, 0x00, 0xff) {
            Ok(Tile::Solid)
        } else if has_color(&value, 0xff, 0x00, 0x00, 0xff) {
            Ok(Tile::Player)
        } else if value[3] == 0 {
            Ok(Tile::Air)
        } else {
            Err(UnknownPixel(value))
        }
    }
}

impl TryFromSpecImpl<[u8; 4]> for Tile {
    open spec fn obeys_try_from_spec() -> bool {
        true
    }

    open spec fn try_from_spec(v: [u8; 4]) -> Result<Self, Self::Error> {
        classify(v)
    }
}

impl TryFrom<char> for Tile {
    type Error = char;

    /// Classifies one character of a level written as text.
    fn try_from(value: char) -> (r: Result<Self, Self::Error>)
        ensures
            r == classify_char(value),
    {
        match value {
            'X' => Ok(Tile::Solid),
            ' ' => Ok(Tile::Air),
            '\\' => Ok(Tile::Ramp(RampOrientation::SW)),
            '/' => Ok(Tile::Ramp(RampOrientation::SE)),
            '`' => Ok(Tile::Ramp(RampOrientation::NE)),
            ',' => Ok(Tile::Ramp(RampOrientation::NW)),
            c => Err(c),
        }
    }
}

impl TryFromSpecImpl<char> for Tile {
    open spec fn obeys_try_from_spec() -> bool {
        true
    }

    open spec fn try_from_spec(v: char) -> Result<Self, Self::Error> {
        classify_char(v)
    }
}

/// Classification is one-to-one between the opaque colours of the table
/// and the tiles other than air: an opaque pixel stands for `tile` exactly
/// when it has the colour of `tile`.
pub proof fn lemma_classify_bijection(p: [u8; 4], tile: Tile)
    ensures
        (p[3] != 0 && classify(p) == Ok::<Tile, UnknownPixel>(tile)) <==> color_of(tile) == Some(
            (p[0], p[1], p[2], p[3]),
        ),
{
}

/// A fully transparent pixel is air, whatever its red, green and blue.
pub proof fn lemma_transparent_is_air(p: [u8; 4])
    requires
        p[3] == 0,
    ensures
        classify(p) == Ok::<Tile, UnknownPixel>(Tile::Air),
{
}

/// A pixel is unknown exactly when it is not fully transparent and has the
/// colour of no tile; the error then carries the pixel itself.
pub proof fn lemma_unknown_pixel(p: [u8; 4])
    ensures
        classify(p) is Err <==> p[3] != 0 && forall|tile: Tile|
            color_of(tile) != Some((p[0], p[1], p[2], p[3])),
        classify(p) is Err ==> classify(p) == Err::<Tile, UnknownPixel>(UnknownPixel(p)),
{
    if classify(p) is Ok {
        let tile = classify(p)->Ok_0;
        lemma_classify_bijection(p, tile);
    } else {
        assert forall|tile: Tile| color_of(tile) != Some((p[0], p[1], p[2], p[3])) by {
            lemma_classify_bijection(p, tile);
        }
    }
}

} // verus!
