//! From the bytes of a painted level to its grid of tiles.
//!
//! Decoding is left to the `image` crate, and nothing is claimed of it.
//! What is verified here is what is done with the decoded pixels: every
//! pixel is classified, in row-major order, and the first pixel that stands
//! for no tile fails the whole level.

use crate::grid::{cell_of, first_row_len, rectangular, rows_of, Grid};
use crate::tile::{classify, Tile, TileImageUnknownPixel, UnknownPixel};
use image::{DynamicImage, ImageError};
use vstd::prelude::*;
use vstd::std_specs::convert::TryFromSpecImpl;

verus! {

/// `image::DynamicImage`: a decoded image.  Nothing is known of it but
/// its width, its height and its pixels, through the functions below.
#[verifier::external_type_specification]
#[verifier::external_body]
pub struct ExDynamicImage(DynamicImage);

/// `image::ImageError`: why an image could not be decoded.  It is only
/// handed on.
#[verifier::external_type_specification]
#[verifier::external_body]
pub struct ExImageError(ImageError);

/// `std::io::Error`: why the bytes of a level could not be read.  It is
/// only held, for the caller who reads them.
#[verifier::external_type_specification]
#[verifier::external_body]
pub struct ExIoError(std::io::Error);

/// The number of pixels in each row of `img`.
pub uninterp spec fn image_width(img: DynamicImage) -> nat;

/// The number of rows of `img`.
pub uninterp spec fn image_height(img: DynamicImage) -> nat;

/// The pixel at column `x` of row `y` of `img`, as red, green, blue and
/// alpha of eight bits each.  Rows are counted from the top.
pub uninterp spec fn image_pixel(img: DynamicImage, x: nat, y: nat) -> [u8; 4];

/// The pixels of `img`, row by row from the top.
pub open spec fn pixels_of(img: DynamicImage) -> Seq<Seq<[u8; 4]>> {
    Seq::new(
        image_height(img),
        |y: int| Seq::new(image_width(img), |x: int| image_pixel(img, x as nat, y as nat)),
    )
}

/// `image::load_from_memory`: guesses the format of the image file held in
/// `bytes` and decodes it.  Nothing is claimed of the outcome: which
/// formats are known, and how they are decoded, depends on how the `image`
/// crate was built and on the hooks registered with it in the process.
#[verifier::external_body]
fn decode_image(bytes: &[u8]) -> (r: Result<DynamicImage, ImageError>) {
    image::load_from_memory(bytes)
}

/// `DynamicImage::width`: the width of the image in pixels.
#[verifier::external_body]
fn width_of(img: &DynamicImage) -> (w: u32)
    ensures
        w == image_width(*img),
{
    img.width()
}

/// `DynamicImage::height`: the height of the image in pixels.
#[verifier::external_body]
fn height_of(img: &DynamicImage) -> (h: u32)
    ensures
        h == image_height(*img),
{
    img.height()
}

/// `GenericImageView::get_pixel` of `DynamicImage`: the pixel at `(x, y)`,
/// converted to eight-bit RGBA whatever the image's own colour type.  It
/// panics outside the image, which the precondition excludes.
#[verifier::external_body]
fn pixel_of(img: &DynamicImage, x: u32, y: u32) -> (p: [u8; 4])
    requires
        x < image_width(*img),
        y < image_height(*img),
    ensures
        p == image_pixel(*img, x as nat, y as nat),
{
    image::GenericImageView::get_pixel(img, x, y).0
}

/// Why a level could not be loaded.
#[derive(Debug)]
pub enum TileGridAssetLoaderError {
    /// The bytes could not be read.
    Io(std::io::Error),
    /// The bytes are not an image.
    Image(ImageError),
    /// A pixel of the image stands for no tile.
    Pixel(TileImageUnknownPixel),
}

/// `grid` holds, cell by cell, the tiles that `pixels` stand for, and is
/// as [`Grid::new`] builds it.
pub open spec fn depicts(grid: Grid<Tile>, pixels: Seq<Seq<[u8; 4]>>) -> bool {
    &&& grid@.len() == pixels.len()
    &&& forall|y: int| 0 <= y < pixels.len() ==> (#[trigger] grid@[y]).len() == pixels[y].len()
    &&& forall|x: int, y: int|
        0 <= y < pixels.len() && 0 <= x < pixels[y].len() ==> classify(#[trigger] pixels[y][x])
            == Ok::<Tile, UnknownPixel>(grid@[y][x])
    &&& grid.height() == grid@.len()
    &&& grid.width() == first_row_len(grid@)
    &&& rectangular(pixels) ==> grid.wf()
}

/// The pixel at column `x` of row `y` is `pixel`, it stands for no tile,
/// and it is the first such pixel of `pixels` in row-major order.
pub open spec fn first_unknown(x: int, y: int, pixel: [u8; 4], pixels: Seq<Seq<[u8; 4]>>) -> bool {
    &&& cell_of(pixels, x, y) == Some(pixel)
    &&& classify(pixel) is Err
    &&& forall|x2: int, y2: int|
        (y2 < y || (y2 == y && x2 < x)) ==> ((#[trigger] cell_of(pixels, x2, y2)) matches Some(p)
            ==> classify(p) is Ok)
}

/// Classifies every pixel of `pixels`, row by row.
///
/// Where every pixel stands for a tile, the grid of these tiles is
/// returned.  Otherwise there is no grid, and the first pixel in row-major
/// order that stands for no tile is returned with its column and row.
pub fn classify_pixels(pixels: &Vec<Vec<[u8; 4]>>) -> (r: Result<
    Grid<Tile>,
    (usize, usize, UnknownPixel),
>)
    ensures
        match r {
            Ok(grid) => depicts(grid, rows_of(pixels@)),
            Err((x, y, e)) => first_unknown(x as int, y as int, e.0, rows_of(pixels@)),
        },
{
    let mut rows: Vec<Vec<Result<Tile, UnknownPixel>>> = Vec::new();
    let mut y: usize = 0;
    while y < pixels.len()
        invariant
            y <= pixels@.len(),
            rows@.len() == y,
            forall|y2: int| 0 <= y2 < y ==> (#[trigger] rows@[y2])@.len() == pixels@[y2]@.len(),
            forall|x: int, y2: int|
                0 <= y2 < y && 0 <= x < pixels@[y2]@.len() ==> (#[trigger] rows@[y2]@[x])
                    == classify(pixels@[y2]@[x]),
        decreases pixels@.len() - y,
    {
        let line = &pixels[y];
        let mut row: Vec<Result<Tile, UnknownPixel>> = Vec::new();
        let mut x: usize = 0;
        while x < line.len()
            invariant
                x <= line@.len(),
                row@.len() == x,
                forall|x2: int| 0 <= x2 < x ==> (#[trigger] row@[x2]) == classify(line@[x2]),
            decreases line@.len() - x,
        {
            row.push(Tile::try_from(line[x]));
            x += 1;
        }
        rows.push(row);
        y += 1;
    }
    let ghost seen = rows_of(pixels@);
    let ghost answers = rows_of(rows@);
    match Grid::try_from_iter(rows) {
        Ok(grid) => {
            proof {
                assert forall|x: int, y: int|
                    0 <= y < seen.len() && 0 <= x < seen[y].len() implies classify(
                    #[trigger] seen[y][x],
                ) == Ok::<Tile, UnknownPixel>(grid@[y][x]) by {
                    assert(answers[y][x] == classify(seen[y][x]));
                    assert(rows@[y]@[x] == Ok::<Tile, UnknownPixel>(grid@[y][x]));
                }
                if rectangular(seen) {
                    assert(rectangular(answers)) by {
                        assert forall|y: int| 0 <= y < answers.len() implies (
                        #[trigger] answers[y]).len() == first_row_len(answers) by {
                            assert(seen[y].len() == first_row_len(seen));
                            assert(answers[0].len() == seen[0].len());
                        }
                    }
                }
            }
            Ok(grid)
        },
        Err((x, y, e)) => {
            proof {
                assert(cell_of(answers, x as int, y as int) is Some);
                assert(rows@[y as int]@[x as int] == Err::<Tile, UnknownPixel>(e));
                assert(cell_of(seen, x as int, y as int) == Some(e.0));
                assert forall|x2: int, y2: int| (y2 < y || (y2 == y && x2 < x)) implies ((
                #[trigger] cell_of(seen, x2, y2)) matches Some(p) ==> classify(p) is Ok) by {
                    if cell_of(seen, x2, y2) is Some {
                        assert(cell_of(answers, x2, y2) == Some(rows@[y2]@[x2]));
                    }
                }
            }
            Err((x, y, e))
        },
    }
}

/// The pixels of `img`, row by row.
fn pixel_rows(img: &DynamicImage) -> (rows: Vec<Vec<[u8; 4]>>)
    ensures
        rows_of(rows@) == pixels_of(*img),
        image_width(*img) <= u32::MAX,
        image_height(*img) <= u32::MAX,
{
    let w = width_of(img);
    let h = height_of(img);
    let mut rows: Vec<Vec<[u8; 4]>> = Vec::new();
    let mut y: u32 = 0;
    while y < h
        invariant
            w == image_width(*img),
            h == image_height(*img),
            y <= h,
            rows@.len() == y,
            forall|y2: int| 0 <= y2 < y ==> (#[trigger] rows@[y2])@ == pixels_of(*img)[y2],
        decreases h - y,
    {
        let mut row: Vec<[u8; 4]> = Vec::new();
        let mut x: u32 = 0;
        while x < w
            invariant
                w == image_width(*img),
                h == image_height(*img),
                y < h,
                x <= w,
                row@.len() == x,
                forall|x2: int|
                    0 <= x2 < x ==> (#[trigger] row@[x2]) == image_pixel(
                        *img,
                        x2 as nat,
                        y as nat,
                    ),
            decreases w - x,
        {
            row.push(pixel_of(img, x, y));
            x += 1;
        }
        assert(row@ =~= pixels_of(*img)[y as int]);
        rows.push(row);
        y += 1;
    }
    assert(rows_of(rows@) =~= pixels_of(*img));
    rows
}

impl TryFrom<&DynamicImage> for Grid<Tile> {
    type Error = TileImageUnknownPixel;

    /// The grid of the tiles that the pixels of `value` stand for, one
    /// cell for each pixel.  If a pixel stands for no tile there is no
    /// grid, and the first such pixel in row-major order is reported.
    fn try_from(value: &DynamicImage) -> (r: Result<Self, Self::Error>)
        ensures
            match r {
                Ok(grid) => depicts(grid, pixels_of(*value)) && grid.wf(),
                Err(e) => first_unknown(e.x as int, e.y as int, e.pixel, pixels_of(*value)),
            },
    {
        let rows = pixel_rows(value);
        match classify_pixels(&rows) {
            Ok(grid) => Ok(grid),
            Err((x, y, e)) => Err(TileImageUnknownPixel::new(x as u32, y as u32, e.0)),
        }
    }
}

impl TryFromSpecImpl<&DynamicImage> for Grid<Tile> {
    open spec fn obeys_try_from_spec() -> bool {
        false
    }

    open spec fn try_from_spec(v: &DynamicImage) -> Result<Self, Self::Error> {
        arbitrary()
    }
}

/// `grid` holds the tiles that the pixels of some image stand for.
pub open spec fn depicts_an_image(grid: Grid<Tile>) -> bool {
    exists|pixels: Seq<Seq<[u8; 4]>>| rectangular(pixels) && #[trigger] depicts(grid, pixels)
}

/// `e` reports the first pixel of some image that stands for no tile.
pub open spec fn reports_a_pixel(e: TileImageUnknownPixel) -> bool {
    exists|pixels: Seq<Seq<[u8; 4]>>|
        rectangular(pixels) && #[trigger] first_unknown(e.x as int, e.y as int, e.pixel, pixels)
}

/// Decodes the image file held in `bytes` and classifies its pixels.
///
/// Whether the bytes decode, and to which pixels, is the decoder's matter.
/// Where they do not, its error is handed on.  Where they do, the result
/// is what [`Grid::try_from`] gives for the decoded image: a well-formed
/// grid of the tiles that its pixels stand for, or the first pixel in
/// row-major order that stands for no tile.
pub fn decode_tile_grid(bytes: &[u8]) -> (r: Result<Grid<Tile>, TileGridAssetLoaderError>)
    ensures
        match r {
            Ok(grid) => grid.wf() && depicts_an_image(grid),
            Err(TileGridAssetLoaderError::Pixel(e)) => reports_a_pixel(e),
            Err(TileGridAssetLoaderError::Image(_)) => true,
            Err(TileGridAssetLoaderError::Io(_)) => false,
        },
{
    match decode_image(bytes) {
        Err(e) => Err(TileGridAssetLoaderError::Image(e)),
        Ok(img) => {
            let ghost pixels = pixels_of(img);
            match Grid::try_from(&img) {
                Ok(grid) => {
                    assert(rectangular(pixels) && depicts(grid, pixels));
                    Ok(grid)
                },
                Err(e) => {
                    assert(rectangular(pixels) && first_unknown(
                        e.x as int,
                        e.y as int,
                        e.pixel,
                        pixels,
                    ));
                    Err(TileGridAssetLoaderError::Pixel(e))
                },
            }
        },
    }
}

} // verus!
