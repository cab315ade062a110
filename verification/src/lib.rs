//! Colour grading of raster images with 3D lookup tables in the `.cube`
//! text format.
//!
//! [`cube::parse_cube_file`] decodes the text of a `.cube` file into a dense
//! table of `N * N * N` colours, and [`apply_lut`] maps every pixel of an
//! image through such a table by nearest-neighbour quantization: each 8-bit
//! channel selects the nearest of the `N` bins along its axis, and the three
//! bins select one table entry, red varying fastest.

use vstd::prelude::*;

pub mod cube;
pub mod decimal;
pub mod lut;
pub mod raster;
pub mod text;

use image::DynamicImage;
use raster::{
    dimensions, fits_rgb8, get_pixel, image_channels, image_height, image_pixels, image_width,
    rgb8_from_raw,
};

verus! {

/// The bin, out of `edge` equally spaced bins along one axis of the cube,
/// that lies nearest to an 8-bit channel value: `value / 255 * (edge - 1)`
/// rounded to the nearest integer.
pub open spec fn nearest_bin(value: u8, edge: nat) -> int {
    (2 * value * (edge - 1) + 255) / 510
}

/// Position in the flattened table of the cell with the given bin along each
/// axis: red varies fastest, then green, then blue.
pub open spec fn flat_index(red: int, green: int, blue: int, edge: nat) -> int {
    red + green * edge + blue * edge * edge
}

/// The table entry that a colour is mapped to.
pub open spec fn graded(table: Seq<[u8; 3]>, edge: nat, red: u8, green: u8, blue: u8) -> [u8; 3] {
    table[flat_index(
        nearest_bin(red, edge),
        nearest_bin(green, edge),
        nearest_bin(blue, edge),
        edge,
    )]
}

/// The pixels of a graded image: every pixel of the source replaced by the
/// table entry for its red, green and blue samples, and made fully opaque.
/// The alpha sample of the source plays no part.
pub open spec fn graded_pixels(pixels: Seq<[u8; 4]>, table: Seq<[u8; 3]>, edge: nat) -> Seq<
    [u8; 4],
> {
    Seq::new(
        pixels.len(),
        |k: int|
            {
                let entry = graded(table, edge, pixels[k][0], pixels[k][1], pixels[k][2]);
                [entry[0], entry[1], entry[2], 255u8]
            },
    )
}

/// Quantizes an 8-bit channel value to the nearest of `lut_size` bins.
///
/// A table of edge one has a single bin, which every value falls into.
pub fn clamp_and_scale(value: u8, lut_size: usize) -> (bin: usize)
    requires
        lut_size >= 1,
    ensures
        bin == nearest_bin(value, lut_size as nat),
        bin < lut_size,
{
    let span: u128 = (lut_size - 1) as u128;
    let doubled: u128 = 2 * (value as u128);
    assert(doubled * span <= 510 * span) by (nonlinear_arith)
        requires
            doubled <= 510,
            span >= 0,
    ;
    let scaled: u128 = doubled * span + 255;
    assert(scaled == 2 * value * (lut_size as nat - 1) + 255) by (nonlinear_arith)
        requires
            scaled == doubled * span + 255,
            doubled == 2 * value,
            span == lut_size as nat - 1,
    ;
    (scaled / 510) as usize
}

/// Looks a colour up in a flattened table of edge `lut_size`.
pub(crate) fn table_entry(lut: &[[u8; 3]], lut_size: usize, red: u8, green: u8, blue: u8) -> (entry:
    [u8; 3])
    requires
        lut_size >= 1,
        lut@.len() == lut_size * lut_size * lut_size,
    ensures
        entry == graded(lut@, lut_size as nat, red, green, blue),
{
    let r = clamp_and_scale(red, lut_size);
    let g = clamp_and_scale(green, lut_size);
    let b = clamp_and_scale(blue, lut_size);
    // The table length is a `usize`, and no product below exceeds it.
    let entries = lut.len();
    proof {
        lemma_flat_index_in_cube(r as int, g as int, b as int, lut_size as nat);
    }
    let index = r + g * lut_size + b * lut_size * lut_size;
    assert(index < entries);
    lut[index]
}

/// Maps every pixel of `image` through the lookup table `lut` of edge
/// `lut_size` and returns the result as a new 8-bit RGB image of the same
/// size. The source image is left untouched.
///
/// The table must hold `lut_size * lut_size * lut_size` entries, and an edge
/// of zero is not a table. The samples of the result must be countable in
/// `usize`, as those of any image in memory are where `usize` has 64 bits.
pub fn apply_lut(image: &DynamicImage, lut: &[[u8; 3]], lut_size: usize) -> (graded_image:
    DynamicImage)
    requires
        lut_size >= 1,
        lut@.len() == lut_size * lut_size * lut_size,
        fits_rgb8(image_width(*image), image_height(*image)),
    ensures
        image_width(graded_image) == image_width(*image),
        image_height(graded_image) == image_height(*image),
        image_channels(graded_image) == 3,
        image_pixels(graded_image) == graded_pixels(image_pixels(*image), lut@, lut_size as nat),
{
    let (width, height) = dimensions(image);
    let ghost source = image_pixels(*image);
    let mut samples: Vec<u8> = Vec::new();
    let mut y: u32 = 0;
    while y < height
        invariant
            y <= height,
            y * width <= width * height,
            width == image_width(*image),
            height == image_height(*image),
            source == image_pixels(*image),
            source.len() == width * height,
            lut_size >= 1,
            lut@.len() == lut_size * lut_size * lut_size,
            samples@.len() == 3 * (y * width),
            forall|k: int|
                0 <= k < y * width ==> {
                    let entry = #[trigger] graded(
                        lut@,
                        lut_size as nat,
                        source[k][0],
                        source[k][1],
                        source[k][2],
                    );
                    &&& samples@[3 * k] == entry[0]
                    &&& samples@[3 * k + 1] == entry[1]
                    &&& samples@[3 * k + 2] == entry[2]
                },
        decreases height - y,
    {
        let ghost row = y * width;
        assert(row + width <= width * height && row >= 0 && row + width == (y + 1) * width)
            by (nonlinear_arith)
            requires
                row == y * width,
                0 <= y < height,
                width >= 0,
        ;
        let mut x: u32 = 0;
        while x < width
            invariant
                x <= width,
                y < height,
                row == y * width,
                row + width <= width * height,
                width == image_width(*image),
                height == image_height(*image),
                source == image_pixels(*image),
                source.len() == width * height,
                lut_size >= 1,
                lut@.len() == lut_size * lut_size * lut_size,
                samples@.len() == 3 * (row + x),
                forall|k: int|
                    0 <= k < row + x ==> {
                        let entry = #[trigger] graded(
                            lut@,
                            lut_size as nat,
                            source[k][0],
                            source[k][1],
                            source[k][2],
                        );
                        &&& samples@[3 * k] == entry[0]
                        &&& samples@[3 * k + 1] == entry[1]
                        &&& samples@[3 * k + 2] == entry[2]
                    },
            decreases width - x,
        {
            let pixel = get_pixel(image, x, y);
            let entry = table_entry(lut, lut_size, pixel[0], pixel[1], pixel[2]);
            samples.push(entry[0]);
            samples.push(entry[1]);
            samples.push(entry[2]);
            x += 1;
        }
        y += 1;
    }
    assert(y * width == width * height) by (nonlinear_arith)
        requires
            y == height,
    ;
    assert(3 * width * height == 3 * (width * height)) by (nonlinear_arith);
    let made = rgb8_from_raw(width, height, samples);
    let graded_image = made.unwrap();
    assert(samples@.take(3 * width * height) == samples@);
    assert(image_pixels(graded_image) =~= graded_pixels(source, lut@, lut_size as nat));
    graded_image
}

/// `nearest_bin` rounds: the bin it names is an integer in `0..edge` whose
/// distance from the exact position `value * (edge - 1) / 255` is less than
/// one half. No other integer is that close, and no channel value falls
/// exactly between two bins.
pub proof fn lemma_nearest_bin_rounds(value: u8, edge: nat)
    requires
        edge >= 1,
    ensures
        0 <= nearest_bin(value, edge) < edge,
        510 * nearest_bin(value, edge) - 255 < 2 * value * (edge - 1) < 510 * nearest_bin(
            value,
            edge,
        ) + 255,
{
    let span = edge - 1;
    let product = value * span;
    assert(0 <= product <= 255 * span) by (nonlinear_arith)
        requires
            0 <= value <= 255,
            span >= 0,
            product == value * span,
    ;
    assert(2 * value * span == 2 * product) by (nonlinear_arith)
        requires
            product == value * span,
    ;
    // 510 * bin and 2 * product are even and 255 is odd, so neither bound is met
    // with equality.
    assert(nearest_bin(value, edge) == (2 * product + 255) / 510);
}

/// The ends of the channel range fall into the ends of the axis: zero into
/// the first bin and 255 into the last.
pub proof fn lemma_nearest_bin_ends(edge: nat)
    requires
        edge >= 1,
    ensures
        nearest_bin(0, edge) == 0,
        nearest_bin(255, edge) == edge - 1,
{
    let span = edge - 1;
    assert(2 * 0u8 * span == 0) by (nonlinear_arith);
    assert(2 * 255u8 * span == 510 * span) by (nonlinear_arith);
}

/// With 256 bins every channel value has a bin of its own.
pub proof fn lemma_nearest_bin_of_256(value: u8)
    ensures
        nearest_bin(value, 256) == value,
{
    assert(2 * value * (256nat - 1) == 510 * value) by (nonlinear_arith);
}

/// The cells of a cube of edge `edge` lie at the first `edge * edge * edge`
/// positions of the table.
pub proof fn lemma_flat_index_in_cube(red: int, green: int, blue: int, edge: nat)
    requires
        0 <= red < edge,
        0 <= green < edge,
        0 <= blue < edge,
    ensures
        0 <= red + green * edge < edge * edge,
        0 <= blue * edge < edge * edge,
        0 <= blue * edge * edge,
        edge * edge <= edge * edge * edge,
        0 <= flat_index(red, green, blue, edge) < edge * edge * edge,
{
    let n = edge as int;
    assert(0 <= green * n <= (n - 1) * n) by (nonlinear_arith)
        requires
            0 <= green <= n - 1,
            n >= 1,
    ;
    assert(0 <= blue * n <= (n - 1) * n) by (nonlinear_arith)
        requires
            0 <= blue <= n - 1,
            n >= 1,
    ;
    let rows = blue * n;
    assert(0 <= rows * n <= ((n - 1) * n) * n) by (nonlinear_arith)
        requires
            0 <= rows <= (n - 1) * n,
            n >= 1,
    ;
    assert(((n - 1) * n) * n == n * n * n - n * n && (n - 1) * n == n * n - n)
        by (nonlinear_arith);
    assert(n * n <= n * n * n) by (nonlinear_arith)
        requires
            n >= 1,
    ;
}

/// No two cells of a cube share a position in the table.
pub proof fn lemma_flat_index_is_one_to_one(
    red: int,
    green: int,
    blue: int,
    other_red: int,
    other_green: int,
    other_blue: int,
    edge: nat,
)
    requires
        0 <= red < edge,
        0 <= green < edge,
        0 <= blue < edge,
        0 <= other_red < edge,
        0 <= other_green < edge,
        0 <= other_blue < edge,
        flat_index(red, green, blue, edge) == flat_index(other_red, other_green, other_blue, edge),
    ensures
        red == other_red,
        green == other_green,
        blue == other_blue,
{
    let n = edge as int;
    lemma_flat_index_in_cube(red, green, blue, edge);
    lemma_flat_index_in_cube(other_red, other_green, other_blue, edge);
    // A cell in a higher layer lies beyond every cell of a lower one, and
    // within a layer a cell in a higher row beyond every cell of a lower one.
    if blue != other_blue {
        assert(blue * n * n - other_blue * n * n == (blue - other_blue) * (n * n))
            by (nonlinear_arith);
        assert((blue - other_blue) * (n * n) >= n * n || (blue - other_blue) * (n * n) <= -(n * n))
            by (nonlinear_arith)
            requires
                blue != other_blue,
                n >= 1,
        ;
    } else if green != other_green {
        assert(green * n - other_green * n == (green - other_green) * n) by (nonlinear_arith);
        assert((green - other_green) * n >= n || (green - other_green) * n <= -n)
            by (nonlinear_arith)
            requires
                green != other_green,
                n >= 1,
        ;
    }
}

/// Whether a table of edge 256 holds at every cell the colour that selects
/// the cell.
pub open spec fn is_identity_table(table: Seq<[u8; 3]>) -> bool {
    &&& table.len() == 256 * 256 * 256
    &&& forall|red: u8, green: u8, blue: u8| #[trigger]
        table[flat_index(red as int, green as int, blue as int, 256)] == [red, green, blue]
}

/// Grading with the identity table gives every colour back.
pub proof fn lemma_identity_table_keeps_colors(table: Seq<[u8; 3]>, red: u8, green: u8, blue: u8)
    requires
        is_identity_table(table),
    ensures
        graded(table, 256, red, green, blue) == [red, green, blue],
{
    lemma_nearest_bin_of_256(red);
    lemma_nearest_bin_of_256(green);
    lemma_nearest_bin_of_256(blue);
}

/// Grading an image with the identity table reproduces the red, green and
/// blue samples of every pixel. Only the alpha sample is replaced, by full
/// opacity.
pub proof fn lemma_identity_table_keeps_pixels(pixels: Seq<[u8; 4]>, table: Seq<[u8; 3]>)
    requires
        is_identity_table(table),
    ensures
        graded_pixels(pixels, table, 256).len() == pixels.len(),
        forall|k: int|
            0 <= k < pixels.len() ==> #[trigger] graded_pixels(pixels, table, 256)[k] == [
                pixels[k][0],
                pixels[k][1],
                pixels[k][2],
                255u8,
            ],
{
    assert forall|k: int| 0 <= k < pixels.len() implies #[trigger] graded_pixels(
        pixels,
        table,
        256,
    )[k] == [pixels[k][0], pixels[k][1], pixels[k][2], 255u8] by {
        lemma_identity_table_keeps_colors(table, pixels[k][0], pixels[k][1], pixels[k][2]);
    }
}

} // verus!
