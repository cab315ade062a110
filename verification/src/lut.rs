//! A lookup table that knows its own edge.

use crate::raster::{
    dimensions, fits_rgb8, image_channels, image_height, image_pixels, image_width,
};
use crate::{graded, graded_pixels, lemma_flat_index_in_cube, nearest_bin};
use image::DynamicImage;
use vstd::prelude::*;

verus! {

/// The third power of an integer.
pub open spec fn cube(n: int) -> int {
    n * n * n
}

/// Whether `root` is the integer nearest to the cube root of `count`, that
/// is whether the cube root lies between `root - 1/2` and `root + 1/2`.
/// The cube root of an integer is never an integer and a half, so exactly
/// one `root` qualifies for each `count`.
pub open spec fn is_nearest_cube_root(root: nat, count: nat) -> bool {
    cube(2 * root - 1) <= 8 * count < cube((2 * root + 1) as int)
}

/// A flattened cube of colours together with its edge.
pub struct Lut {
    lut: Vec<[u8; 3]>,
    lut_size: usize,
}

/// A [`Lut`] as a mathematical value.
pub struct LutModel {
    /// The colours of the table, red varying fastest.
    pub table: Seq<[u8; 3]>,
    /// The number of bins along each axis.
    pub edge: nat,
}

impl LutModel {
    /// A table is well formed when it has at least one bin per axis and holds
    /// one colour for every cell of the cube.
    pub open spec fn wf(self) -> bool {
        &&& self.edge >= 1
        &&& self.table.len() == cube(self.edge as int)
    }
}

impl View for Lut {
    type V = LutModel;

    closed spec fn view(&self) -> LutModel {
        LutModel { table: self.lut@, edge: self.lut_size as nat }
    }
}

impl Lut {
    /// Wraps a flattened table, taking as its edge the integer nearest to the
    /// cube root of the number of entries.
    ///
    /// The result is well formed exactly when the number of entries is the
    /// cube of a positive integer.
    pub fn new(lut: Vec<[u8; 3]>) -> (made: Self)
        ensures
            made@.table == lut@,
            is_nearest_cube_root(made@.edge, lut@.len()),
            made@.wf() <==> exists|n: nat| n >= 1 && lut@.len() == #[trigger] cube(n as int),
    {
        let count: u128 = lut.len() as u128;
        let mut low: u128 = 0;
        let mut high: u128 = SEARCH_LIMIT;
        assert(cube(0x80_0001int) > 8 * 0xffff_ffff_ffff_ffff) by (nonlinear_arith);
        assert(cube(-1) == -1) by (nonlinear_arith);
        while low < high
            invariant
                low <= high <= SEARCH_LIMIT,
                count == lut@.len(),
                count <= 0xffff_ffff_ffff_ffff,
                cube(2 * low - 1) <= 8 * count < cube((2 * high + 1) as int),
            decreases high - low,
        {
            let middle = low + (high - low) / 2;
            let odd: u128 = 2 * middle + 1;
            assert(odd * odd <= 0x80_0001 * 0x80_0001 && odd * odd * odd <= 0x80_0001 * 0x80_0001
                * 0x80_0001) by (nonlinear_arith)
                requires
                    0 <= odd <= 0x80_0001,
            ;
            if 8 * count < odd * odd * odd {
                high = middle;
            } else {
                low = middle + 1;
            }
        }
        let lut_size = low as usize;
        let made = Lut { lut, lut_size };
        proof {
            let len = made@.table.len();
            if exists|n: nat| n >= 1 && len == #[trigger] cube(n as int) {
                let n = choose|n: nat| n >= 1 && len == #[trigger] cube(n as int);
                lemma_nearest_cube_root_of_cube(n);
                lemma_nearest_cube_root_unique(n, made@.edge, len);
            }
        }
        made
    }

    /// Tells whether the table is well formed, which is what
    /// [`Lut::apply_to_color`] asks of it.
    pub fn is_well_formed(&self) -> (ok: bool)
        ensures
            ok == self@.wf(),
    {
        self.lut_size >= 1 && is_cube_of(self.lut.len(), self.lut_size)
    }

    /// Quantizes an 8-bit channel value to the nearest bin of this table.
    pub fn clamp_and_scale(&self, value: u8) -> (bin: usize)
        requires
            self@.edge >= 1,
        ensures
            bin == nearest_bin(value, self@.edge),
            bin < self@.edge,
    {
        crate::clamp_and_scale(value, self.lut_size)
    }

    /// Maps one colour through the table: each channel selects its nearest
    /// bin, and the three bins select the entry.
    pub fn apply_to_color(&self, color: [u8; 3]) -> (entry: [u8; 3])
        requires
            self@.wf(),
        ensures
            entry == graded(self@.table, self@.edge, color[0], color[1], color[2]),
    {
        let red = self.clamp_and_scale(color[0]);
        let green = self.clamp_and_scale(color[1]);
        let blue = self.clamp_and_scale(color[2]);
        // The table length is a `usize`, and no product below exceeds it.
        let entries = self.lut.len();
        proof {
            lemma_flat_index_in_cube(red as int, green as int, blue as int, self@.edge);
        }
        let index = red + green * self.lut_size + blue * self.lut_size * self.lut_size;
        assert(index < entries);
        self.lut[index]
    }
}

/// Maps every pixel of `image` through `lut` and returns the result as a new
/// 8-bit RGB image of the same size.
///
/// A table that is not well formed is rejected, and so is an image so large
/// that the samples of the result could not be counted in `usize`.
pub fn apply_lut(image: &DynamicImage, lut: &Lut) -> (result: Result<DynamicImage, &'static str>)
    ensures
        result is Ok <==> (lut@.wf() && fits_rgb8(image_width(*image), image_height(*image))),
        result matches Ok(graded_image) ==> ({
            &&& image_width(graded_image) == image_width(*image)
            &&& image_height(graded_image) == image_height(*image)
            &&& image_channels(graded_image) == 3
            &&& image_pixels(graded_image) == graded_pixels(
                image_pixels(*image),
                lut@.table,
                lut@.edge,
            )
        }),
        result matches Err(reason) ==> reason@ == (if lut@.wf() {
            "image is too large"@
        } else {
            "lookup table is not a cube"@
        }),
{
    if !lut.is_well_formed() {
        return Err("lookup table is not a cube");
    }
    let (width, height) = dimensions(image);
    let row: u128 = 3 * (width as u128);
    assert(3 * width * height == row * height && row * height <= 0x3_0000_0000 * 0x1_0000_0000)
        by (nonlinear_arith)
        requires
            row == 3 * width,
            0 <= row < 0x3_0000_0000,
            0 <= height < 0x1_0000_0000,
    ;
    if row > usize::MAX as u128 || row * (height as u128) > usize::MAX as u128 {
        return Err("image is too large");
    }
    Ok(crate::apply_lut(image, lut.lut.as_slice(), lut.lut_size))
}

/// Largest edge that the search for a cube root considers: the cube of
/// twice this edge plus one exceeds eight times any `usize`.
pub const SEARCH_LIMIT: u128 = 0x40_0000;

/// Tells whether `count` is the cube of `edge`.
pub fn is_cube_of(count: usize, edge: usize) -> (yes: bool)
    ensures
        yes == (count == cube(edge as int)),
{
    let edge: u128 = edge as u128;
    if edge > SEARCH_LIMIT {
        proof {
            lemma_cube_increases(0x40_0001, edge as int);
            assert(cube(0x40_0001) > 0xffff_ffff_ffff_ffff) by (nonlinear_arith);
        }
        return false;
    }
    assert(edge * edge <= 0x40_0000 * 0x40_0000 && edge * edge * edge <= 0x40_0000 * 0x40_0000
        * 0x40_0000) by (nonlinear_arith)
        requires
            0 <= edge <= 0x40_0000,
    ;
    edge * edge * edge == count as u128
}

/// Cubing preserves order.
pub proof fn lemma_cube_increases(a: int, b: int)
    requires
        a <= b,
    ensures
        cube(a) <= cube(b),
{
    assert(a * a * a <= b * b * b) by (nonlinear_arith)
        requires
            a <= b,
    {
        // b^3 - a^3 = (b - a) * (a^2 + a*b + b^2), and the second factor is
        // never negative: four times it is (2a + b)^2 + 3b^2.
        let s = a * a + a * b + b * b;
        assert(4 * s == (2 * a + b) * (2 * a + b) + 3 * (b * b));
        assert((2 * a + b) * (2 * a + b) >= 0);
        assert(b * b >= 0);
        assert(s >= 0);
        assert((b - a) * s >= 0);
        assert(b * b * b - a * a * a == (b - a) * s);
    }
}

/// At most one integer is the nearest cube root of a count.
pub proof fn lemma_nearest_cube_root_unique(first: nat, second: nat, count: nat)
    requires
        is_nearest_cube_root(first, count),
        is_nearest_cube_root(second, count),
    ensures
        first == second,
{
    if first < second {
        lemma_cube_increases((2 * first + 1) as int, 2 * second - 1);
    } else if second < first {
        lemma_cube_increases((2 * second + 1) as int, 2 * first - 1);
    }
}

/// The nearest cube root of a perfect cube is its root.
pub proof fn lemma_nearest_cube_root_of_cube(root: nat)
    ensures
        is_nearest_cube_root(root, cube(root as int) as nat),
{
    let n = root as int;
    assert(cube(n) >= 0) by (nonlinear_arith)
        requires
            n >= 0,
    ;
    assert(cube(2 * n - 1) <= 8 * cube(n) < cube(2 * n + 1)) by (nonlinear_arith)
        requires
            n >= 0,
    {
        assert(cube(2 * n) == 8 * cube(n));
        assert(cube(2 * n + 1) == cube(2 * n) + 12 * (n * n) + 6 * n + 1);
        assert(cube(2 * n - 1) == cube(2 * n) - 12 * (n * n) + 6 * n - 1);
        assert(12 * (n * n) >= 6 * n);
    }
}

} // verus!
