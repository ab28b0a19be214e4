//! An RGBA image held in memory, row after row, four bytes a pixel.
use vstd::prelude::*;

verus! {

/// Bytes a pixel takes.
pub const STRIDE: usize = 4;

/// An RGBA image, row after row from the top.
pub struct Bitmap {
    stride: usize,
    pixels: Vec<u8>,
    width: u32,
    height: u32,
}

impl Bitmap {
    pub closed spec fn spec_width(&self) -> u32 {
        self.width
    }

    pub closed spec fn spec_height(&self) -> u32 {
        self.height
    }

    /// The bytes of the image.
    pub closed spec fn spec_pixels(&self) -> Seq<u8> {
        self.pixels@
    }

    pub closed spec fn spec_stride(&self) -> usize {
        self.stride
    }

    /// Four bytes a pixel, for every pixel of the image.
    pub open spec fn wf(&self) -> bool {
        &&& self.spec_stride() == STRIDE
        &&& self.spec_pixels().len() == self.spec_width() * self.spec_height() * STRIDE
    }

    /// The first byte of the pixel at `(x, y)`.
    pub open spec fn pixel_index(&self, x: int, y: int) -> int {
        (y * self.spec_width() + x) * STRIDE
    }

    /// An image of `width` by `height` pixels with the given bytes.
    pub fn new(pixels: Vec<u8>, width: u32, height: u32) -> (r: Self)
        requires
            width * height <= u32::MAX,
            pixels@.len() == width * height * STRIDE,
        ensures
            r.wf(),
            r.spec_pixels() == pixels@,
            r.spec_width() == width,
            r.spec_height() == height,
    {
        Bitmap { pixels, stride: STRIDE, width, height }
    }

    /// One white pixel.
    pub fn new_empty() -> (r: Self)
        ensures
            r.wf(),
            r.spec_pixels() == seq![255u8, 255u8, 255u8, 255u8],
            r.spec_width() == 1,
            r.spec_height() == 1,
    {
        let pixels: Vec<u8> = vec![255u8, 255u8, 255u8, 255u8];
        assert(pixels@ =~= seq![255u8, 255u8, 255u8, 255u8]);
        Bitmap::new(pixels, 1, 1)
    }

    pub fn width(&self) -> (r: u32)
        ensures
            r == self.spec_width(),
    {
        self.width
    }

    pub fn height(&self) -> (r: u32)
        ensures
            r == self.spec_height(),
    {
        self.height
    }

    /// The bytes of row `y`.
    pub fn row(&self, y: usize) -> (r: &[u8])
        requires
            self.wf(),
            y < self.spec_height() || (self.spec_width() == 0 && y < usize::MAX),
        ensures
            r@ == self.spec_pixels().subrange(
                y * self.spec_width() * STRIDE,
                (y + 1) * self.spec_width() * STRIDE,
            ),
    {
        let w = self.width as usize;
        let n = self.pixels.len();
        proof {
            let h = self.spec_height() as int;
            assert(y * w * 4 <= (y + 1) * w * 4 && (y + 1) * w * 4 <= n) by (nonlinear_arith)
                requires
                    0 <= y < h || w == 0,
                    0 <= y,
                    0 <= w,
                    0 <= h,
                    n == w * h * 4,
            ;
        }
        let start = y * w * self.stride;
        let end = (y + 1) * w * self.stride;
        vstd::slice::slice_subrange(self.pixels.as_slice(), start, end)
    }

    /// Sets the pixel at `(x, y)`, counted in pixels from the first of row `y`.
    pub fn set_color(&mut self, x: u32, y: u32, color: &(u8, u8, u8, u8))
        requires
            old(self).wf(),
            y * old(self).spec_width() + x <= u32::MAX,
            old(self).pixel_index(x as int, y as int) + STRIDE <= old(self).spec_pixels().len(),
        ensures
            final(self).wf(),
            final(self).spec_width() == old(self).spec_width(),
            final(self).spec_height() == old(self).spec_height(),
            ({
                let i = old(self).pixel_index(x as int, y as int);
                final(self).spec_pixels() == old(self).spec_pixels().update(i, color.0).update(i + 1, color.1).update(
                    i + 2,
                    color.2,
                ).update(i + 3, color.3)
            }),
    {
        let n = self.pixels.len();
        let index = (y * self.width + x) as usize * self.stride;
        self.pixels.set(index, color.0);
        self.pixels.set(index + 1, color.1);
        self.pixels.set(index + 2, color.2);
        self.pixels.set(index + 3, color.3);
    }

    /// Bytes a pixel takes.
    pub fn stride(&self) -> (r: usize)
        ensures
            r == self.spec_stride(),
    {
        self.stride
    }
}

/// Row `y` of an image `w` pixels wide starts at byte `y * w * 4`; the pixel at
/// `(x, y)`, for `x < w`, is the `x`-th group of four bytes of that row.
pub(crate) proof fn lemma_pixel_offset(w: int, h: int, x: int, y: int)
    by (nonlinear_arith)
    requires
        0 <= x < w,
        0 <= y < h,
    ensures
        (y * w + x) * 4 == y * w * 4 + 4 * x,
        0 <= y * w * 4,
        y * w * 4 + 4 * x + 4 <= (y + 1) * w * 4,
        (y + 1) * w * 4 <= w * h * 4,
        (y + 1) * w * 4 - y * w * 4 == w * 4,
{
}

/// The rows of an image do not overlap: row `y` ends where row `y + 1` starts, so
/// before every later row.
pub(crate) proof fn lemma_rows_apart(w: int, y: int, z: int)
    by (nonlinear_arith)
    requires
        0 <= w,
        0 <= y < z,
    ensures
        (y + 1) * w * 4 <= z * w * 4,
{
}

/// Setting the pixel at `(x, y)` of a bitmap `w` by `h` (`x < w`, `y < h`) writes the
/// colour into bytes `4x` to `4x + 3` of row `y` (the row `row(y)` hands out) and
/// leaves every other byte as it was, so every other row too.
pub proof fn lemma_set_color_in_row(before: Bitmap, after: Bitmap, x: u32, y: u32, color: (u8, u8, u8, u8))
    requires
        before.wf(),
        x < before.spec_width(),
        y < before.spec_height(),
        after.spec_width() == before.spec_width(),
        after.spec_height() == before.spec_height(),
        ({
            let i = before.pixel_index(x as int, y as int);
            after.spec_pixels() == before.spec_pixels().update(i, color.0).update(i + 1, color.1).update(
                i + 2,
                color.2,
            ).update(i + 3, color.3)
        }),
    ensures
        ({
            let w = before.spec_width() as int;
            let row = after.spec_pixels().subrange(y * w * 4, (y + 1) * w * 4);
            let at = y * w * 4 + 4 * x;
            &&& after.spec_pixels().len() == before.spec_pixels().len()
            &&& row.len() == w * 4
            &&& row[4 * x] == color.0 && row[4 * x + 1] == color.1
            &&& row[4 * x + 2] == color.2 && row[4 * x + 3] == color.3
            &&& forall|k: int|
                0 <= k < before.spec_pixels().len() && !(at <= k < at + 4) ==> #[trigger] after.spec_pixels()[k]
                    == before.spec_pixels()[k]
            &&& forall|z: int|
                0 <= z < before.spec_height() && z != y ==> #[trigger] after.spec_pixels().subrange(z * w * 4, (z + 1) * w * 4)
                    == before.spec_pixels().subrange(z * w * 4, (z + 1) * w * 4)
        }),
{
    let w = before.spec_width() as int;
    let h = before.spec_height() as int;
    lemma_pixel_offset(w, h, x as int, y as int);
    let at = y * w * 4 + 4 * x;
    assert(before.pixel_index(x as int, y as int) == at);
    assert(before.spec_pixels().len() == w * h * 4);
    let row = after.spec_pixels().subrange(y * w * 4, (y + 1) * w * 4);
    assert(row[4 * x] == after.spec_pixels()[at]);
    assert(row[4 * x + 1] == after.spec_pixels()[at + 1]);
    assert(row[4 * x + 2] == after.spec_pixels()[at + 2]);
    assert(row[4 * x + 3] == after.spec_pixels()[at + 3]);
    assert forall|z: int| 0 <= z < h && z != y implies #[trigger] after.spec_pixels().subrange(z * w * 4, (z + 1) * w * 4)
        == before.spec_pixels().subrange(z * w * 4, (z + 1) * w * 4) by {
        lemma_pixel_offset(w, h, 0, z);
        if z < y {
            lemma_rows_apart(w, z, y as int);
        } else {
            lemma_rows_apart(w, y as int, z);
        }
        assert(after.spec_pixels().subrange(z * w * 4, (z + 1) * w * 4) =~= before.spec_pixels().subrange(
            z * w * 4,
            (z + 1) * w * 4,
        ));
    }
}

} // verus!
