//! An RGBA image addressed by pixel, four bytes a pixel, row after row.
use vstd::prelude::*;
use crate::bitmap::{lemma_pixel_offset, lemma_rows_apart};

verus! {

/// Bytes a pixel takes.
pub const IMAGE_STRIDE: usize = 4;

/// An RGBA image of `size.0` by `size.1` pixels, row after row from the top.
pub struct Image {
    stride: usize,
    image: Vec<u8>,
    size: (u32, u32),
}

impl Image {
    pub closed spec fn spec_size(&self) -> (u32, u32) {
        self.size
    }

    /// The bytes of the image.
    pub closed spec fn spec_bytes(&self) -> Seq<u8> {
        self.image@
    }

    pub closed spec fn spec_stride(&self) -> usize {
        self.stride
    }

    /// Four bytes a pixel, for every pixel of the image.
    pub open spec fn wf(&self) -> bool {
        &&& self.spec_stride() == IMAGE_STRIDE
        &&& self.spec_bytes().len() == self.spec_size().0 * self.spec_size().1 * IMAGE_STRIDE
    }

    /// The first byte of the pixel at `(x, y)`.
    pub open spec fn byte_index(&self, x: int, y: int) -> int {
        (y * self.spec_size().0 + x) * IMAGE_STRIDE
    }

    /// An image of the given size with the given bytes.
    pub fn new(raw: Vec<u8>, size: (u32, u32)) -> (r: Self)
        requires
            size.0 * size.1 <= u32::MAX,
            raw@.len() == size.0 * size.1 * IMAGE_STRIDE,
        ensures
            r.wf(),
            r.spec_bytes() == raw@,
            r.spec_size() == size,
    {
        Image { image: raw, stride: IMAGE_STRIDE, size }
    }

    /// One white pixel.
    pub fn new_empty() -> (r: Self)
        ensures
            r.wf(),
            r.spec_bytes() == seq![255u8, 255u8, 255u8, 255u8],
            r.spec_size() == (1u32, 1u32),
    {
        let raw: Vec<u8> = vec![255u8, 255u8, 255u8, 255u8];
        assert(raw@ =~= seq![255u8, 255u8, 255u8, 255u8]);
        let size: (u32, u32) = (1, 1);
        assert(size.0 * size.1 == 1) by (nonlinear_arith)
            requires
                size.0 == 1,
                size.1 == 1,
        ;
        Image::new(raw, size)
    }

    /// A transparent black image of the given size.
    pub fn new_empty_with_size(size: (u32, u32)) -> (r: Self)
        requires
            size.0 * size.1 <= u32::MAX,
            size.0 * size.1 * IMAGE_STRIDE <= usize::MAX,
        ensures
            r.wf(),
            r.spec_size() == size,
            r.spec_bytes() == Seq::new((size.0 * size.1 * IMAGE_STRIDE) as nat, |i: int| 0u8),
    {
        let n = (size.0 * size.1) as usize * IMAGE_STRIDE;
        let mut pixels: Vec<u8> = Vec::new();
        let mut i: usize = 0;
        while i < n
            invariant
                i <= n,
                pixels@ == Seq::new(i as nat, |k: int| 0u8),
            decreases n - i,
        {
            pixels.push(0u8);
            i = i + 1;
            assert(pixels@ =~= Seq::new(i as nat, |k: int| 0u8));
        }
        Image::new(pixels, size)
    }

    pub fn size(&self) -> (r: &(u32, u32))
        ensures
            *r == self.spec_size(),
    {
        &self.size
    }

    /// The bytes of row `y`.
    pub fn row(&self, y: usize) -> (r: &[u8])
        requires
            self.wf(),
            y < self.spec_size().1 || (self.spec_size().0 == 0 && y < usize::MAX),
        ensures
            r@ == self.spec_bytes().subrange(
                y * self.spec_size().0 * IMAGE_STRIDE,
                (y + 1) * self.spec_size().0 * IMAGE_STRIDE,
            ),
    {
        let w = self.size.0 as usize;
        let n = self.image.len();
        proof {
            let h = self.spec_size().1 as int;
            assert(y * w * 4 <= (y + 1) * w * 4 && (y + 1) * w * 4 <= n) by (nonlinear_arith)
                requires
                    0 <= y < h || w == 0,
                    0 <= y,
                    0 <= w,
                    0 <= h,
                    n == w * h * 4,
            ;
        }
        let start = y * w * self.stride;
        let end = (y + 1) * w * self.stride;
        vstd::slice::slice_subrange(self.image.as_slice(), start, end)
    }

    /// Sets the pixel at `(x, y)`, counted in pixels from the first of row `y`.
    pub fn set_color(&mut self, point: (usize, usize), color: (u8, u8, u8, u8))
        requires
            old(self).wf(),
            old(self).byte_index(point.0 as int, point.1 as int) + IMAGE_STRIDE <= old(self).spec_bytes().len(),
        ensures
            final(self).wf(),
            final(self).spec_size() == old(self).spec_size(),
            ({
                let i = old(self).byte_index(point.0 as int, point.1 as int);
                final(self).spec_bytes() == old(self).spec_bytes().update(i, color.0).update(i + 1, color.1).update(
                    i + 2,
                    color.2,
                ).update(i + 3, color.3)
            }),
    {
        let n = self.image.len();
        let width = self.size.0 as usize;
        let index = (point.1 * width + point.0) * self.stride;
        self.image.set(index, color.0);
        self.image.set(index + 1, color.1);
        self.image.set(index + 2, color.2);
        self.image.set(index + 3, color.3);
    }

    /// The pixel at `(x, y)`.
    pub fn get_color(&self, point: (usize, usize)) -> (r: (u8, u8, u8, u8))
        requires
            self.wf(),
            self.byte_index(point.0 as int, point.1 as int) + IMAGE_STRIDE <= self.spec_bytes().len(),
        ensures
            ({
                let i = self.byte_index(point.0 as int, point.1 as int);
                r == (self.spec_bytes()[i], self.spec_bytes()[i + 1], self.spec_bytes()[i + 2], self.spec_bytes()[i + 3])
            }),
    {
        let n = self.image.len();
        let width = self.size.0 as usize;
        let index = (point.1 * width + point.0) * self.stride;
        (self.image[index], self.image[index + 1], self.image[index + 2], self.image[index + 3])
    }

    /// Bytes a pixel takes.
    pub fn stride(&self) -> (r: usize)
        ensures
            r == self.spec_stride(),
    {
        self.stride
    }

    /// The bytes of the image.
    pub fn bytes(&self) -> (r: &[u8])
        ensures
            r@ == self.spec_bytes(),
    {
        self.image.as_slice()
    }
}

/// The pixel at `(x, y)` of an image `w` by `h` (`x < w`, `y < h`) is the `x`-th
/// group of four bytes of row `y`, the row that `row(y)` hands out: what `get_color`
/// gives for it is bytes `4x` to `4x + 3` of that row.
pub proof fn lemma_pixel_in_row(image: Image, x: usize, y: usize)
    requires
        image.wf(),
        x < image.spec_size().0,
        y < image.spec_size().1,
    ensures
        ({
            let w = image.spec_size().0 as int;
            let row = image.spec_bytes().subrange(y * w * 4, (y + 1) * w * 4);
            let i = image.byte_index(x as int, y as int);
            &&& row.len() == w * 4
            &&& i + IMAGE_STRIDE <= image.spec_bytes().len()
            &&& forall|k: int| 0 <= k < 4 ==> #[trigger] row[4 * x + k] == image.spec_bytes()[i + k]
        }),
{
    let w = image.spec_size().0 as int;
    let h = image.spec_size().1 as int;
    lemma_pixel_offset(w, h, x as int, y as int);
    assert(image.byte_index(x as int, y as int) == y * w * 4 + 4 * x);
}

/// Setting the pixel at `(x, y)` of an image `w` by `h` (`x < w`, `y < h`) writes the
/// colour into bytes `4x` to `4x + 3` of row `y` and leaves every other byte as it
/// was, so every other row too.
pub proof fn lemma_set_color_in_row(before: Image, after: Image, x: usize, y: usize, color: (u8, u8, u8, u8))
    requires
        before.wf(),
        x < before.spec_size().0,
        y < before.spec_size().1,
        after.spec_size() == before.spec_size(),
        ({
            let i = before.byte_index(x as int, y as int);
            after.spec_bytes() == before.spec_bytes().update(i, color.0).update(i + 1, color.1).update(
                i + 2,
                color.2,
            ).update(i + 3, color.3)
        }),
    ensures
        ({
            let w = before.spec_size().0 as int;
            let row = after.spec_bytes().subrange(y * w * 4, (y + 1) * w * 4);
            let at = y * w * 4 + 4 * x;
            &&& after.spec_bytes().len() == before.spec_bytes().len()
            &&& row.len() == w * 4
            &&& row[4 * x] == color.0 && row[4 * x + 1] == color.1
            &&& row[4 * x + 2] == color.2 && row[4 * x + 3] == color.3
            &&& forall|k: int|
                0 <= k < before.spec_bytes().len() && !(at <= k < at + 4) ==> #[trigger] after.spec_bytes()[k]
                    == before.spec_bytes()[k]
            &&& forall|z: int|
                0 <= z < before.spec_size().1 && z != y ==> #[trigger] after.spec_bytes().subrange(z * w * 4, (z + 1) * w * 4)
                    == before.spec_bytes().subrange(z * w * 4, (z + 1) * w * 4)
        }),
{
    let w = before.spec_size().0 as int;
    let h = before.spec_size().1 as int;
    lemma_pixel_offset(w, h, x as int, y as int);
    let at = y * w * 4 + 4 * x;
    assert(before.byte_index(x as int, y as int) == at);
    assert(before.spec_bytes().len() == w * h * 4);
    let row = after.spec_bytes().subrange(y * w * 4, (y + 1) * w * 4);
    assert(row[4 * x] == after.spec_bytes()[at]);
    assert(row[4 * x + 1] == after.spec_bytes()[at + 1]);
    assert(row[4 * x + 2] == after.spec_bytes()[at + 2]);
    assert(row[4 * x + 3] == after.spec_bytes()[at + 3]);
    assert forall|z: int| 0 <= z < h && z != y implies #[trigger] after.spec_bytes().subrange(z * w * 4, (z + 1) * w * 4)
        == before.spec_bytes().subrange(z * w * 4, (z + 1) * w * 4) by {
        lemma_pixel_offset(w, h, 0, z);
        if z < y {
            lemma_rows_apart(w, z, y as int);
        } else {
            lemma_rows_apart(w, y as int, z);
        }
        assert(after.spec_bytes().subrange(z * w * 4, (z + 1) * w * 4) =~= before.spec_bytes().subrange(
            z * w * 4,
            (z + 1) * w * 4,
        ));
    }
}

} // verus!
