use vstd::arithmetic::mul::lemma_mul_inequality;
use vstd::prelude::*;

verus! {

/// Position of channel `c` of pixel `(x, y)` in a row-major RGB buffer `width` pixels wide.
pub open spec fn pixel_index(width: int, x: int, y: int, c: int) -> int {
    (y * width + x) * 3 + c
}

/// `base` with the rows of `tile` written over it from row `row_begin` on:
/// in a row-major buffer those rows are one contiguous run of bytes.
pub open spec fn placed(base: Seq<u8>, width: int, row_begin: int, tile: Seq<u8>) -> Seq<u8> {
    let offset = row_begin * width * 3;
    Seq::new(
        base.len(),
        |k: int|
            if offset <= k < offset + tile.len() {
                tile[k - offset]
            } else {
                base[k]
            },
    )
}

/// `data` is `base` turned upside down: row `y` of one is row `height - 1 - y`
/// of the other.
pub open spec fn flipped_vertically(data: Seq<u8>, base: Seq<u8>, width: int, height: int) -> bool {
    &&& data.len() == base.len()
    &&& forall|x: int, y: int, c: int|
        0 <= x < width && 0 <= y < height && 0 <= c < 3 ==> #[trigger] data[pixel_index(width, x, y, c)]
            == base[pixel_index(width, x, height - 1 - y, c)]
}

proof fn lemma_pixel_index_bounds(width: int, height: int, x: int, y: int, c: int)
    requires
        0 <= x < width,
        0 <= y < height,
        0 <= c < 3,
    ensures
        0 <= y * width <= y * width + x < width * height,
        0 <= pixel_index(width, x, y, c) < width * height * 3,
{
    assert(0 <= y * width <= y * width + x < width * height) by (nonlinear_arith)
        requires
            0 <= x < width,
            0 <= y < height,
    ;
    assert(0 <= pixel_index(width, x, y, c) < width * height * 3) by (nonlinear_arith)
        requires
            0 <= x < width,
            0 <= y < height,
            0 <= c < 3,
    ;
}

/// Relies on image::imageops::rotate180: pixel `(x, y)` of the result is pixel
/// `(width - 1 - x, height - 1 - y)` of the image, whose raw RGB bytes are `data`.
#[verifier::external_body]
fn rotate_half_turn(width: u32, height: u32, data: Vec<u8>) -> (r: Vec<u8>)
    requires
        data@.len() == width * height * 3,
    ensures
        r@.len() == data@.len(),
        forall|x: int, y: int, c: int|
            0 <= x < width && 0 <= y < height && 0 <= c < 3 ==> #[trigger] r@[pixel_index(
                width as int,
                x,
                y,
                c,
            )] == data@[pixel_index(width as int, width - 1 - x, height - 1 - y, c)],
{
    let img: image::RgbImage = image::ImageBuffer::from_raw(width, height, data).unwrap();
    image::imageops::rotate180(&img).into_raw()
}

/// Relies on image::imageops::flip_horizontal: pixel `(x, y)` of the result is
/// pixel `(width - 1 - x, y)` of the image, whose raw RGB bytes are `data`.
#[verifier::external_body]
fn mirror_horizontally(width: u32, height: u32, data: Vec<u8>) -> (r: Vec<u8>)
    requires
        data@.len() == width * height * 3,
    ensures
        r@.len() == data@.len(),
        forall|x: int, y: int, c: int|
            0 <= x < width && 0 <= y < height && 0 <= c < 3 ==> #[trigger] r@[pixel_index(
                width as int,
                x,
                y,
                c,
            )] == data@[pixel_index(width as int, width - 1 - x, y, c)],
{
    let img: image::RgbImage = image::ImageBuffer::from_raw(width, height, data).unwrap();
    image::imageops::flip_horizontal(&img).into_raw()
}

/// An 8-bit RGB image, row-major, three bytes per pixel.
pub struct Framebuffer {
    pub width: u32,
    pub height: u32,
    pub data: Vec<u8>,
}

impl Framebuffer {
    /// The buffer holds three bytes for each pixel, and its length fits in a `usize`.
    pub open spec fn wf(&self) -> bool {
        &&& self.data@.len() == self.width * self.height * 3
        &&& self.width * self.height * 3 <= usize::MAX
    }

    /// A black image of `width` by `height` pixels.
    pub fn new(width: u32, height: u32) -> (r: Framebuffer)
        requires
            width * height * 3 <= usize::MAX,
        ensures
            r.wf(),
            r.width == width,
            r.height == height,
            r.data@ == Seq::new((width * height * 3) as nat, |k: int| 0u8),
    {
        let len = width as usize * height as usize * 3;
        let mut data: Vec<u8> = Vec::new();
        let mut k: usize = 0;
        while k < len
            invariant
                k <= len,
                data@.len() == k,
                forall|i: int| 0 <= i < k ==> #[trigger] data@[i] == 0u8,
            decreases len - k,
        {
            data.push(0);
            k = k + 1;
        }
        assert(data@ == Seq::new((width * height * 3) as nat, |k: int| 0u8));
        Framebuffer { width, height, data }
    }

    /// Sets pixel `(x, y)` to the color `(r, g, b)`.
    pub fn put_pixel(&mut self, x: u32, y: u32, r: u8, g: u8, b: u8)
        requires
            old(self).wf(),
            x < old(self).width,
            y < old(self).height,
        ensures
            final(self).wf(),
            final(self).width == old(self).width,
            final(self).height == old(self).height,
            final(self).data@ == old(self).data@.update(
                pixel_index(old(self).width as int, x as int, y as int, 0),
                r,
            ).update(pixel_index(old(self).width as int, x as int, y as int, 1), g).update(
                pixel_index(old(self).width as int, x as int, y as int, 2),
                b,
            ),
    {
        proof {
            lemma_pixel_index_bounds(self.width as int, self.height as int, x as int, y as int, 2);
            assert(pixel_index(self.width as int, x as int, y as int, 2) == pixel_index(
                self.width as int,
                x as int,
                y as int,
                0,
            ) + 2);
        }
        let i = ((y as usize) * (self.width as usize) + x as usize) * 3;
        self.data.set(i, r);
        self.data.set(i + 1, g);
        self.data.set(i + 2, b);
    }

    /// The color of pixel `(x, y)`.
    pub fn get_pixel(&self, x: u32, y: u32) -> (r: (u8, u8, u8))
        requires
            self.wf(),
            x < self.width,
            y < self.height,
        ensures
            r.0 == self.data@[pixel_index(self.width as int, x as int, y as int, 0)],
            r.1 == self.data@[pixel_index(self.width as int, x as int, y as int, 1)],
            r.2 == self.data@[pixel_index(self.width as int, x as int, y as int, 2)],
    {
        proof {
            lemma_pixel_index_bounds(self.width as int, self.height as int, x as int, y as int, 2);
        }
        let i = ((y as usize) * (self.width as usize) + x as usize) * 3;
        (self.data[i], self.data[i + 1], self.data[i + 2])
    }

    /// The pixel nearest to column `i` and row `j`: each index is clamped to
    /// the last column or row of the image.
    pub fn texel(&self, i: u32, j: u32) -> (r: (u8, u8, u8))
        requires
            self.wf(),
            self.width > 0,
            self.height > 0,
        ensures
            ({
                let x = if i < self.width { i as int } else { self.width - 1 };
                let y = if j < self.height { j as int } else { self.height - 1 };
                &&& r.0 == self.data@[pixel_index(self.width as int, x, y, 0)]
                &&& r.1 == self.data@[pixel_index(self.width as int, x, y, 1)]
                &&& r.2 == self.data@[pixel_index(self.width as int, x, y, 2)]
            }),
    {
        let x = if i < self.width {
            i
        } else {
            self.width - 1
        };
        let y = if j < self.height {
            j
        } else {
            self.height - 1
        };
        self.get_pixel(x, y)
    }

    /// Copies `tile`, an image as wide as this one, over rows `row_begin..`;
    /// every other row is left as it was.
    pub fn place_tile(&mut self, row_begin: u32, tile: &Framebuffer)
        requires
            old(self).wf(),
            tile.wf(),
            tile.width == old(self).width,
            row_begin + tile.height <= old(self).height,
        ensures
            final(self).wf(),
            final(self).width == old(self).width,
            final(self).height == old(self).height,
            final(self).data@ == placed(
                old(self).data@,
                old(self).width as int,
                row_begin as int,
                tile.data@,
            ),
    {
        proof {
            lemma_mul_inequality(
                row_begin as int + tile.height as int,
                self.height as int,
                self.width as int * 3,
            );
            assert(row_begin * (self.width * 3) + tile.height * (self.width * 3) == (row_begin
                + tile.height) * (self.width * 3)) by (nonlinear_arith);
            assert(row_begin * (self.width * 3) == row_begin * self.width * 3) by (nonlinear_arith);
            assert(tile.height * (self.width * 3) == self.width * tile.height * 3) by (nonlinear_arith);
            assert(self.height * (self.width * 3) == self.width * self.height * 3) by (nonlinear_arith);
        }
        let ghost base = self.data@;
        let offset = row_begin as usize * self.width as usize * 3;
        let n = tile.data.len();
        let mut k: usize = 0;
        while k < n
            invariant
                k <= n,
                n == tile.data@.len(),
                offset + n <= base.len() <= usize::MAX,
                self.data@.len() == base.len(),
                self.width == old(self).width,
                self.height == old(self).height,
                base == old(self).data@,
                offset == row_begin * old(self).width * 3,
                forall|i: int|
                    0 <= i < base.len() ==> #[trigger] self.data@[i] == if offset <= i < offset + k {
                        tile.data@[i - offset]
                    } else {
                        base[i]
                    },
            decreases n - k,
        {
            self.data.set(offset + k, tile.data[k]);
            k = k + 1;
        }
        assert(self.data@ =~= placed(base, self.width as int, row_begin as int, tile.data@));
    }

    /// The image turned so that its first row comes last: rotated half a turn,
    /// then mirrored left to right.
    pub fn oriented(&self) -> (r: Framebuffer)
        requires
            self.wf(),
        ensures
            r.wf(),
            r.width == self.width,
            r.height == self.height,
            flipped_vertically(r.data@, self.data@, self.width as int, self.height as int),
    {
        let w = self.width;
        let h = self.height;
        let turned = rotate_half_turn(w, h, self.data.clone());
        let mirrored = mirror_horizontally(w, h, turned);
        proof {
            assert forall|x: int, y: int, c: int|
                0 <= x < w && 0 <= y < h && 0 <= c < 3 implies #[trigger] mirrored@[pixel_index(
                    w as int,
                    x,
                    y,
                    c,
                )] == self.data@[pixel_index(w as int, x, h - 1 - y, c)] by {
                assert(mirrored@[pixel_index(w as int, x, y, c)] == turned@[pixel_index(
                    w as int,
                    w - 1 - x,
                    y,
                    c,
                )]);
                assert(turned@[pixel_index(w as int, w - 1 - x, y, c)] == self.data@[pixel_index(
                    w as int,
                    w - 1 - (w - 1 - x),
                    h - 1 - y,
                    c,
                )]);
            }
        }
        Framebuffer { width: w, height: h, data: mirrored }
    }
}

/// Tiles over disjoint row ranges may be placed in either order: the result
/// is the same, so the final image does not depend on the order in which
/// bands are finished.
pub proof fn lemma_place_tiles_commute(
    base: Seq<u8>,
    width: int,
    begin1: int,
    rows1: int,
    tile1: Seq<u8>,
    begin2: int,
    rows2: int,
    tile2: Seq<u8>,
)
    requires
        0 <= width,
        0 <= begin1,
        0 <= rows1,
        0 <= begin2,
        0 <= rows2,
        tile1.len() == width * rows1 * 3,
        tile2.len() == width * rows2 * 3,
        begin1 + rows1 <= begin2 || begin2 + rows2 <= begin1,
    ensures
        placed(placed(base, width, begin1, tile1), width, begin2, tile2) == placed(
            placed(base, width, begin2, tile2),
            width,
            begin1,
            tile1,
        ),
{
    let o1 = begin1 * width * 3;
    let o2 = begin2 * width * 3;
    assert(o1 + tile1.len() == (begin1 + rows1) * width * 3) by (nonlinear_arith)
        requires
            o1 == begin1 * width * 3,
            tile1.len() == width * rows1 * 3,
    ;
    assert(o2 + tile2.len() == (begin2 + rows2) * width * 3) by (nonlinear_arith)
        requires
            o2 == begin2 * width * 3,
            tile2.len() == width * rows2 * 3,
    ;
    if begin1 + rows1 <= begin2 {
        lemma_mul_inequality(begin1 + rows1, begin2, width * 3);
        assert((begin1 + rows1) * (width * 3) == (begin1 + rows1) * width * 3) by (nonlinear_arith);
        assert(begin2 * (width * 3) == begin2 * width * 3) by (nonlinear_arith);
    } else {
        lemma_mul_inequality(begin2 + rows2, begin1, width * 3);
        assert((begin2 + rows2) * (width * 3) == (begin2 + rows2) * width * 3) by (nonlinear_arith);
        assert(begin1 * (width * 3) == begin1 * width * 3) by (nonlinear_arith);
    }
    assert(placed(placed(base, width, begin1, tile1), width, begin2, tile2) =~= placed(
        placed(base, width, begin2, tile2),
        width,
        begin1,
        tile1,
    ));
}

} // verus!
