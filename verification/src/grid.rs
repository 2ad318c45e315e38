//! A decoded pixel grid: the shape shared by target images, tile buffers and
//! the output canvas. Row-major storage, one `Rgb8` per pixel.

use vstd::prelude::*;
use crate::color::Rgb8;

verus! {

/// A rectangular grid of pixels, stored row by row.
#[derive(Debug)]
pub struct PixelGrid {
    pub width: u32,
    pub height: u32,
    pub pixels: Vec<Rgb8>,
}

impl PixelGrid {
    /// Well-formed: the buffer holds exactly one pixel per grid cell.
    pub open spec fn wf(self) -> bool {
        self.pixels@.len() == self.width * self.height && self.width * self.height
            <= usize::MAX
    }

    /// The pixel at column `x`, row `y`.
    pub open spec fn pixel(self, x: int, y: int) -> Rgb8 {
        self.pixels@[y * self.width + x]
    }

    /// A grid of the given size, filled with black.
    pub fn new(width: u32, height: u32) -> (g: PixelGrid)
        requires
            width * height <= usize::MAX,
        ensures
            g.wf(),
            g.width == width,
            g.height == height,
            forall|x: int, y: int|
                0 <= x < width && 0 <= y < height ==> g.pixel(x, y) == (Rgb8 {
                    r: 0,
                    g: 0,
                    b: 0,
                }),
    {
        let n: usize = (width as usize) * (height as usize);
        let mut pixels: Vec<Rgb8> = Vec::new();
        let mut i: usize = 0;
        while i < n
            invariant
                i <= n,
                pixels@.len() == i,
                forall|k: int| 0 <= k < i ==> pixels@[k] == (Rgb8 { r: 0, g: 0, b: 0 }),
            decreases n - i,
        {
            pixels.push(Rgb8 { r: 0, g: 0, b: 0 });
            i = i + 1;
        }
        let g = PixelGrid { width, height, pixels };
        proof {
            assert forall|x: int, y: int| 0 <= x < width && 0 <= y < height implies g.pixel(x, y)
                == (Rgb8 { r: 0, g: 0, b: 0 }) by {
                lemma_grid_index(x, y, width as int, height as int);
            }
        }
        g
    }

    /// The grid's size as `(width, height)`.
    pub fn img_size(&self) -> (s: (u32, u32))
        ensures
            s.0 == self.width,
            s.1 == self.height,
    {
        (self.width, self.height)
    }

    /// Reads the pixel at `(x, y)`.
    pub fn get_pixel(&self, x: u32, y: u32) -> (p: Rgb8)
        requires
            self.wf(),
            x < self.width,
            y < self.height,
        ensures
            p == self.pixel(x as int, y as int),
    {
        proof {
            lemma_grid_index(x as int, y as int, self.width as int, self.height as int);
            assert(y * self.width + x < self.pixels@.len());
        }
        let idx: usize = (y as usize) * (self.width as usize) + (x as usize);
        self.pixels[idx]
    }

    /// Writes the pixel at `(x, y)`; every other pixel is kept.
    pub fn set_pixel(&mut self, x: u32, y: u32, p: Rgb8)
        requires
            old(self).wf(),
            x < old(self).width,
            y < old(self).height,
        ensures
            final(self).wf(),
            final(self).width == old(self).width,
            final(self).height == old(self).height,
            final(self).pixel(x as int, y as int) == p,
            forall|i: int, j: int|
                0 <= i < old(self).width && 0 <= j < old(self).height && !(i == x && j == y)
                    ==> final(self).pixel(i, j) == old(self).pixel(i, j),
    {
        proof {
            lemma_grid_index(x as int, y as int, self.width as int, self.height as int);
            assert(y * self.width + x < self.pixels@.len());
        }
        let idx: usize = (y as usize) * (self.width as usize) + (x as usize);
        self.pixels[idx] = p;
        proof {
            assert forall|i: int, j: int|
                0 <= i < old(self).width && 0 <= j < old(self).height && !(i == x && j == y)
                    implies final(self).pixel(i, j) == old(self).pixel(i, j) by {
                lemma_grid_index(i, j, self.width as int, self.height as int);
                if j * self.width + i == y * self.width + x {
                    lemma_grid_index_injective(i, j, x as int, y as int, self.width as int);
                }
            }
        }
    }
    /// Copies `other` into this grid with its top-left corner at `(x0, y0)`.
    /// Pixels outside the covered rectangle are kept.
    pub fn absorbe(&mut self, other: &PixelGrid, x0: u32, y0: u32)
        requires
            old(self).wf(),
            other.wf(),
            x0 + other.width <= old(self).width,
            y0 + other.height <= old(self).height,
        ensures
            final(self).wf(),
            final(self).width == old(self).width,
            final(self).height == old(self).height,
            forall|dx: int, dy: int|
                0 <= dx < other.width && 0 <= dy < other.height ==> final(self).pixel(
                    x0 + dx,
                    y0 + dy,
                ) == other.pixel(dx, dy),
            forall|x: int, y: int|
                0 <= x < old(self).width && 0 <= y < old(self).height && !(x0 <= x < x0
                    + other.width && y0 <= y < y0 + other.height) ==> final(self).pixel(x, y)
                    == old(self).pixel(x, y),
    {
        let ow = other.width;
        let oh = other.height;
        let mut dy: u32 = 0;
        while dy < oh
            invariant
                self.wf(),
                other.wf(),
                self.width == old(self).width,
                self.height == old(self).height,
                ow == other.width,
                oh == other.height,
                x0 + ow <= self.width,
                y0 + oh <= self.height,
                dy <= oh,
                forall|i: int, j: int|
                    0 <= i < ow && 0 <= j < dy ==> self.pixel(x0 + i, y0 + j) == other.pixel(
                        i,
                        j,
                    ),
                forall|x: int, y: int|
                    0 <= x < self.width && 0 <= y < self.height && !(x0 <= x < x0 + ow && y0 <= y
                        < y0 + dy) ==> self.pixel(x, y) == old(self).pixel(x, y),
            decreases oh - dy,
        {
            let mut dx: u32 = 0;
            while dx < ow
                invariant
                    self.wf(),
                    other.wf(),
                    self.width == old(self).width,
                    self.height == old(self).height,
                    ow == other.width,
                    oh == other.height,
                    x0 + ow <= self.width,
                    y0 + oh <= self.height,
                    dy < oh,
                    dx <= ow,
                    forall|i: int, j: int|
                        0 <= i < ow && 0 <= j < dy ==> self.pixel(x0 + i, y0 + j) == other.pixel(
                            i,
                            j,
                        ),
                    forall|i: int| 0 <= i < dx ==> self.pixel(x0 + i, y0 + dy) == other.pixel(
                        i,
                        dy as int,
                    ),
                    forall|x: int, y: int|
                        0 <= x < self.width && 0 <= y < self.height && !(x0 <= x < x0 + ow && y0
                            <= y < y0 + dy) && !(x0 <= x < x0 + dx && y == y0 + dy) ==> self.pixel(
                            x,
                            y,
                        ) == old(self).pixel(x, y),
                decreases ow - dx,
            {
                let p = other.get_pixel(dx, dy);
                self.set_pixel(x0 + dx, y0 + dy, p);
                dx = dx + 1;
            }
            dy = dy + 1;
        }
    }
    /// Flattens the grid into raw interleaved RGB bytes, row-major.
    pub fn to_raw(&self) -> (r: Vec<u8>)
        requires
            3 * self.pixels@.len() <= usize::MAX,
        ensures
            r@ == raw_of(self.pixels@),
            r@.len() == 3 * self.pixels@.len(),
    {
        proof {
            lemma_raw_of_len(self.pixels@);
        }
        let n = self.pixels.len();
        let mut out: Vec<u8> = Vec::new();
        let mut i: usize = 0;
        while i < n
            invariant
                i <= n,
                n == self.pixels@.len(),
                3 * n <= usize::MAX,
                out@ == raw_of(self.pixels@.take(i as int)),
                out@.len() == 3 * i,
            decreases n - i,
        {
            let p = self.pixels[i];
            out.push(p.r);
            out.push(p.g);
            out.push(p.b);
            proof {
                lemma_raw_of_push(self.pixels@.take(i as int), p);
                assert(self.pixels@.take(i as int).push(p) =~= self.pixels@.take(i + 1));
            }
            i = i + 1;
        }
        proof {
            assert(self.pixels@.take(n as int) =~= self.pixels@);
        }
        out
    }

    /// Rebuilds a grid from raw interleaved RGB bytes. Returns `None` when
    /// the byte count does not match the given size.
    pub fn from_raw(width: u32, height: u32, data: &Vec<u8>) -> (r: Option<PixelGrid>)
        ensures
            match r {
                Some(g) => {
                    &&& data@.len() == 3 * width * height
                    &&& g.wf()
                    &&& g.width == width
                    &&& g.height == height
                    &&& raw_of(g.pixels@) == data@
                },
                None => data@.len() != 3 * width * height,
            },
    {
        proof {
            assert((3 * (width as int) * (height as int)) == 3 * ((width as int) * (height
                as int)) && (width as int) * (height as int) <= u64::MAX && 3 * ((width
                as int) * (height as int)) <= u128::MAX) by (nonlinear_arith)
                requires
                    width <= u32::MAX,
                    height <= u32::MAX,
            ;
        }
        let wh: u128 = (width as u128) * (height as u128);
        if (data.len() as u128) != 3u128 * wh {
            return None;
        }
        let n: usize = data.len() / 3;
        let mut pixels: Vec<Rgb8> = Vec::new();
        let mut i: usize = 0;
        while i < n
            invariant
                i <= n,
                data@.len() == 3 * n,
                3 * n <= usize::MAX,
                pixels@.len() == i,
                raw_of(pixels@) =~= data@.take(3 * i as int),
            decreases n - i,
        {
            let p = Rgb8 { r: data[3 * i], g: data[3 * i + 1], b: data[3 * i + 2] };
            proof {
                lemma_raw_of_push(pixels@, p);
                assert(raw_of(pixels@).push(p.r).push(p.g).push(p.b) =~= data@.take(3 * (i + 1)
                    as int));
            }
            pixels.push(p);
            i = i + 1;
        }
        proof {
            assert(data@.take(3 * n as int) =~= data@);
        }
        Some(PixelGrid { width, height, pixels })
    }

    /// Resamples the grid to the given size with the image codec's Gaussian
    /// filter. The result's pixels are a pure function of this grid and the
    /// requested size.
    pub fn resize(&self, width: u32, height: u32) -> (r: PixelGrid)
        requires
            self.wf(),
            3 * self.width * self.height <= usize::MAX,
            12 * (width as int) * (height as int) <= usize::MAX,
            12 * (self.width as int) * (height as int) <= usize::MAX,
        ensures
            r.wf(),
            r.width == width,
            r.height == height,
            raw_of(r.pixels@) == resized_raw(
                raw_of(self.pixels@),
                self.width,
                self.height,
                width,
                height,
            ),
    {
        proof {
            assert(3 * (self.width as int) * (self.height as int) == 3 * ((self.width
                as int) * (self.height as int))) by (nonlinear_arith);
        }
        let raw = self.to_raw();
        let out = resize_raw(&raw, self.width, self.height, width, height);
        let g = PixelGrid::from_raw(width, height, &out);
        proof {
            assert(3 * (width as int) * (height as int) == 3 * ((width as int) * (height
                as int))) by (nonlinear_arith);
        }
        g.unwrap()
    }
}

/// The raw bytes that Gaussian resampling produces for a raw RGB image of
/// size `(w_in, h_in)` scaled to `(w_out, h_out)`: a pure function of the
/// input pixels and the requested size.
pub uninterp spec fn resized_raw(
    data: Seq<u8>,
    w_in: u32,
    h_in: u32,
    w_out: u32,
    h_out: u32,
) -> Seq<u8>;

/// Relies on image::imageops::resize (Gaussian filter): it returns a buffer
/// of exactly the requested dimensions, computed from the input pixels and
/// sizes alone; and on image::ImageBuffer::from_raw, which accepts a buffer
/// that holds exactly 3 bytes per pixel. The size bounds keep the resampler's
/// buffer allocations within address-space limits.
#[verifier::external_body]
fn resize_raw(data: &Vec<u8>, w_in: u32, h_in: u32, w_out: u32, h_out: u32) -> (r: Vec<u8>)
    requires
        data@.len() == 3 * w_in * h_in,
        12 * (w_out as int) * (h_out as int) <= usize::MAX,
        12 * (w_in as int) * (h_out as int) <= usize::MAX,
    ensures
        r@ == resized_raw(data@, w_in, h_in, w_out, h_out),
        r@.len() == 3 * w_out * h_out,
{
    let img: image::RgbImage = image::ImageBuffer::from_raw(w_in, h_in, data.clone()).unwrap();
    let out = image::imageops::resize(&img, w_out, h_out, image::imageops::FilterType::Gaussian);
    out.into_raw()
}

/// The raw interleaved RGB bytes of a pixel sequence.
pub open spec fn raw_of(s: Seq<Rgb8>) -> Seq<u8>
    decreases s.len(),
{
    if s.len() == 0 {
        Seq::empty()
    } else {
        raw_of(s.drop_last()).push(s.last().r).push(s.last().g).push(s.last().b)
    }
}

/// Flattening a sequence extended by one pixel appends that pixel's three
/// bytes.
pub proof fn lemma_raw_of_push(s: Seq<Rgb8>, p: Rgb8)
    ensures
        raw_of(s.push(p)) == raw_of(s).push(p.r).push(p.g).push(p.b),
{
    assert(s.push(p).drop_last() =~= s);
    assert(s.push(p).last() == p);
}

/// The flattened form holds three bytes per pixel.
pub proof fn lemma_raw_of_len(s: Seq<Rgb8>)
    ensures
        raw_of(s).len() == 3 * s.len(),
    decreases s.len(),
{
    if s.len() > 0 {
        lemma_raw_of_len(s.drop_last());
    }
}

/// Within a `w`-column grid of `h` rows, a cell's flat index lies in the
/// buffer.
pub proof fn lemma_grid_index(x: int, y: int, w: int, h: int)
    requires
        0 <= x < w,
        0 <= y < h,
    ensures
        0 <= y * w + x < h * w,
        h * w == w * h,
    decreases h,
{
    assert(0 <= y * w + x < h * w && h * w == w * h) by (nonlinear_arith)
        requires
            0 <= x < w,
            0 <= y < h,
    ;
}

/// Two cells of a `w`-column grid share a flat index only when they are the
/// same cell.
pub proof fn lemma_grid_index_injective(x1: int, y1: int, x2: int, y2: int, w: int)
    requires
        0 <= x1 < w,
        0 <= x2 < w,
        0 <= y1,
        0 <= y2,
        y1 * w + x1 == y2 * w + x2,
    ensures
        x1 == x2,
        y1 == y2,
{
    assert(x1 == x2 && y1 == y2) by (nonlinear_arith)
        requires
            0 <= x1 < w,
            0 <= x2 < w,
            0 <= y1,
            0 <= y2,
            y1 * w + x1 == y2 * w + x2,
    ;
}

} // verus!
