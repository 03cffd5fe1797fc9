//! The pixel and image model: an RGBA pixel of four 8-bit channels and a
//! row-major pixel buffer with explicit width and height.

use vstd::prelude::*;

verus! {

/// Alpha values strictly above this threshold mark a pixel as foreground.
pub const MINIMUM_PIXEL_ALPHA: u8 = 32;

/// One RGBA pixel, four 8-bit channels.
#[derive(Clone, Copy, PartialEq, Eq, Structural, Debug)]
pub struct Rgba {
    pub r: u8,
    pub g: u8,
    pub b: u8,
    pub a: u8,
}

/// The fully transparent black pixel, the background of every canvas.
pub open spec fn transparent() -> Rgba {
    Rgba { r: 0, g: 0, b: 0, a: 0 }
}

/// The opaque red pixel used by the highlighting overlays.
pub open spec fn red() -> Rgba {
    Rgba { r: 255, g: 0, b: 0, a: 255 }
}

/// A decoded RGBA image: a row-major pixel buffer of `width * height` pixels.
#[derive(PartialEq, Eq, Debug)]
pub struct Image {
    pub width: usize,
    pub height: usize,
    pub data: Vec<Rgba>,
}

/// Position of the pixel `(x, y)` within a row-major buffer of row length `w`.
pub open spec fn idx_of(w: int, x: int, y: int) -> int {
    y * w + x
}

pub proof fn lemma_idx_bounds(w: int, h: int, x: int, y: int)
    by (nonlinear_arith)
    requires
        0 <= x < w,
        0 <= y < h,
    ensures
        0 <= idx_of(w, x, y) < w * h,
{
}

pub proof fn lemma_idx_injective(w: int, x1: int, y1: int, x2: int, y2: int)
    by (nonlinear_arith)
    requires
        0 <= x1 < w,
        0 <= y1,
        0 <= x2 < w,
        0 <= y2,
        !(x1 == x2 && y1 == y2),
    ensures
        idx_of(w, x1, y1) != idx_of(w, x2, y2),
{
}

impl Image {
    /// The buffer holds exactly one pixel for every coordinate of the image.
    pub open spec fn wf(self) -> bool {
        &&& self.data.len() == self.width * self.height
        &&& self.width * self.height <= usize::MAX
    }

    pub open spec fn in_bounds(self, x: int, y: int) -> bool {
        0 <= x < self.width && 0 <= y < self.height
    }

    /// The pixel stored at coordinate `(x, y)`.
    pub open spec fn pixel(self, x: int, y: int) -> Rgba {
        self.data[idx_of(self.width as int, x, y)]
    }

    /// A coordinate is foreground iff it is in bounds and its alpha channel
    /// exceeds the configured threshold.
    pub open spec fn is_foreground(self, x: int, y: int) -> bool {
        self.in_bounds(x, y) && self.pixel(x, y).a > MINIMUM_PIXEL_ALPHA
    }

    /// A fully transparent image of the given dimensions.
    pub fn new(width: usize, height: usize) -> (img: Image)
        requires
            width * height <= usize::MAX,
        ensures
            img.wf(),
            img.width == width,
            img.height == height,
            forall|x: int, y: int|
                0 <= x < width && 0 <= y < height ==> img.pixel(x, y) == transparent(),
    {
        let total: usize = width * height;
        let mut data: Vec<Rgba> = Vec::new();
        let mut i: usize = 0;
        while i < total
            invariant
                i <= total,
                data@.len() == i,
                forall|k: int| 0 <= k < i ==> data@[k] == transparent(),
            decreases total - i,
        {
            data.push(Rgba { r: 0, g: 0, b: 0, a: 0 });
            i = i + 1;
        }
        let img = Image { width, height, data };
        proof {
            assert forall|x: int, y: int|
                0 <= x < width && 0 <= y < height implies img.pixel(x, y) == transparent() by {
                lemma_idx_bounds(width as int, height as int, x, y);
            }
        }
        img
    }

    /// An independent copy of the image.
    pub fn duplicate(&self) -> (r: Image)
        ensures
            r.width == self.width,
            r.height == self.height,
            r.data@ == self.data@,
    {
        let mut data: Vec<Rgba> = Vec::new();
        let mut i: usize = 0;
        while i < self.data.len()
            invariant
                i <= self.data@.len(),
                data@ == self.data@.subrange(0, i as int),
            decreases self.data@.len() - i,
        {
            data.push(self.data[i]);
            proof {
                assert(data@ =~= self.data@.subrange(0, i as int + 1));
            }
            i = i + 1;
        }
        proof {
            assert(self.data@.subrange(0, self.data@.len() as int) =~= self.data@);
        }
        Image { width: self.width, height: self.height, data }
    }

    /// Fill the rectangle `x0 <= x < x1`, `y0 <= y < y1` with one pixel
    /// value, leaving every other pixel unchanged.
    pub fn fill_rect(&mut self, x0: usize, y0: usize, x1: usize, y1: usize, p: Rgba)
        requires
            old(self).wf(),
            x0 <= x1 <= old(self).width,
            y0 <= y1 <= old(self).height,
        ensures
            final(self).wf(),
            final(self).width == old(self).width,
            final(self).height == old(self).height,
            forall|a: int, b: int|
                old(self).in_bounds(a, b) ==> final(self).pixel(a, b) == (if x0 <= a < x1 && y0
                    <= b < y1 {
                    p
                } else {
                    old(self).pixel(a, b)
                }),
    {
        let mut x: usize = x0;
        while x < x1
            invariant
                old(self).wf(),
                self.wf(),
                self.width == old(self).width,
                self.height == old(self).height,
                x0 <= x <= x1 <= self.width,
                y0 <= y1 <= self.height,
                forall|a: int, b: int|
                    old(self).in_bounds(a, b) ==> self.pixel(a, b) == (if x0 <= a < x && y0 <= b
                        < y1 {
                        p
                    } else {
                        old(self).pixel(a, b)
                    }),
            decreases x1 - x,
        {
            let mut y: usize = y0;
            while y < y1
                invariant
                    old(self).wf(),
                    self.wf(),
                    self.width == old(self).width,
                    self.height == old(self).height,
                    x0 <= x < x1 <= self.width,
                    y0 <= y <= y1 <= self.height,
                    forall|a: int, b: int|
                        old(self).in_bounds(a, b) ==> self.pixel(a, b) == (if (x0 <= a < x && y0
                            <= b < y1) || (a == x && y0 <= b < y) {
                            p
                        } else {
                            old(self).pixel(a, b)
                        }),
                decreases y1 - y,
            {
                self.put_pixel(x, y, p);
                y = y + 1;
            }
            x = x + 1;
        }
    }

    pub fn get_pixel(&self, x: usize, y: usize) -> (p: Rgba)
        requires
            self.wf(),
            x < self.width,
            y < self.height,
        ensures
            p == self.pixel(x as int, y as int),
    {
        proof {
            lemma_idx_bounds(self.width as int, self.height as int, x as int, y as int);
        }
        self.data[y * self.width + x]
    }

    pub fn put_pixel(&mut self, x: usize, y: usize, p: Rgba)
        requires
            old(self).wf(),
            x < old(self).width,
            y < old(self).height,
        ensures
            final(self).wf(),
            final(self).width == old(self).width,
            final(self).height == old(self).height,
            final(self).data@ == old(self).data@.update(
                idx_of(old(self).width as int, x as int, y as int),
                p,
            ),
            final(self).pixel(x as int, y as int) == p,
            forall|a: int, b: int|
                old(self).in_bounds(a, b) && !(a == x && b == y)
                    ==> final(self).pixel(a, b) == old(self).pixel(a, b),
    {
        proof {
            lemma_idx_bounds(self.width as int, self.height as int, x as int, y as int);
        }
        let i: usize = y * self.width + x;
        self.data[i] = p;
        proof {
            assert forall|a: int, b: int|
                old(self).in_bounds(a, b) && !(a == x && b == y)
                    implies self.pixel(a, b) == old(self).pixel(a, b) by {
                lemma_idx_bounds(old(self).width as int, old(self).height as int, a, b);
                lemma_idx_injective(old(self).width as int, a, b, x as int, y as int);
            }
        }
    }
}

} // verus!
