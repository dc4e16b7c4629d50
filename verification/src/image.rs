//! The pixel buffer: a dense RGBA byte array with 4 bytes per pixel,
//! stored row-major, together with bounds-checked pixel accessors.

use vstd::prelude::*;

verus! {

/// The error conditions of the toolkit.
#[derive(Clone, Copy, Debug, PartialEq, Eq, Structural)]
pub enum RenderError {
    /// A pixel access lay outside the buffer's dimensions.
    IndexOutOfBounds,
    /// The font-shaping collaborator could not lay out the given text.
    LayoutFailure,
}

/// A bitmap image with 32 bits (4 bytes) per pixel, row-major.
#[derive(Clone)]
pub struct SimpleImage {
    data: Vec<u8>,
    width: u32,
    height: u32,
}

impl SimpleImage {
    /// The raw bytes of the image, 4 per pixel, row-major.
    pub closed spec fn bytes(self) -> Seq<u8> {
        self.data@
    }

    /// The width of the image in pixels.
    pub closed spec fn spec_width(self) -> int {
        self.width as int
    }

    /// The height of the image in pixels.
    pub closed spec fn spec_height(self) -> int {
        self.height as int
    }

    /// The buffer holds exactly 4 bytes for each of its `width * height` pixels.
    pub open spec fn wf(self) -> bool {
        self.bytes().len() == 4 * self.spec_width() * self.spec_height()
    }

    /// Whether `(x, y)` denotes a pixel of this image.
    pub open spec fn valid_pixel(self, x: int, y: int) -> bool {
        0 <= x < self.spec_width() && 0 <= y < self.spec_height()
    }

    /// The byte offset of pixel `(x, y)`.
    pub open spec fn offset(self, x: int, y: int) -> int {
        4 * (y * self.spec_width() + x)
    }

    /// The 4 bytes of pixel `(x, y)`.
    pub open spec fn pixel(self, x: int, y: int) -> Seq<u8> {
        self.bytes().subrange(self.offset(x, y), self.offset(x, y) + 4)
    }

    /// Create a blank (fully zeroed) image with the given width and height.
    pub fn new(width: u32, height: u32) -> (img: Self)
        requires
            4 * (width as int) * (height as int) <= usize::MAX as int,
        ensures
            img.wf(),
            img.spec_width() == width as int,
            img.spec_height() == height as int,
            img.bytes().len() == 4 * (width as int) * (height as int),
            forall|i: int| 0 <= i < img.bytes().len() ==> img.bytes()[i] == 0u8,
            forall|x: int, y: int|
                img.valid_pixel(x, y) ==> img.pixel(x, y) == seq![0u8, 0u8, 0u8, 0u8],
    {
        proof {
            lemma_quad_bound(width as int, height as int);
        }
        let area: usize = (width as usize) * (height as usize);
        let len: usize = 4 * area;
        let data: Vec<u8> = vec![0u8; len];
        let img = SimpleImage { data, width, height };
        proof {
            assert forall|x: int, y: int| img.valid_pixel(x, y) implies img.pixel(x, y) == seq![
                0u8,
                0u8,
                0u8,
                0u8,
            ] by {
                lemma_offset_in_bounds(x, y, img.spec_width(), img.spec_height());
                assert(img.pixel(x, y) =~= seq![0u8, 0u8, 0u8, 0u8]);
            }
        }
        img
    }

    /// Getter for the width of the image.
    pub fn width(&self) -> (w: u32)
        ensures
            w as int == self.spec_width(),
    {
        self.width
    }

    /// Getter for the height of the image.
    pub fn height(&self) -> (h: u32)
        ensures
            h as int == self.spec_height(),
    {
        self.height
    }

    /// Read-only view of the raw bytes, for handing the finished image to a
    /// display surface.
    pub fn as_bytes(&self) -> (r: &Vec<u8>)
        ensures
            r@ == self.bytes(),
    {
        &self.data
    }

    /// Read the 4-byte color of pixel `(x, y)`; an access outside the
    /// dimensions fails with `IndexOutOfBounds`.
    pub fn get(&self, x: u32, y: u32) -> (r: Result<[u8; 4], RenderError>)
        requires
            self.wf(),
        ensures
            self.valid_pixel(x as int, y as int) ==> (r matches Ok(c) && c@ == self.pixel(
                x as int,
                y as int,
            )),
            !self.valid_pixel(x as int, y as int) ==> r == Err::<[u8; 4], RenderError>(
                RenderError::IndexOutOfBounds,
            ),
    {
        if x >= self.width || y >= self.height {
            return Err(RenderError::IndexOutOfBounds);
        }
        proof {
            lemma_offset_in_bounds(x as int, y as int, self.spec_width(), self.spec_height());
        }
        let n: usize = self.data.len();
        let idx: usize = 4 * ((y as usize) * (self.width as usize) + (x as usize));
        let c: [u8; 4] = [self.data[idx], self.data[idx + 1], self.data[idx + 2], self.data[idx
            + 3]];
        proof {
            assert(c@ =~= self.pixel(x as int, y as int));
        }
        Ok(c)
    }

    /// Overwrite the 4-byte color of pixel `(x, y)` unconditionally (no
    /// blending); an access outside the dimensions fails with
    /// `IndexOutOfBounds` and leaves the image unchanged.
    pub fn set(&mut self, x: u32, y: u32, color: [u8; 4]) -> (r: Result<(), RenderError>)
        requires
            old(self).wf(),
        ensures
            final(self).wf(),
            final(self).spec_width() == old(self).spec_width(),
            final(self).spec_height() == old(self).spec_height(),
            old(self).valid_pixel(x as int, y as int) ==> (r matches Ok(u) && forall|
                px: int,
                py: int,
            |
                old(self).valid_pixel(px, py) ==> final(self).pixel(px, py) == (if px == x as int
                    && py == y as int {
                    color@
                } else {
                    old(self).pixel(px, py)
                })),
            !old(self).valid_pixel(x as int, y as int) ==> (r == Err::<(), RenderError>(
                RenderError::IndexOutOfBounds,
            ) && *final(self) == *old(self)),
    {
        if x >= self.width || y >= self.height {
            return Err(RenderError::IndexOutOfBounds);
        }
        proof {
            lemma_offset_in_bounds(x as int, y as int, self.spec_width(), self.spec_height());
        }
        let n: usize = self.data.len();
        let idx: usize = 4 * ((y as usize) * (self.width as usize) + (x as usize));
        *vstd::std_specs::vec::vec_index_mut(&mut self.data, idx) = color[0];
        *vstd::std_specs::vec::vec_index_mut(&mut self.data, idx + 1) = color[1];
        *vstd::std_specs::vec::vec_index_mut(&mut self.data, idx + 2) = color[2];
        *vstd::std_specs::vec::vec_index_mut(&mut self.data, idx + 3) = color[3];
        proof {
            let s = *self;
            let o = *old(self);
            assert forall|px: int, py: int| o.valid_pixel(px, py) implies s.pixel(px, py) == (if px
                == x as int && py == y as int {
                color@
            } else {
                o.pixel(px, py)
            }) by {
                lemma_offset_in_bounds(px, py, o.spec_width(), o.spec_height());
                if px == x as int && py == y as int {
                    assert(s.pixel(px, py) =~= color@);
                } else {
                    lemma_offset_disjoint(px, py, x as int, y as int, o.spec_width(), o.spec_height());
                    assert(s.pixel(px, py) =~= o.pixel(px, py));
                }
            }
        }
        Ok(())
    }

    /// Write `color` at `(x, y)` if that pixel exists; out-of-range
    /// coordinates are clipped (the image is left unchanged).
    pub(crate) fn paint(&mut self, x: i64, y: i64, color: [u8; 4])
        requires
            old(self).wf(),
        ensures
            final(self).wf(),
            final(self).spec_width() == old(self).spec_width(),
            final(self).spec_height() == old(self).spec_height(),
            forall|px: int, py: int|
                old(self).valid_pixel(px, py) ==> final(self).pixel(px, py) == (if px == x as int
                    && py == y as int {
                    color@
                } else {
                    old(self).pixel(px, py)
                }),
    {
        if 0 <= x && x < self.width as i64 && 0 <= y && y < self.height as i64 {
            let _ = self.set(x as u32, y as u32, color);
        }
    }

    /// Fill every existing pixel of row `y` with `x0 <= x <= x1` with `color`;
    /// parts of the span outside the image are clipped.
    pub(crate) fn fill_span(&mut self, y: i64, x0: i64, x1: i64, color: [u8; 4])
        requires
            old(self).wf(),
        ensures
            final(self).wf(),
            final(self).spec_width() == old(self).spec_width(),
            final(self).spec_height() == old(self).spec_height(),
            forall|px: int, py: int|
                old(self).valid_pixel(px, py) ==> final(self).pixel(px, py) == (if py == y as int
                    && x0 as int <= px <= x1 as int {
                    color@
                } else {
                    old(self).pixel(px, py)
                }),
    {
        let mut x: i64 = if x0 < 0 {
            0
        } else {
            x0
        };
        let hi: i64 = if x1 >= self.width as i64 {
            self.width as i64 - 1
        } else {
            x1
        };
        while x <= hi
            invariant
                self.wf(),
                self.spec_width() == old(self).spec_width(),
                self.spec_height() == old(self).spec_height(),
                x0 <= x as int,
                0 <= x as int,
                x as int <= hi as int + 1 || x as int == (if (x0 as int) < 0 {
                    0
                } else {
                    x0 as int
                }),
                hi as int == (if x1 as int >= self.spec_width() {
                    self.spec_width() - 1
                } else {
                    x1 as int
                }),
                forall|px: int, py: int|
                    old(self).valid_pixel(px, py) ==> self.pixel(px, py) == (if py == y as int
                        && x0 as int <= px < x as int {
                        color@
                    } else {
                        old(self).pixel(px, py)
                    }),
            decreases hi + 1 - x,
        {
            self.paint(x, y, color);
            x += 1;
        }
    }
}

/// `4 * w * h` stays within bounds used by the byte-length computation.
proof fn lemma_quad_bound(w: int, h: int)
    by (nonlinear_arith)
    requires
        0 <= w,
        0 <= h,
    ensures
        0 <= w * h,
        4 * (w * h) == 4 * w * h,
{
}

/// The 4-byte range of a valid pixel lies inside the buffer.
proof fn lemma_offset_in_bounds(x: int, y: int, w: int, h: int)
    by (nonlinear_arith)
    requires
        0 <= x < w,
        0 <= y < h,
    ensures
        0 <= 4 * (y * w + x),
        4 * (y * w + x) + 4 <= 4 * w * h,
        0 <= y * w + x,
        y * w + x < w * h,
{
}

/// Distinct valid pixels occupy disjoint 4-byte ranges.
proof fn lemma_offset_disjoint(x1: int, y1: int, x2: int, y2: int, w: int, h: int)
    by (nonlinear_arith)
    requires
        0 <= x1 < w,
        0 <= y1 < h,
        0 <= x2 < w,
        0 <= y2 < h,
        !(x1 == x2 && y1 == y2),
    ensures
        4 * (y1 * w + x1) + 4 <= 4 * (y2 * w + x2) || 4 * (y2 * w + x2) + 4 <= 4 * (y1 * w + x1),
{
}

} // verus!
