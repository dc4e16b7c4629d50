//! The glyph compositor: renders text into a fresh image from per-glyph
//! coverage masks supplied by an external font-shaping collaborator.
//!
//! A glyph arrives as an optional pixel bounding box (glyphs with no visible
//! ink, such as spaces, have none) plus the covered pixels inside that box,
//! each with an alpha value already scaled to `0..=255`.

use vstd::prelude::*;
use vstd::math::min;
use vstd::math::max;

use crate::image::SimpleImage;

verus! {

/// Bound on glyph bounding-box coordinates; it keeps the folded image
/// dimensions within the pixel buffer's byte-length limit.
pub const GLYPH_LIMIT: i32 = 8192;

/// The pixel bounding box of one laid-out glyph.
#[derive(Clone, Copy, PartialEq, Eq, Structural, Debug)]
pub struct GlyphBox {
    pub min_x: i32,
    pub min_y: i32,
    pub max_x: i32,
    pub max_y: i32,
}

/// One covered pixel of a glyph, local to its bounding box, with its
/// coverage already scaled to an alpha byte.
#[derive(Clone, Copy, PartialEq, Eq, Structural, Debug)]
pub struct CoveragePixel {
    pub x: u32,
    pub y: u32,
    pub alpha: u8,
}

/// The coverage mask of one laid-out glyph.
#[derive(Clone, Debug)]
pub struct GlyphMask {
    /// The glyph's pixel bounding box; `None` for glyphs with no visible ink.
    pub bounds: Option<GlyphBox>,
    /// The covered pixels inside the bounding box.
    pub pixels: Vec<CoveragePixel>,
}

/// Whether a bounding box is a box (its minimum below its maximum) and lies
/// within the coordinate bound of the compositor.
pub open spec fn glyph_box_in_range(b: GlyphBox) -> bool {
    &&& b.min_y <= b.max_y
    &&& -GLYPH_LIMIT <= b.min_y <= GLYPH_LIMIT
    &&& -GLYPH_LIMIT <= b.max_y <= GLYPH_LIMIT
    &&& -GLYPH_LIMIT <= b.max_x <= GLYPH_LIMIT
}

/// Whether every glyph's bounding box lies within the coordinate bound.
pub open spec fn glyphs_in_range(glyphs: Seq<GlyphMask>) -> bool {
    forall|i: int|
        0 <= i < glyphs.len() ==> (#[trigger] glyphs[i].bounds matches Some(b)
            ==> glyph_box_in_range(b))
}

/// Whether any glyph carries a bounding box.
pub open spec fn has_box(glyphs: Seq<GlyphMask>) -> bool {
    exists|i: int| 0 <= i < glyphs.len() && (#[trigger] glyphs[i].bounds) is Some
}

/// The vertical extent and width of the text image: `(y_min, y_max, width)`,
/// the union of the glyph bounding boxes alone — glyphs without a box do not
/// affect the bounds, and text with no box at all yields `(0, 0, 0)`.
pub open spec fn fold_bounds(glyphs: Seq<GlyphMask>) -> (int, int, int)
    decreases glyphs.len(),
{
    if glyphs.len() == 0 {
        (0, 0, 0)
    } else {
        let r = fold_bounds(glyphs.drop_last());
        match glyphs.last().bounds {
            None => r,
            Some(b) => if has_box(glyphs.drop_last()) {
                (min(r.0, b.min_y as int), max(r.1, b.max_y as int), max(r.2, b.max_x as int))
            } else {
                (b.min_y as int, b.max_y as int, b.max_x as int)
            },
        }
    }
}

/// Whether the first `i + 1` glyphs carry a box is settled by the first `i`
/// and the glyph at `i`.
proof fn lemma_has_box_step(glyphs: Seq<GlyphMask>, i: int)
    requires
        0 <= i < glyphs.len(),
    ensures
        has_box(glyphs.take(i + 1)) == (has_box(glyphs.take(i)) || glyphs[i].bounds is Some),
{
    let a = glyphs.take(i);
    let b = glyphs.take(i + 1);
    if has_box(b) {
        let j = choose|j: int| 0 <= j < b.len() && (#[trigger] b[j].bounds) is Some;
        if j < i {
            assert(a[j] == b[j]);
            assert(has_box(a));
        } else {
            assert(b[j] == glyphs[i]);
        }
    }
    if has_box(a) {
        let j = choose|j: int| 0 <= j < a.len() && (#[trigger] a[j].bounds) is Some;
        assert(b[j] == a[j]);
        assert(has_box(b));
    }
    if glyphs[i].bounds is Some {
        assert(b[i] == glyphs[i]);
        assert(has_box(b));
    }
}

/// The folded extent lies within the coordinate bound, its minimum below its
/// maximum, whenever every box does; text without a box folds to zero.
pub proof fn lemma_fold_bounds_range(glyphs: Seq<GlyphMask>)
    requires
        glyphs_in_range(glyphs),
    ensures
        !has_box(glyphs) ==> fold_bounds(glyphs) == (0int, 0int, 0int),
        fold_bounds(glyphs).0 <= fold_bounds(glyphs).1,
        -GLYPH_LIMIT <= fold_bounds(glyphs).0,
        fold_bounds(glyphs).1 <= GLYPH_LIMIT,
        -GLYPH_LIMIT <= fold_bounds(glyphs).2 <= GLYPH_LIMIT,
    decreases glyphs.len(),
{
    if glyphs.len() > 0 {
        assert(glyphs_in_range(glyphs.drop_last()));
        lemma_fold_bounds_range(glyphs.drop_last());
        lemma_has_box_step(glyphs, glyphs.len() - 1);
        assert(glyphs.take(glyphs.len() as int) =~= glyphs);
        assert(glyphs.take(glyphs.len() - 1) =~= glyphs.drop_last());
        assert(glyphs[glyphs.len() - 1] == glyphs.last());
    }
}

/// The alpha that the pixels of one glyph leave at image position `(x, y)`:
/// the value of the last covered pixel written there, if any. A glyph pixel
/// `p` lands at `(p.x + b.min_x, p.y + b.min_y - y_min)`.
pub open spec fn glyph_alpha(
    pixels: Seq<CoveragePixel>,
    b: GlyphBox,
    y_min: int,
    x: int,
    y: int,
) -> Option<u8>
    decreases pixels.len(),
{
    if pixels.len() == 0 {
        None
    } else {
        let p = pixels.last();
        if p.x + b.min_x == x && p.y + b.min_y - y_min == y {
            Some(p.alpha)
        } else {
            glyph_alpha(pixels.drop_last(), b, y_min, x, y)
        }
    }
}

/// The alpha left at image position `(x, y)` after compositing all glyphs in
/// order: later glyphs overwrite earlier ones; glyphs without a bounding box
/// write nothing.
pub open spec fn text_alpha(glyphs: Seq<GlyphMask>, y_min: int, x: int, y: int) -> Option<u8>
    decreases glyphs.len(),
{
    if glyphs.len() == 0 {
        None
    } else {
        let rest = text_alpha(glyphs.drop_last(), y_min, x, y);
        match glyphs.last().bounds {
            None => rest,
            Some(b) => match glyph_alpha(glyphs.last().pixels@, b, y_min, x, y) {
                Some(a) => Some(a),
                None => rest,
            },
        }
    }
}

/// Law: text whose glyphs bear no bounding box — empty text in particular —
/// folds to a zero vertical extent and zero width, so `create_text_image`
/// returns a zero-sized image for it rather than failing.
pub proof fn lemma_inkless_text_is_empty(glyphs: Seq<GlyphMask>)
    requires
        forall|i: int| 0 <= i < glyphs.len() ==> (#[trigger] glyphs[i].bounds) is None,
    ensures
        fold_bounds(glyphs) == (0int, 0int, 0int),
    decreases glyphs.len(),
{
    if glyphs.len() > 0 {
        assert(glyphs[glyphs.len() - 1].bounds is None);
        lemma_inkless_text_is_empty(glyphs.drop_last());
    }
}

/// The 4 bytes a composited text pixel holds: the requested color with its
/// channel order swapped to the buffer's internal layout and the glyph's
/// alpha, or fully transparent black where no glyph wrote.
pub open spec fn composed_pixel(color: [u8; 3], a: Option<u8>) -> Seq<u8> {
    match a {
        Some(al) => seq![color@[2], color@[1], color@[0], al],
        None => seq![0u8, 0u8, 0u8, 0u8],
    }
}

impl SimpleImage {
    /// Create an image that is a rendering of laid-out text, from the
    /// coverage masks the font-shaping collaborator produced for it.
    ///
    /// The image is sized to the union of the glyph bounding boxes; text
    /// whose glyphs bear no bounding box (empty text, only spaces) yields a
    /// zero-sized image. Each covered glyph pixel is written in order, later
    /// glyphs overwriting earlier ones; writes outside the image are clipped.
    ///
    /// The folded width must not be negative (text whose every box ends left
    /// of the origin): a negative width cannot be a pixel dimension.
    pub fn create_text_image(glyphs: &Vec<GlyphMask>, color: [u8; 3]) -> (img: SimpleImage)
        requires
            glyphs_in_range(glyphs@),
            0 <= fold_bounds(glyphs@).2,
        ensures
            img.wf(),
            img.spec_width() == fold_bounds(glyphs@).2,
            img.spec_height() == fold_bounds(glyphs@).1 - fold_bounds(glyphs@).0,
            forall|px: int, py: int|
                img.valid_pixel(px, py) ==> img.pixel(px, py) == composed_pixel(
                    color,
                    text_alpha(glyphs@, fold_bounds(glyphs@).0, px, py),
                ),
    {
        let n: usize = glyphs.len();
        let mut boxed: bool = false;
        let mut y_min: i32 = 0;
        let mut y_max: i32 = 0;
        let mut wid: i32 = 0;
        let mut i: usize = 0;
        while i < n
            invariant
                i <= n,
                n == glyphs@.len(),
                glyphs_in_range(glyphs@),
                boxed == has_box(glyphs@.take(i as int)),
                (y_min as int, y_max as int, wid as int) == fold_bounds(glyphs@.take(i as int)),
                !boxed ==> y_min == 0 && y_max == 0 && wid == 0,
                -GLYPH_LIMIT <= y_min,
                y_min <= y_max,
                y_max <= GLYPH_LIMIT,
                -GLYPH_LIMIT <= wid <= GLYPH_LIMIT,
            decreases n - i,
        {
            let g = &glyphs[i];
            match g.bounds {
                Some(b) => {
                    if !boxed {
                        boxed = true;
                        y_min = b.min_y;
                        y_max = b.max_y;
                        wid = b.max_x;
                    } else {
                        if b.min_y < y_min {
                            y_min = b.min_y;
                        }
                        if b.max_y > y_max {
                            y_max = b.max_y;
                        }
                        if b.max_x > wid {
                            wid = b.max_x;
                        }
                    }
                },
                None => {},
            }
            i += 1;
            proof {
                lemma_has_box_step(glyphs@, i as int - 1);
                assert(glyphs@.take(i as int).drop_last() =~= glyphs@.take(i as int - 1));
                assert(glyphs@.take(i as int).last() == glyphs@[i as int - 1]);
            }
        }
        proof {
            assert(glyphs@.take(n as int) =~= glyphs@);
        }
        let height: i32 = y_max - y_min;
        proof {
            assert(4 * (wid as int) * (height as int) <= 0x4000_0000int) by (nonlinear_arith)
                requires
                    0 <= wid as int <= 8192,
                    0 <= height as int <= 16384,
            ;
        }
        let ghost y_min0 = fold_bounds(glyphs@).0;
        let mut img = SimpleImage::new(wid as u32, height as u32);
        let mut gi: usize = 0;
        while gi < n
            invariant
                gi <= n,
                n == glyphs@.len(),
                y_min as int == y_min0,
                y_min0 == fold_bounds(glyphs@).0,
                img.wf(),
                img.spec_width() == fold_bounds(glyphs@).2,
                img.spec_height() == fold_bounds(glyphs@).1 - fold_bounds(glyphs@).0,
                forall|px: int, py: int|
                    img.valid_pixel(px, py) ==> img.pixel(px, py) == composed_pixel(
                        color,
                        text_alpha(glyphs@.take(gi as int), y_min0, px, py),
                    ),
            decreases n - gi,
        {
            let g = &glyphs[gi];
            match g.bounds {
                Some(b) => {
                    let m: usize = g.pixels.len();
                    let mut pj: usize = 0;
                    while pj < m
                        invariant
                            pj <= m,
                            gi < n,
                            n == glyphs@.len(),
                            m == glyphs@[gi as int].pixels@.len(),
                            glyphs@[gi as int].bounds == Some(b),
                            g == &glyphs[gi as int],
                            y_min as int == y_min0,
                            y_min0 == fold_bounds(glyphs@).0,
                            img.wf(),
                            img.spec_width() == fold_bounds(glyphs@).2,
                            img.spec_height() == fold_bounds(glyphs@).1 - fold_bounds(glyphs@).0,
                            forall|px: int, py: int|
                                img.valid_pixel(px, py) ==> img.pixel(px, py) == composed_pixel(
                                    color,
                                    match glyph_alpha(
                                        glyphs@[gi as int].pixels@.take(pj as int),
                                        b,
                                        y_min0,
                                        px,
                                        py,
                                    ) {
                                        Some(a) => Some(a),
                                        None => text_alpha(
                                            glyphs@.take(gi as int),
                                            y_min0,
                                            px,
                                            py,
                                        ),
                                    },
                                ),
                        decreases m - pj,
                    {
                        let p = g.pixels[pj];
                        let x: i64 = (p.x as i64) + (b.min_x as i64);
                        let y: i64 = (p.y as i64) + (b.min_y as i64) - (y_min as i64);
                        let ghost prev = pj as int;
                        img.paint(x, y, [color[2], color[1], color[0], p.alpha]);
                        proof {
                            let pix = glyphs@[gi as int].pixels@;
                            assert(pix.take(prev + 1).drop_last() =~= pix.take(prev));
                            assert(pix.take(prev + 1).last() == p);
                            assert([color[2], color[1], color[0], p.alpha]@ =~= seq![
                                color@[2],
                                color@[1],
                                color@[0],
                                p.alpha,
                            ]);
                            assert forall|px: int, py: int| img.valid_pixel(px, py) implies
                                img.pixel(px, py) == composed_pixel(
                                color,
                                match glyph_alpha(pix.take(prev + 1), b, y_min0, px, py) {
                                    Some(a) => Some(a),
                                    None => text_alpha(glyphs@.take(gi as int), y_min0, px, py),
                                },
                            ) by {
                                if px == x as int && py == y as int {
                                    assert(glyph_alpha(pix.take(prev + 1), b, y_min0, px, py)
                                        == Some(p.alpha));
                                } else {
                                    assert(glyph_alpha(pix.take(prev + 1), b, y_min0, px, py)
                                        == glyph_alpha(pix.take(prev), b, y_min0, px, py));
                                }
                            }
                        }
                        pj += 1;
                    }
                    proof {
                        let pix = glyphs@[gi as int].pixels@;
                        assert(pix.take(m as int) =~= pix);
                        assert(glyphs@.take(gi as int + 1).drop_last() =~= glyphs@.take(gi as int));
                        assert(glyphs@.take(gi as int + 1).last() == glyphs@[gi as int]);
                    }
                },
                None => {
                    proof {
                        assert(glyphs@.take(gi as int + 1).drop_last() =~= glyphs@.take(gi as int));
                        assert(glyphs@.take(gi as int + 1).last() == glyphs@[gi as int]);
                    }
                },
            }
            gi += 1;
        }
        proof {
            assert(glyphs@.take(n as int) =~= glyphs@);
        }
        img
    }
}

} // verus!
