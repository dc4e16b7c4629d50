use rastermap::CoveragePixel;
use rastermap::GlyphBox;
use rastermap::GlyphMask;
use rastermap::SimpleImage;

#[test]
fn empty_text_yields_zero_sized_image() {
    let glyphs: Vec<GlyphMask> = vec![];
    let img = SimpleImage::create_text_image(&glyphs, [255, 255, 255]);
    assert_eq!(img.width(), 0);
    assert_eq!(img.height(), 0);
    assert_eq!(img.as_bytes().len(), 0);
}

#[test]
fn inkless_glyphs_yield_zero_sized_image() {
    // A glyph without a bounding box (a space) contributes nothing.
    let glyphs = vec![GlyphMask { bounds: None, pixels: vec![] }];
    let img = SimpleImage::create_text_image(&glyphs, [1, 2, 3]);
    assert_eq!(img.width(), 0);
    assert_eq!(img.height(), 0);
}

#[test]
fn coverage_is_composited_at_the_box_offset() {
    let glyphs = vec![
        GlyphMask {
            bounds: Some(GlyphBox { min_x: 1, min_y: -3, max_x: 4, max_y: 1 }),
            pixels: vec![CoveragePixel { x: 0, y: 0, alpha: 200 }],
        },
    ];
    let img = SimpleImage::create_text_image(&glyphs, [10, 20, 30]);
    assert_eq!(img.width(), 4);
    assert_eq!(img.height(), 4);
    // The channel order is swapped to the buffer's internal layout, and the
    // glyph-local pixel lands offset by (min_x, min_y - y_min).
    assert_eq!(img.get(1, 0), Ok([30, 20, 10, 200]));
    assert_eq!(img.get(0, 0), Ok([0, 0, 0, 0]));
    assert_eq!(img.get(2, 1), Ok([0, 0, 0, 0]));
}

#[test]
fn bounds_fold_over_boxes_alone() {
    // A single box at y in [2, 5] gives height 3, not 5: the fold starts
    // from the boxes themselves, without a zero seed, and the ink lands
    // offset by the boxes' own y_min.
    let glyphs = vec![
        GlyphMask {
            bounds: Some(GlyphBox { min_x: 0, min_y: 2, max_x: 3, max_y: 5 }),
            pixels: vec![CoveragePixel { x: 0, y: 0, alpha: 128 }],
        },
    ];
    let img = SimpleImage::create_text_image(&glyphs, [1, 2, 3]);
    assert_eq!(img.width(), 3);
    assert_eq!(img.height(), 3);
    assert_eq!(img.get(0, 0), Ok([3, 2, 1, 128]));
}

#[test]
fn later_glyphs_overwrite_earlier_pixels() {
    let b = GlyphBox { min_x: 0, min_y: 0, max_x: 2, max_y: 2 };
    let glyphs = vec![
        GlyphMask { bounds: Some(b), pixels: vec![CoveragePixel { x: 1, y: 1, alpha: 100 }] },
        GlyphMask { bounds: Some(b), pixels: vec![CoveragePixel { x: 1, y: 1, alpha: 250 }] },
    ];
    let img = SimpleImage::create_text_image(&glyphs, [0, 0, 255]);
    assert_eq!(img.get(1, 1), Ok([255, 0, 0, 250]));
}

#[test]
fn writes_outside_the_image_are_clipped() {
    // A glyph whose box reaches left of x = 0 writes its out-of-range pixels
    // nowhere, without failing.
    let glyphs = vec![
        GlyphMask {
            bounds: Some(GlyphBox { min_x: -2, min_y: 0, max_x: 1, max_y: 1 }),
            pixels: vec![
                CoveragePixel { x: 0, y: 0, alpha: 9 },
                CoveragePixel { x: 2, y: 0, alpha: 77 },
            ],
        },
    ];
    let img = SimpleImage::create_text_image(&glyphs, [5, 6, 7]);
    assert_eq!(img.width(), 1);
    assert_eq!(img.height(), 1);
    assert_eq!(img.get(0, 0), Ok([7, 6, 5, 77]));
}
