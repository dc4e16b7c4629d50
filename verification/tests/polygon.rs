use rastermap::SimpleImage;
use rastermap::Vertex;

fn v(x: i64, y: i64) -> Vertex {
    Vertex { x, y }
}

const RED: [u8; 4] = [255, 0, 0, 255];
const BLACK: [u8; 4] = [0, 0, 0, 255];
const CLEAR: [u8; 4] = [0, 0, 0, 0];

#[test]
fn rectangle_fill_and_outline() {
    let mut img = SimpleImage::new(12, 12);
    let polygon = vec![v(0, 0), v(10, 0), v(10, 10), v(0, 10)];
    img.draw_polygon(&polygon, RED);

    // Interior pixels carry the fill color.
    assert_eq!(img.get(5, 5), Ok(RED));
    assert_eq!(img.get(1, 1), Ok(RED));
    assert_eq!(img.get(9, 9), Ok(RED));

    // The four edges are stroked opaque black.
    for i in 0..=10u32 {
        assert_eq!(img.get(i, 0), Ok(BLACK), "top edge at {i}");
        assert_eq!(img.get(i, 10), Ok(BLACK), "bottom edge at {i}");
        assert_eq!(img.get(0, i), Ok(BLACK), "left edge at {i}");
        assert_eq!(img.get(10, i), Ok(BLACK), "right edge at {i}");
    }

    // Pixels beyond the polygon stay untouched.
    assert_eq!(img.get(11, 5), Ok(CLEAR));
    assert_eq!(img.get(5, 11), Ok(CLEAR));
}

#[test]
fn degenerate_polygon_strokes_outline_only() {
    // Two vertices: no area to fill, but the outline is still drawn, and the
    // line's interior grid points are painted, not just its endpoints.
    let mut img = SimpleImage::new(4, 4);
    let polygon = vec![v(0, 0), v(2, 2)];
    img.draw_polygon(&polygon, RED);
    assert_eq!(img.get(0, 0), Ok(BLACK));
    assert_eq!(img.get(1, 1), Ok(BLACK));
    assert_eq!(img.get(2, 2), Ok(BLACK));
    assert_eq!(img.get(2, 0), Ok(CLEAR));
    assert_eq!(img.get(3, 3), Ok(CLEAR));
}

#[test]
fn empty_polygon_draws_nothing() {
    let mut img = SimpleImage::new(3, 3);
    img.draw_polygon(&vec![], RED);
    for b in img.as_bytes() {
        assert_eq!(*b, 0u8);
    }
}

#[test]
fn polygon_is_clipped_to_the_image() {
    // A rectangle larger than the buffer fills everything it overlaps and
    // does not fail on the parts outside.
    let mut img = SimpleImage::new(4, 4);
    let polygon = vec![v(-2, -2), v(8, -2), v(8, 8), v(-2, 8)];
    img.draw_polygon(&polygon, RED);
    for x in 0..4u32 {
        for y in 0..4u32 {
            assert_eq!(img.get(x, y), Ok(RED));
        }
    }
}

#[test]
fn concave_polygon_fills_even_odd() {
    // A U-shaped polygon: scan lines through the notch cross four edges, so
    // the even-odd rule fills [0,2] and [4,6] and leaves the notch empty.
    let mut img = SimpleImage::new(8, 12);
    let polygon = vec![
        v(0, 0),
        v(2, 0),
        v(2, 6),
        v(4, 6),
        v(4, 0),
        v(6, 0),
        v(6, 10),
        v(0, 10),
    ];
    img.draw_polygon(&polygon, RED);
    assert_eq!(img.get(1, 3), Ok(RED), "left arm of the U");
    assert_eq!(img.get(5, 3), Ok(RED), "right arm of the U");
    assert_eq!(img.get(3, 3), Ok(CLEAR), "the notch stays empty");
    assert_eq!(img.get(3, 8), Ok(RED), "below the notch the U is solid");
    assert_eq!(img.get(2, 3), Ok(BLACK), "the notch's left wall is stroked");
}

#[test]
fn triangle_fill_respects_edges() {
    let mut img = SimpleImage::new(12, 12);
    let polygon = vec![v(0, 0), v(10, 0), v(0, 10)];
    img.draw_polygon(&polygon, RED);
    // Well inside the triangle.
    assert_eq!(img.get(2, 2), Ok(RED));
    // Well outside the hypotenuse, inside the buffer.
    assert_eq!(img.get(9, 9), Ok(CLEAR));
    // The corners are stroked.
    assert_eq!(img.get(0, 0), Ok(BLACK));
    assert_eq!(img.get(10, 0), Ok(BLACK));
    assert_eq!(img.get(0, 10), Ok(BLACK));
}
