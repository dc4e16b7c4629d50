//! The polygon rasterizer: an even-odd scan-line fill sampled at half-pixel
//! steps, followed by a crisp black outline stroked along every edge.
//!
//! Vertices carry integer pixel coordinates; the scan works in doubled
//! ("half-pixel") units so that the half-step sampling and the edge
//! intersections stay exact integer arithmetic.

use vstd::prelude::*;
use vstd::math::min;
use vstd::math::max;
use vstd::relations::sorted_by;
use vstd::relations::total_ordering;
use vstd::seq_lib::lemma_sorted_unique;
use vstd::seq_lib::group_to_multiset_ensures;
use vstd::multiset::group_multiset_axioms;

use crate::image::SimpleImage;

verus! {

/// Bound on the vertex coordinates the rasterizer accepts; it keeps the exact
/// intersection arithmetic inside `i64`.
pub const COORD_LIMIT: i64 = 1048576;

/// A polygon vertex in pixel coordinates.
#[derive(Clone, Copy, PartialEq, Eq, Structural, Debug)]
pub struct Vertex {
    pub x: i64,
    pub y: i64,
}

/// Whether a vertex lies within the coordinate bound of the rasterizer.
pub open spec fn vertex_in_range(v: Vertex) -> bool {
    &&& -COORD_LIMIT <= v.x <= COORD_LIMIT
    &&& -COORD_LIMIT <= v.y <= COORD_LIMIT
}

/// Whether every vertex of the polygon lies within the coordinate bound.
pub open spec fn polygon_in_range(poly: Seq<Vertex>) -> bool {
    forall|i: int| 0 <= i < poly.len() ==> vertex_in_range(#[trigger] poly[i])
}

/// Whether both endpoints of every edge lie within the coordinate bound.
pub open spec fn lines_in_range(lines: Seq<(Vertex, Vertex)>) -> bool {
    forall|i: int|
        0 <= i < lines.len() ==> vertex_in_range(#[trigger] lines[i].0) && vertex_in_range(
            lines[i].1,
        )
}

/// The edge list of a polygon: every consecutive pair of vertices plus the
/// wrap-around pair (last, first); the polygon is implicitly closed.
pub open spec fn edges(poly: Seq<Vertex>) -> Seq<(Vertex, Vertex)> {
    Seq::new(
        poly.len(),
        |i: int|
            (
                poly[i],
                if i + 1 < poly.len() {
                    poly[i + 1]
                } else {
                    poly[0]
                },
            ),
    )
}

/// The top of the polygon's vertical extent: the least `y` over all edge
/// endpoints, starting from `i64::MAX` (so an empty edge list scans nothing).
pub open spec fn scan_top(lines: Seq<(Vertex, Vertex)>) -> int
    decreases lines.len(),
{
    if lines.len() == 0 {
        i64::MAX as int
    } else {
        min(
            min(scan_top(lines.drop_last()), lines.last().0.y as int),
            lines.last().1.y as int,
        )
    }
}

/// The bottom of the polygon's vertical extent: the greatest `y` over all
/// edge endpoints, starting from `i64::MIN` (so an empty edge list scans
/// nothing).
pub open spec fn scan_bottom(lines: Seq<(Vertex, Vertex)>) -> int
    decreases lines.len(),
{
    if lines.len() == 0 {
        i64::MIN as int
    } else {
        max(
            max(scan_bottom(lines.drop_last()), lines.last().0.y as int),
            lines.last().1.y as int,
        )
    }
}

/// Integer division rounding toward zero, as the hardware cast of the
/// interpolated intersection does.
pub open spec fn trunc_div(n: int, d: int) -> int
    recommends
        d > 0,
{
    if n >= 0 {
        n / d
    } else {
        -((-n) / d)
    }
}

/// The x value where the non-horizontal edge `lo -> hi` crosses the scan line
/// at height `y2 / 2`: the linear interpolation of the line through the two
/// endpoints, truncated toward zero.
pub open spec fn isect_x(lo: Vertex, hi: Vertex, y2: int) -> int
    recommends
        lo.y < hi.y,
{
    if lo.x == hi.x {
        lo.x as int
    } else {
        trunc_div(
            2 * (lo.x as int) * (hi.y - lo.y) + (y2 - 2 * (lo.y as int)) * (hi.x - lo.x),
            2 * (hi.y - lo.y),
        )
    }
}

/// The intersection an edge contributes to the scan line at height `y2 / 2`:
/// none for a horizontal edge or when the line misses the edge's y-extent.
pub open spec fn edge_hit(a: Vertex, b: Vertex, y2: int) -> Option<i64> {
    if a.y == b.y {
        None
    } else {
        let lo = if a.y <= b.y {
            a
        } else {
            b
        };
        let hi = if a.y <= b.y {
            b
        } else {
            a
        };
        if y2 < 2 * lo.y || 2 * hi.y < y2 {
            None
        } else {
            Some(isect_x(lo, hi, y2) as i64)
        }
    }
}

/// All intersection x values of the edges with the scan line at `y2 / 2`, in
/// edge order.
pub open spec fn hits(lines: Seq<(Vertex, Vertex)>, y2: int) -> Seq<i64>
    decreases lines.len(),
{
    if lines.len() == 0 {
        Seq::empty()
    } else {
        let rest = hits(lines.drop_last(), y2);
        match edge_hit(lines.last().0, lines.last().1, y2) {
            Some(x) => rest.push(x),
            None => rest,
        }
    }
}

/// The ascending order in which the intersections are paired.
pub open spec fn hit_order() -> spec_fn(i64, i64) -> bool {
    |a: i64, b: i64| a <= b
}

/// The intersections of the scan line at `y2 / 2`, sorted ascending.
pub open spec fn sorted_hits(lines: Seq<(Vertex, Vertex)>, y2: int) -> Seq<i64> {
    hits(lines, y2).sort_by(hit_order())
}

/// The even-odd rule: a pixel column `x` is interior to the scan line whose
/// ascending intersections are `xs` when it lies between the 1st and 2nd, the
/// 3rd and 4th, ... intersections (inclusive on both sides).
pub open spec fn span_covered(xs: Seq<i64>, x: int) -> bool {
    exists|i: int|
        0 <= i && 2 * i + 1 < xs.len() && #[trigger] xs[2 * i] <= x && x <= xs[2 * i + 1]
}

/// Whether the fill pass paints column `x` when sampling the scan line at
/// height `y2 / 2` (only samples inside the scanned extent are taken).
pub open spec fn sample_covers(
    lines: Seq<(Vertex, Vertex)>,
    top2: int,
    bottom2: int,
    y2: int,
    x: int,
) -> bool {
    top2 <= y2 < bottom2 && span_covered(sorted_hits(lines, y2), x)
}

/// Whether the fill pass paints pixel `(x, y)`: the pixel row `y` is sampled
/// twice, at heights `y` and `y + 1/2`.
pub open spec fn fill_covers(lines: Seq<(Vertex, Vertex)>, x: int, y: int) -> bool {
    let top2 = 2 * scan_top(lines);
    let bottom2 = 2 * scan_bottom(lines);
    ||| sample_covers(lines, top2, bottom2, 2 * y, x)
    ||| sample_covers(lines, top2, bottom2, 2 * y + 1, x)
}

/// The grid points of the Bresenham line from `(x0, y0)` to `(x1, y1)`, as
/// the outside line-drawing algorithm walks them.
pub uninterp spec fn bresenham_of(x0: int, y0: int, x1: int, y1: int) -> Seq<(int, int)>;

/// The grid points of the outline stroke of one edge.
pub open spec fn edge_stroke(l: (Vertex, Vertex)) -> Seq<(int, int)> {
    bresenham_of(l.0.x as int, l.0.y as int, l.1.x as int, l.1.y as int)
}

/// Whether the outline pass paints pixel `(x, y)`: some edge's Bresenham line
/// passes through it.
pub open spec fn stroke_covers(lines: Seq<(Vertex, Vertex)>, x: int, y: int) -> bool {
    exists|i: int, j: int|
        0 <= i < lines.len() && 0 <= j < edge_stroke(lines[i]).len() && #[trigger] edge_stroke(
            lines[i],
        )[j] == (x, y)
}

/// The opaque black of the outline stroke.
pub open spec fn black() -> Seq<u8> {
    seq![0u8, 0u8, 0u8, 255u8]
}

/// `span_covered` restricted to the pairs that start below index `k`.
pub open spec fn span_covered_upto(xs: Seq<i64>, k: int, x: int) -> bool {
    exists|i: int|
        0 <= i && 2 * i + 1 < k && 2 * i + 1 < xs.len() && #[trigger] xs[2 * i] <= x && x <= xs[2
            * i + 1]
}

/// `fill_covers` restricted to the scan samples below height `upto2 / 2`.
pub open spec fn fill_covers_upto(
    lines: Seq<(Vertex, Vertex)>,
    upto2: int,
    x: int,
    y: int,
) -> bool {
    let top2 = 2 * scan_top(lines);
    let bottom2 = 2 * scan_bottom(lines);
    ||| (sample_covers(lines, top2, bottom2, 2 * y, x) && 2 * y < upto2)
    ||| (sample_covers(lines, top2, bottom2, 2 * y + 1, x) && 2 * y + 1 < upto2)
}

/// `stroke_covers` restricted to the first `k` edges.
pub open spec fn stroke_covers_upto(lines: Seq<(Vertex, Vertex)>, k: int, x: int, y: int) -> bool {
    exists|i: int, j: int|
        0 <= i < k && i < lines.len() && 0 <= j < edge_stroke(lines[i]).len()
            && #[trigger] edge_stroke(lines[i])[j] == (x, y)
}

/// Whether one of the first `k` grid points of `pts` is `(x, y)`.
pub open spec fn pts_prefix_covers(pts: Seq<(int, int)>, k: int, x: int, y: int) -> bool {
    exists|j: int| 0 <= j < k && j < pts.len() && #[trigger] pts[j] == (x, y)
}

/// With every endpoint inside the coordinate bound, the scanned extent is
/// inside it as well.
proof fn lemma_scan_range(lines: Seq<(Vertex, Vertex)>)
    requires
        lines_in_range(lines),
    ensures
        lines.len() > 0 ==> -COORD_LIMIT <= scan_top(lines) && scan_top(lines) <= COORD_LIMIT,
        lines.len() > 0 ==> -COORD_LIMIT <= scan_bottom(lines) && scan_bottom(lines)
            <= COORD_LIMIT,
    decreases lines.len(),
{
    if lines.len() > 0 {
        assert(lines_in_range(lines.drop_last()));
        lemma_scan_range(lines.drop_last());
        if lines.len() == 1 {
            assert(lines.drop_last().len() == 0);
            assert(scan_top(lines.drop_last()) == i64::MAX as int);
            assert(scan_bottom(lines.drop_last()) == i64::MIN as int);
        }
        assert(vertex_in_range(lines.last().0) && vertex_in_range(lines.last().1)) by {
            assert(lines[lines.len() - 1] == lines.last());
        }
    }
}

/// Relies on `line_drawing::Bresenham`: walks the grid line from `(x0, y0)`
/// to `(x1, y1)`; which grid points it yields is a function of the two
/// endpoints alone. The walk includes both the start and the end point —
/// first and last respectively — and stays within the endpoints' bounding
/// box: it advances one x step per point in octant space, stepping y
/// monotonically from the start's to the end's. The coordinate bound keeps
/// its internal arithmetic from overflowing.
#[verifier::external_body]
fn bresenham_points(x0: i64, y0: i64, x1: i64, y1: i64) -> (r: Vec<(i64, i64)>)
    requires
        -COORD_LIMIT <= x0 <= COORD_LIMIT,
        -COORD_LIMIT <= y0 <= COORD_LIMIT,
        -COORD_LIMIT <= x1 <= COORD_LIMIT,
        -COORD_LIMIT <= y1 <= COORD_LIMIT,
    ensures
        r@.map_values(|p: (i64, i64)| (p.0 as int, p.1 as int)) == bresenham_of(
            x0 as int,
            y0 as int,
            x1 as int,
            y1 as int,
        ),
        r@.len() >= 1,
        r@[0] == (x0, y0),
        r@[r@.len() - 1] == (x1, y1),
        forall|k: int|
            #![trigger r@[k]]
            0 <= k < r@.len() ==> {
                &&& min(x0 as int, x1 as int) <= r@[k].0 <= max(x0 as int, x1 as int)
                &&& min(y0 as int, y1 as int) <= r@[k].1 <= max(y0 as int, y1 as int)
            },
{
    line_drawing::Bresenham::new((x0, y0), (x1, y1)).collect()
}

/// `|a * b|` is bounded by the product of bounds on `|a|` and `|b|`.
proof fn lemma_mul_bound(a: int, b: int, ab: int, bb: int)
    by (nonlinear_arith)
    requires
        -ab <= a <= ab,
        -bb <= b <= bb,
    ensures
        -(ab * bb) <= a * b <= ab * bb,
{
}

/// Division of `i64` values rounding toward zero, matching `trunc_div`.
fn trunc_div_i64(n: i64, d: i64) -> (q: i64)
    requires
        d > 0,
        -0x4000_0000_0000_0000 < n < 0x4000_0000_0000_0000,
    ensures
        q as int == trunc_div(n as int, d as int),
{
    if n >= 0 {
        ((n as u64) / (d as u64)) as i64
    } else {
        proof {
            vstd::arithmetic::div_mod::lemma_div_nonincreasing(-(n as int), d as int);
            vstd::arithmetic::div_mod::lemma_div_pos_is_pos(-(n as int), d as int);
        }
        let m: u64 = ((-n) as u64) / (d as u64);
        -(m as i64)
    }
}

/// Build the edge list of the polygon: consecutive pairs plus wrap-around.
fn edge_list(polygon: &Vec<Vertex>) -> (r: Vec<(Vertex, Vertex)>)
    ensures
        r@ == edges(polygon@),
{
    let n: usize = polygon.len();
    let mut r: Vec<(Vertex, Vertex)> = Vec::new();
    let mut i: usize = 0;
    while i < n
        invariant
            i <= n,
            n == polygon@.len(),
            r@.len() == i as int,
            forall|j: int| 0 <= j < i as int ==> r@[j] == edges(polygon@)[j],
        decreases n - i,
    {
        let a = polygon[i];
        let b = if i + 1 < n {
            polygon[i + 1]
        } else {
            polygon[0]
        };
        r.push((a, b));
        i += 1;
    }
    proof {
        assert(r@ =~= edges(polygon@));
    }
    r
}

/// The vertical extent `[top, bottom]` the fill pass scans.
fn scan_bounds(lines: &Vec<(Vertex, Vertex)>) -> (r: (i64, i64))
    ensures
        r.0 as int == scan_top(lines@),
        r.1 as int == scan_bottom(lines@),
{
    let n: usize = lines.len();
    let mut top: i64 = i64::MAX;
    let mut bottom: i64 = i64::MIN;
    let mut i: usize = 0;
    while i < n
        invariant
            i <= n,
            n == lines@.len(),
            top as int == scan_top(lines@.take(i as int)),
            bottom as int == scan_bottom(lines@.take(i as int)),
        decreases n - i,
    {
        let l = lines[i];
        if l.0.y < top {
            top = l.0.y;
        }
        if l.1.y < top {
            top = l.1.y;
        }
        if l.0.y > bottom {
            bottom = l.0.y;
        }
        if l.1.y > bottom {
            bottom = l.1.y;
        }
        i += 1;
        proof {
            assert(lines@.take(i as int).drop_last() =~= lines@.take(i as int - 1));
            assert(lines@.take(i as int).last() == lines@[i as int - 1]);
        }
    }
    proof {
        assert(lines@.take(n as int) =~= lines@);
    }
    (top, bottom)
}

/// The intersection the edge `(a, b)` contributes at height `y2 / 2`.
fn edge_hit_at(a: Vertex, b: Vertex, y2: i64) -> (r: Option<i64>)
    requires
        vertex_in_range(a),
        vertex_in_range(b),
        -6 * COORD_LIMIT <= y2 <= 6 * COORD_LIMIT,
    ensures
        r == edge_hit(a, b, y2 as int),
{
    if a.y == b.y {
        return None;
    }
    let lo = if a.y <= b.y {
        a
    } else {
        b
    };
    let hi = if a.y <= b.y {
        b
    } else {
        a
    };
    if y2 < 2 * lo.y || 2 * hi.y < y2 {
        return None;
    }
    if lo.x == hi.x {
        return Some(lo.x);
    }
    let dy: i64 = hi.y - lo.y;
    let dx: i64 = hi.x - lo.x;
    proof {
        lemma_mul_bound(2 * (lo.x as int), dy as int, 2 * (COORD_LIMIT as int), 2 * (COORD_LIMIT as int));
        lemma_mul_bound(
            y2 as int - 2 * (lo.y as int),
            dx as int,
            8 * (COORD_LIMIT as int),
            2 * (COORD_LIMIT as int),
        );
    }
    let n: i64 = 2 * lo.x * dy + (y2 - 2 * lo.y) * dx;
    let d: i64 = 2 * dy;
    Some(trunc_div_i64(n, d))
}

/// All intersections of the edges with the scan line at `y2 / 2`, in edge
/// order.
fn hits_at(lines: &Vec<(Vertex, Vertex)>, y2: i64) -> (r: Vec<i64>)
    requires
        lines_in_range(lines@),
        -6 * COORD_LIMIT <= y2 <= 6 * COORD_LIMIT,
    ensures
        r@ == hits(lines@, y2 as int),
{
    let n: usize = lines.len();
    let mut r: Vec<i64> = Vec::new();
    let mut i: usize = 0;
    while i < n
        invariant
            i <= n,
            n == lines@.len(),
            lines_in_range(lines@),
            -6 * COORD_LIMIT <= y2 <= 6 * COORD_LIMIT,
            r@ == hits(lines@.take(i as int), y2 as int),
        decreases n - i,
    {
        let l = lines[i];
        match edge_hit_at(l.0, l.1, y2) {
            Some(x) => {
                r.push(x);
            },
            None => {},
        }
        i += 1;
        proof {
            assert(lines@.take(i as int).drop_last() =~= lines@.take(i as int - 1));
            assert(lines@.take(i as int).last() == lines@[i as int - 1]);
        }
    }
    proof {
        assert(lines@.take(n as int) =~= lines@);
    }
    r
}

/// Sort the intersection list ascending (selection sort).
fn sort_hits(xs: Vec<i64>) -> (r: Vec<i64>)
    ensures
        r@ == xs@.sort_by(hit_order()),
{
    broadcast use group_to_multiset_ensures, group_multiset_axioms;

    let mut src = xs;
    let mut out: Vec<i64> = Vec::new();
    proof {
        assert(out@.to_multiset().add(src@.to_multiset()) =~= xs@.to_multiset());
    }
    while src.len() > 0
        invariant
            sorted_by(out@, hit_order()),
            out@.to_multiset().add(src@.to_multiset()) == xs@.to_multiset(),
            forall|p: int, q: int|
                #![trigger out@[p], src@[q]]
                0 <= p < out@.len() && 0 <= q < src@.len() ==> out@[p] <= src@[q],
        decreases src@.len(),
    {
        let mut mi: usize = 0;
        let mut k: usize = 1;
        while k < src.len()
            invariant
                src@.len() > 0,
                (mi as int) < src@.len(),
                k <= src@.len(),
                forall|j: int| 0 <= j < k as int ==> src@[mi as int] <= #[trigger] src@[j],
            decreases src@.len() - k,
        {
            if src[k] < src[mi] {
                mi = k;
            }
            k += 1;
        }
        let ghost old_out = out@;
        let ghost old_src = src@;
        let x = src.remove(mi);
        out.push(x);
        proof {
            assert(old_src.contains(x)) by {
                assert(old_src[mi as int] == x);
            }
            vstd::seq_lib::to_multiset_remove(old_src, mi as int);
            vstd::seq_lib::to_multiset_build(old_out, x);
            vstd::seq_lib::to_multiset_contains(old_src, x);
            assert(old_src.to_multiset().count(x) > 0);
            assert(src@.to_multiset() =~= old_src.to_multiset().remove(x));
            assert(out@.to_multiset() =~= old_out.to_multiset().insert(x));
            assert(out@.to_multiset().add(src@.to_multiset()) =~= old_out.to_multiset().add(
                old_src.to_multiset(),
            ));
            assert(sorted_by(out@, hit_order())) by {
                assert(forall|p: int| 0 <= p < old_out.len() ==> old_out[p] <= x);
            }
            assert forall|p: int, q: int|
                #![trigger out@[p], src@[q]]
                0 <= p < out@.len() && 0 <= q < src@.len() implies out@[p] <= src@[q] by {
                assert(src@[q] == if q < mi as int {
                    old_src[q]
                } else {
                    old_src[q + 1]
                });
            }
        }
    }
    proof {
        assert(src@.to_multiset().len() == 0);
        assert(out@.to_multiset().add(src@.to_multiset()) =~= out@.to_multiset());
        xs@.lemma_sort_by_ensures(hit_order());
        assert(total_ordering(hit_order()));
        lemma_sorted_unique(out@, xs@.sort_by(hit_order()), hit_order());
        assert(out@ =~= xs@.sort_by(hit_order()));
    }
    out
}

/// Fill one scan row: pair the ascending intersections up as
/// `(xs[0], xs[1]), (xs[2], xs[3]), ...` and fill every pixel between each
/// pair (inclusive) on row `y` with `color`.
fn fill_row_pairs(img: &mut SimpleImage, xs: &Vec<i64>, y: i64, color: [u8; 4])
    requires
        old(img).wf(),
    ensures
        final(img).wf(),
        final(img).spec_width() == old(img).spec_width(),
        final(img).spec_height() == old(img).spec_height(),
        forall|px: int, py: int|
            old(img).valid_pixel(px, py) ==> final(img).pixel(px, py) == (if py == y as int
                && span_covered(xs@, px) {
                color@
            } else {
                old(img).pixel(px, py)
            }),
{
    let n: usize = xs.len();
    let mut i: usize = 0;
    while i + 1 < n
        invariant
            n == xs@.len(),
            i % 2 == 0,
            img.wf(),
            img.spec_width() == old(img).spec_width(),
            img.spec_height() == old(img).spec_height(),
            forall|px: int, py: int|
                old(img).valid_pixel(px, py) ==> img.pixel(px, py) == (if py == y as int
                    && span_covered_upto(xs@, i as int, px) {
                    color@
                } else {
                    old(img).pixel(px, py)
                }),
        decreases n - i,
    {
        let ghost k = i as int;
        img.fill_span(y, xs[i], xs[i + 1], color);
        proof {
            assert forall|px: int, py: int| old(img).valid_pixel(px, py) implies img.pixel(px, py)
                == (if py == y as int && span_covered_upto(xs@, k + 2, px) {
                color@
            } else {
                old(img).pixel(px, py)
            }) by {
                if py == y as int {
                    if span_covered_upto(xs@, k, px) {
                        let j = choose|j: int|
                            0 <= j && 2 * j + 1 < k && 2 * j + 1 < xs@.len() && #[trigger] xs@[2
                                * j] <= px && px <= xs@[2 * j + 1];
                        assert(2 * j + 1 < k + 2);
                        assert(span_covered_upto(xs@, k + 2, px));
                    } else if xs@[k] <= px && px <= xs@[k + 1] {
                        let j = k / 2;
                        assert(2 * j == k);
                        assert(xs@[2 * j] <= px && px <= xs@[2 * j + 1]);
                        assert(span_covered_upto(xs@, k + 2, px));
                    } else {
                        assert(!span_covered_upto(xs@, k + 2, px)) by {
                            if span_covered_upto(xs@, k + 2, px) {
                                let j = choose|j: int|
                                    0 <= j && 2 * j + 1 < k + 2 && 2 * j + 1 < xs@.len()
                                        && #[trigger] xs@[2 * j] <= px && px <= xs@[2 * j + 1];
                                if 2 * j + 1 < k {
                                    assert(span_covered_upto(xs@, k, px));
                                } else {
                                    assert(2 * j == k);
                                }
                            }
                        }
                    }
                }
            }
        }
        i += 2;
    }
    proof {
        assert forall|px: int, py: int| old(img).valid_pixel(px, py) implies img.pixel(px, py) == (
        if py == y as int && span_covered(xs@, px) {
            color@
        } else {
            old(img).pixel(px, py)
        }) by {
            if py == y as int {
                if span_covered(xs@, px) {
                    let j = choose|j: int|
                        0 <= j && 2 * j + 1 < xs@.len() && #[trigger] xs@[2 * j] <= px && px
                            <= xs@[2 * j + 1];
                    assert(2 * j + 1 < i as int);
                    assert(span_covered_upto(xs@, i as int, px));
                } else {
                    if span_covered_upto(xs@, i as int, px) {
                        let j = choose|j: int|
                            0 <= j && 2 * j + 1 < i as int && 2 * j + 1 < xs@.len()
                                && #[trigger] xs@[2 * j] <= px && px <= xs@[2 * j + 1];
                        assert(span_covered(xs@, px));
                    }
                }
            }
        }
    }
}

/// The fill pass: scan the polygon's vertical extent in half-pixel steps and
/// fill the even-odd interior of every scan line with `color`.
fn fill_pass(img: &mut SimpleImage, lines: &Vec<(Vertex, Vertex)>, color: [u8; 4])
    requires
        old(img).wf(),
        lines_in_range(lines@),
    ensures
        final(img).wf(),
        final(img).spec_width() == old(img).spec_width(),
        final(img).spec_height() == old(img).spec_height(),
        forall|px: int, py: int|
            old(img).valid_pixel(px, py) ==> final(img).pixel(px, py) == (if fill_covers(
                lines@,
                px,
                py,
            ) {
                color@
            } else {
                old(img).pixel(px, py)
            }),
{
    let r = scan_bounds(lines);
    let top: i64 = r.0;
    let bottom: i64 = r.1;
    proof {
        lemma_scan_range(lines@);
    }
    if top >= bottom {
        return ;
    }
    let mut y2: i64 = 2 * top;
    let bottom2: i64 = 2 * bottom;
    while y2 < bottom2
        invariant
            img.wf(),
            img.spec_width() == old(img).spec_width(),
            img.spec_height() == old(img).spec_height(),
            lines_in_range(lines@),
            top as int == scan_top(lines@),
            bottom2 as int == 2 * scan_bottom(lines@),
            2 * (top as int) <= y2 as int <= bottom2 as int,
            -2 * COORD_LIMIT <= y2 as int,
            bottom2 as int <= 2 * COORD_LIMIT,
            forall|px: int, py: int|
                old(img).valid_pixel(px, py) ==> img.pixel(px, py) == (if fill_covers_upto(
                    lines@,
                    y2 as int,
                    px,
                    py,
                ) {
                    color@
                } else {
                    old(img).pixel(px, py)
                }),
        decreases bottom2 - y2,
    {
        let xs = hits_at(lines, y2);
        let sorted = sort_hits(xs);
        let row: i64 = if y2 >= 0 {
            ((y2 as u64) / 2u64) as i64
        } else {
            -1
        };
        let ghost cur2 = y2 as int;
        fill_row_pairs(img, &sorted, row, color);
        proof {
            let ln = lines@;
            let top2 = 2 * scan_top(ln);
            let bottom2s = 2 * scan_bottom(ln);
            assert(sorted@ == sorted_hits(ln, cur2));
            assert forall|px: int, py: int| old(img).valid_pixel(px, py) implies img.pixel(px, py)
                == (if fill_covers_upto(ln, cur2 + 1, px, py) {
                color@
            } else {
                old(img).pixel(px, py)
            }) by {
                if py == row as int && span_covered(sorted@, px) {
                    assert(cur2 == 2 * py || cur2 == 2 * py + 1);
                    assert(sample_covers(ln, top2, bottom2s, cur2, px));
                    assert(fill_covers_upto(ln, cur2 + 1, px, py));
                } else {
                    if fill_covers_upto(ln, cur2 + 1, px, py) && !fill_covers_upto(
                        ln,
                        cur2,
                        px,
                        py,
                    ) {
                        assert(sample_covers(ln, top2, bottom2s, cur2, px) && (cur2 == 2 * py
                            || cur2 == 2 * py + 1));
                        assert(0 <= py);
                        assert(py == row as int);
                        assert(span_covered(sorted@, px));
                    }
                }
            }
        }
        y2 += 1;
    }
    proof {
        assert forall|px: int, py: int| old(img).valid_pixel(px, py) implies img.pixel(px, py) == (
        if fill_covers(lines@, px, py) {
            color@
        } else {
            old(img).pixel(px, py)
        }) by {
            assert(fill_covers_upto(lines@, y2 as int, px, py) == fill_covers(lines@, px, py));
        }
    }
}

/// The outline pass: stroke every edge with opaque black along its Bresenham
/// line, rounding each vertex to its integer pixel.
fn stroke_pass(img: &mut SimpleImage, lines: &Vec<(Vertex, Vertex)>)
    requires
        old(img).wf(),
        lines_in_range(lines@),
    ensures
        final(img).wf(),
        final(img).spec_width() == old(img).spec_width(),
        final(img).spec_height() == old(img).spec_height(),
        forall|px: int, py: int|
            old(img).valid_pixel(px, py) ==> final(img).pixel(px, py) == (if stroke_covers(
                lines@,
                px,
                py,
            ) {
                black()
            } else {
                old(img).pixel(px, py)
            }),
{
    let n: usize = lines.len();
    let mut i: usize = 0;
    while i < n
        invariant
            n == lines@.len(),
            i <= n,
            img.wf(),
            img.spec_width() == old(img).spec_width(),
            img.spec_height() == old(img).spec_height(),
            lines_in_range(lines@),
            forall|px: int, py: int|
                old(img).valid_pixel(px, py) ==> img.pixel(px, py) == (if stroke_covers_upto(
                    lines@,
                    i as int,
                    px,
                    py,
                ) {
                    black()
                } else {
                    old(img).pixel(px, py)
                }),
        decreases n - i,
    {
        let l = lines[i];
        let pts = bresenham_points(l.0.x, l.0.y, l.1.x, l.1.y);
        let ghost stroke = edge_stroke(lines@[i as int]);
        let m: usize = pts.len();
        let mut j: usize = 0;
        while j < m
            invariant
                m == pts@.len(),
                j <= m,
                i < n,
                n == lines@.len(),
                lines@[i as int] == l,
                pts@.map_values(|p: (i64, i64)| (p.0 as int, p.1 as int)) == stroke,
                stroke == edge_stroke(lines@[i as int]),
                img.wf(),
                img.spec_width() == old(img).spec_width(),
                img.spec_height() == old(img).spec_height(),
                forall|px: int, py: int|
                    old(img).valid_pixel(px, py) ==> img.pixel(px, py) == (if stroke_covers_upto(
                        lines@,
                        i as int,
                        px,
                        py,
                    ) || pts_prefix_covers(stroke, j as int, px, py) {
                        black()
                    } else {
                        old(img).pixel(px, py)
                    }),
            decreases m - j,
        {
            let p = pts[j];
            let ghost prevj = j as int;
            img.paint(p.0, p.1, [0u8, 0u8, 0u8, 255u8]);
            proof {
                assert(stroke[prevj] == (p.0 as int, p.1 as int));
                assert([0u8, 0u8, 0u8, 255u8]@ =~= black());
                assert forall|px: int, py: int| old(img).valid_pixel(px, py) implies img.pixel(
                    px,
                    py,
                ) == (if stroke_covers_upto(lines@, i as int, px, py) || pts_prefix_covers(
                    stroke,
                    prevj + 1,
                    px,
                    py,
                ) {
                    black()
                } else {
                    old(img).pixel(px, py)
                }) by {
                    if px == p.0 as int && py == p.1 as int {
                        assert(stroke[prevj] == (px, py));
                        assert(pts_prefix_covers(stroke, prevj + 1, px, py));
                    } else {
                        if pts_prefix_covers(stroke, prevj + 1, px, py) && !pts_prefix_covers(
                            stroke,
                            prevj,
                            px,
                            py,
                        ) {
                            let jj = choose|jj: int|
                                0 <= jj < prevj + 1 && jj < stroke.len() && #[trigger] stroke[jj]
                                    == (px, py);
                            assert(jj == prevj);
                            assert((px, py) == (p.0 as int, p.1 as int));
                        }
                    }
                }
            }
            j += 1;
        }
        proof {
            let ghost previ = i as int;
            assert forall|px: int, py: int| old(img).valid_pixel(px, py) implies img.pixel(px, py)
                == (if stroke_covers_upto(lines@, previ + 1, px, py) {
                black()
            } else {
                old(img).pixel(px, py)
            }) by {
                if stroke_covers_upto(lines@, previ, px, py) || pts_prefix_covers(
                    stroke,
                    m as int,
                    px,
                    py,
                ) {
                    if pts_prefix_covers(stroke, m as int, px, py) {
                        let jj = choose|jj: int|
                            0 <= jj < m as int && jj < stroke.len() && #[trigger] stroke[jj] == (
                            px,
                            py,
                            );
                        assert(edge_stroke(lines@[previ])[jj] == (px, py));
                        assert(stroke_covers_upto(lines@, previ + 1, px, py));
                    } else {
                        let (ii, jj) = choose|ii: int, jj: int|
                            0 <= ii < previ && ii < lines@.len() && 0 <= jj < edge_stroke(
                                lines@[ii],
                            ).len() && #[trigger] edge_stroke(lines@[ii])[jj] == (px, py);
                        assert(stroke_covers_upto(lines@, previ + 1, px, py));
                    }
                } else {
                    if stroke_covers_upto(lines@, previ + 1, px, py) {
                        let (ii, jj) = choose|ii: int, jj: int|
                            0 <= ii < previ + 1 && ii < lines@.len() && 0 <= jj < edge_stroke(
                                lines@[ii],
                            ).len() && #[trigger] edge_stroke(lines@[ii])[jj] == (px, py);
                        if ii < previ {
                            assert(stroke_covers_upto(lines@, previ, px, py));
                        } else {
                            assert(stroke.len() <= m as int);
                            assert(pts_prefix_covers(stroke, m as int, px, py));
                        }
                    }
                }
            }
        }
        i += 1;
    }
    proof {
        assert forall|px: int, py: int| old(img).valid_pixel(px, py) implies img.pixel(px, py) == (
        if stroke_covers(lines@, px, py) {
            black()
        } else {
            old(img).pixel(px, py)
        }) by {
            if stroke_covers(lines@, px, py) {
                let (ii, jj) = choose|ii: int, jj: int|
                    0 <= ii < lines@.len() && 0 <= jj < edge_stroke(lines@[ii]).len()
                        && #[trigger] edge_stroke(lines@[ii])[jj] == (px, py);
                assert(stroke_covers_upto(lines@, i as int, px, py));
            } else {
                if stroke_covers_upto(lines@, i as int, px, py) {
                    let (ii, jj) = choose|ii: int, jj: int|
                        0 <= ii < i as int && ii < lines@.len() && 0 <= jj < edge_stroke(
                            lines@[ii],
                        ).len() && #[trigger] edge_stroke(lines@[ii])[jj] == (px, py);
                    assert(stroke_covers(lines@, px, py));
                }
            }
        }
    }
}

impl SimpleImage {
    /// Given the list of vertices that define it, draw a polygon onto this
    /// image: fill its even-odd interior with `color` (sampling each pixel
    /// row twice, at half-pixel steps), then stroke every edge — consecutive
    /// vertex pairs plus the wrap-around pair — with opaque black.
    ///
    /// Pixels of the fill or of the outline that fall outside the image are
    /// clipped. Degenerate polygons (fewer than 3 distinct vertices, zero
    /// area) produce no fill, but their outline is still stroked.
    pub fn draw_polygon(&mut self, polygon: &Vec<Vertex>, color: [u8; 4])
        requires
            old(self).wf(),
            polygon_in_range(polygon@),
        ensures
            final(self).wf(),
            final(self).spec_width() == old(self).spec_width(),
            final(self).spec_height() == old(self).spec_height(),
            forall|px: int, py: int|
                old(self).valid_pixel(px, py) ==> final(self).pixel(px, py) == (if stroke_covers(
                    edges(polygon@),
                    px,
                    py,
                ) {
                    black()
                } else if fill_covers(edges(polygon@), px, py) {
                    color@
                } else {
                    old(self).pixel(px, py)
                }),
    {
        let lines = edge_list(polygon);
        proof {
            assert forall|k: int|
                0 <= k < lines@.len() implies vertex_in_range(#[trigger] lines@[k].0)
                && vertex_in_range(lines@[k].1) by {
                assert(vertex_in_range(polygon@[k]));
                if k + 1 < polygon@.len() {
                    assert(vertex_in_range(polygon@[k + 1]));
                } else {
                    assert(vertex_in_range(polygon@[0]));
                }
            }
        }
        fill_pass(self, &lines, color);
        stroke_pass(self, &lines);
    }
}

} // verus!
