//! What rasterising a frame means, in terms of where its vertices lie.
use crate::raster::bin;
use crate::raster::bin::{DrawItem, Entry, ScreenVertex, Tri};
use crate::raster::determinism;
use crate::raster::fixed;
use crate::raster::job;
use crate::raster::shade;
use crate::raster::single;
use crate::raster::tile;
use crate::raster::tile::TileStep;
use crate::raster::{
    PipelineState, COMPARE_GREATER, COMPARE_LESS, CULL_BACK, CULL_FRONT, CULL_NONE,
};
use vstd::prelude::*;

verus! {

/// On which side of the line from vertex `i` to vertex `j` the point lies: the cross
/// product of the two ways from vertex `i`, positive when the point is to the right of
/// a line that runs down the screen.
pub open spec fn side(x: [i32; 3], y: [i32; 3], i: int, j: int, px: int, py: int) -> int {
    (y[j] - y[i]) * (px - x[i]) - (x[j] - x[i]) * (py - y[i])
}

/// Twice the signed area of a triangle: where its third vertex lies of its first
/// edge. Positive for the front.
pub open spec fn turn(x: [i32; 3], y: [i32; 3]) -> int {
    side(x, y, 0, 1, x[2] as int, y[2] as int)
}

/// The triangle with its last two vertices exchanged.
pub open spec fn reversed(v: [i32; 3]) -> [i32; 3] {
    [v[0], v[2], v[1]]
}

/// Some vertex lies before the end of pixel `p`, and some behind its start.
pub open spec fn touches(v: [i32; 3], p: int) -> bool {
    &&& v[0] < (p + 1) * 256 || v[1] < (p + 1) * 256 || v[2] < (p + 1) * 256
    &&& v[0] > p * 256 || v[1] > p * 256 || v[2] > p * 256
}

/// Culling goes by the winding and by nothing else: without it every triangle that has
/// an area and reaches the rect is drawn, culling the front draws exactly those with
/// the back to the viewer, and culling the back exactly those with the front.
pub proof fn law_culling_goes_by_the_winding(
    x: [i32; 3],
    y: [i32; 3],
    rect: (u32, u32, u32, u32),
    render: (u32, u32),
)
    ensures
        ({
            let drawn = job::job_rect(x, y, CULL_NONE, rect, render);
            &&& turn(x, y) == 0 ==> drawn is None
            &&& job::job_rect(x, y, CULL_FRONT, rect, render) == if turn(x, y) < 0 {
                drawn
            } else {
                None
            }
            &&& job::job_rect(x, y, CULL_BACK, rect, render) == if turn(x, y) > 0 {
                drawn
            } else {
                None
            }
        }),
{
}

/// Of a triangle and its reverse exactly one is drawn under either cull mode, and the
/// two modes never draw the same winding.
pub proof fn law_each_cull_mode_draws_one_winding(
    x: [i32; 3],
    y: [i32; 3],
    rect: (u32, u32, u32, u32),
    render: (u32, u32),
)
    requires
        job::job_rect(x, y, CULL_NONE, rect, render) is Some,
    ensures
        ({
            let (rx, ry) = (reversed(x), reversed(y));
            let front = job::job_rect(x, y, CULL_BACK, rect, render) is Some;
            let back = job::job_rect(x, y, CULL_FRONT, rect, render) is Some;
            &&& front != back
            &&& job::job_rect(rx, ry, CULL_BACK, rect, render) is Some == back
            &&& job::job_rect(rx, ry, CULL_FRONT, rect, render) is Some == front
            &&& job::job_rect(rx, ry, CULL_NONE, rect, render) == job::job_rect(
                x,
                y,
                CULL_NONE,
                rect,
                render,
            )
        }),
{
    fixed::law_winding_flips_the_area(x, y);
    assert(fixed::min3(reversed(x)) == fixed::min3(x));
    assert(fixed::max3(reversed(x)) == fixed::max3(x));
    assert(fixed::min3(reversed(y)) == fixed::min3(y));
    assert(fixed::max3(reversed(y)) == fixed::max3(y));
}

/// A job visits the pixels of its rect that the box round its triangle touches, all of
/// them and no others.
pub proof fn law_a_job_visits_the_pixels_under_its_box(
    x: [i32; 3],
    y: [i32; 3],
    rect: (u32, u32, u32, u32),
    render: (u32, u32),
    px: u32,
    py: u32,
)
    requires
        turn(x, y) != 0,
        render.0 <= i32::MAX,
        render.1 <= i32::MAX,
    ensures
        (job::job_rect(x, y, CULL_NONE, rect, render) matches Some((x0, y0, x1, y1)) && x0 <= px
            < x1 && y0 <= py < y1) <==> {
            &&& rect.0 <= px < rect.2
            &&& rect.1 <= py < rect.3
            &&& px < render.0
            &&& py < render.1
            &&& touches(x, px as int)
            &&& touches(y, py as int)
        },
{
    lemma_span(x, px as int);
    lemma_span(y, py as int);
}

/// A pixel lies in the span of whole pixels exactly when the coordinates touch it.
proof fn lemma_span(v: [i32; 3], p: int)
    ensures
        fixed::min3(v) / 256 <= p < (fixed::max3(v) + 255) / 256 <==> touches(v, p),
{
    let (lo, hi) = (fixed::min3(v), fixed::max3(v));
    assert(lo / 256 <= p <==> lo < (p + 1) * 256);
    assert(p < (hi + 255) / 256 <==> hi > p * 256);
}

/// A triangle with a vertex outside the clip volume is clipped before anything is said
/// of it. Any other is degenerate when it has no area, and culled when it has none or
/// faces the way its draw leaves out; and only what is not culled has bounds.
pub proof fn law_a_triangle_is_classified_by_its_winding(
    v: [ScreenVertex; 3],
    cull: u32,
    render: (u32, u32),
)
    ensures
        ({
            let area = turn([v[0].x, v[1].x, v[2].x], [v[0].y, v[1].y, v[2].y]);
            let outside = v[0].needs_clip || v[1].needs_clip || v[2].needs_clip;
            let info = bin::info_of(v, cull, render);
            &&& info.needs_clip == outside
            &&& info.degenerate == (!outside && area == 0)
            &&& info.culled == (!outside && (area == 0 || (cull == CULL_BACK && area < 0) || (cull
                == CULL_FRONT && area > 0)))
            &&& info.culled || outside ==> info.bounds is None
        }),
{
}

/// The edge from vertex `i` to vertex `j` is a left or a top edge of the triangle whose
/// third vertex is `k`: the triangle lies to the right of it, or straight below.
pub open spec fn is_left_or_top(x: [i32; 3], y: [i32; 3], i: int, j: int, k: int) -> bool {
    if y[i] != y[j] {
        (side(x, y, i, j, x[k] as int, y[k] as int) > 0) == (y[j] > y[i])
    } else {
        y[k] > y[i]
    }
}

/// The point lies on the inner side of an edge, or on the edge, where that is a left
/// or a top one. The inner side is the one the third vertex is on.
pub open spec fn is_within(
    x: [i32; 3],
    y: [i32; 3],
    i: int,
    j: int,
    k: int,
    px: int,
    py: int,
) -> bool {
    let here = side(x, y, i, j, px, py);
    let inner = side(x, y, i, j, x[k] as int, y[k] as int);
    ||| here > 0 && inner > 0
    ||| here < 0 && inner < 0
    ||| here == 0 && is_left_or_top(x, y, i, j, k)
}

/// A triangle covers a sample exactly when the sample is on the inner side of each of
/// its edges, an edge itself counting as inside where it is a left or a top edge:
/// whatever the winding.
pub proof fn law_a_triangle_covers_its_inside_and_its_top_left_edges(
    x: [i32; 3],
    y: [i32; 3],
    sx: int,
    sy: int,
)
    requires
        turn(x, y) != 0,
    ensures
        determinism::covers_sample(x, y, sx, sy) <==> {
            &&& is_within(x, y, 0, 1, 2, sx, sy)
            &&& is_within(x, y, 1, 2, 0, sx, sy)
            &&& is_within(x, y, 2, 0, 1, sx, sy)
        },
{
    lemma_turns(x, y);
    lemma_within(x, y, 0, 1, 2, sx, sy);
    lemma_within(x, y, 1, 2, 0, sx, sy);
    lemma_within(x, y, 2, 0, 1, sx, sy);
}

/// Every vertex lies on the same side of the edge across from it.
proof fn lemma_turns(x: [i32; 3], y: [i32; 3])
    ensures
        side(x, y, 1, 2, x[0] as int, y[0] as int) == turn(x, y),
        side(x, y, 2, 0, x[1] as int, y[1] as int) == turn(x, y),
{
    let (x0, y0) = (x[0] as int, y[0] as int);
    let (x1, y1) = (x[1] as int, y[1] as int);
    let (x2, y2) = (x[2] as int, y[2] as int);
    assert((y2 - y1) * (x0 - x1) - (x2 - x1) * (y0 - y1) == (y1 - y0) * (x2 - x0) - (x1 - x0) * (y2
        - y0)) by (nonlinear_arith);
    assert((y0 - y2) * (x1 - x2) - (x0 - x2) * (y1 - y2) == (y1 - y0) * (x2 - x0) - (x1 - x0) * (y2
        - y0)) by (nonlinear_arith);
}

/// The edge test of either winding is that of the side.
proof fn lemma_within(x: [i32; 3], y: [i32; 3], i: int, j: int, k: int, sx: int, sy: int)
    requires
        0 <= i < 3,
        0 <= j < 3,
        0 <= k < 3,
        side(x, y, i, j, x[k] as int, y[k] as int) == turn(x, y),
        turn(x, y) != 0,
    ensures
        is_within(x, y, i, j, k, sx, sy) == if turn(x, y) > 0 {
            determinism::passes(
                x[i] as int,
                y[i] as int,
                x[j] as int,
                y[j] as int,
                sx,
                sy,
            )
        } else {
            determinism::passes(
                x[j] as int,
                y[j] as int,
                x[i] as int,
                y[i] as int,
                sx,
                sy,
            )
        },
{
    let (xi, yi) = (x[i] as int, y[i] as int);
    let (xj, yj) = (x[j] as int, y[j] as int);
    let (xk, yk) = (x[k] as int, y[k] as int);
    assert((yi - yj) * (sx - xj) - (xi - xj) * (sy - yj) == -((yj - yi) * (sx - xi) - (xj - xi) * (
    sy - yi))) by (nonlinear_arith);
    if yi == yj {
        let d = xj - xi;
        assert((yj - yi) * (xk - xi) - d * (yk - yi) == -(d * (yk - yi))) by (nonlinear_arith)
            requires
                yj - yi == 0;
        let (t, h) = (turn(x, y), yk - yi);
        assert((t > 0 ==> ((h > 0) == (d < 0))) && (t < 0 ==> ((h > 0) == (d > 0))))
            by (nonlinear_arith)
            requires
                t == -(d * h),
                t != 0;
    }
}

/// The centre of the pixel is inside the triangle, by the top-left rule.
pub open spec fn holds_centre(x: [i32; 3], y: [i32; 3], px: int, py: int) -> bool {
    let (cx, cy) = (256 * px + 128, 256 * py + 128);
    &&& is_within(x, y, 0, 1, 2, cx, cy)
    &&& is_within(x, y, 1, 2, 0, cx, cy)
    &&& is_within(x, y, 2, 0, 1, cx, cy)
}

/// The pixels a job lists are those of its rect, within what is rendered, whose centre
/// the triangle holds: none is missing, none is another.
pub proof fn law_a_job_lists_the_pixels_whose_centres_it_holds(
    work: job::TriJob,
    x: [i32; 3],
    y: [i32; 3],
    cull: u32,
    rect: (u32, u32, u32, u32),
    render: (u32, u32),
    px: u32,
    py: u32,
)
    requires
        work.wf(),
        Some(work.rect) == job::job_rect(x, y, cull, rect, render),
        work.flip == (fixed::signed_area2(x, y) < 0),
        work.setup.x@ == job::wound(x, work.flip)@,
        work.setup.y@ == job::wound(y, work.flip)@,
        render.0 <= i32::MAX,
        render.1 <= i32::MAX,
    ensures
        work.covered().contains((px, py)) <==> {
            &&& rect.0 <= px < rect.2
            &&& rect.1 <= py < rect.3
            &&& px < render.0
            &&& py < render.1
            &&& holds_centre(x, y, px as int, py as int)
        },
{
    law_a_triangle_covers_its_inside_and_its_top_left_edges(
        x,
        y,
        256 * px + 128,
        256 * py + 128,
    );
    if rect.0 <= px < rect.2 && rect.1 <= py < rect.3 && px < render.0 && py < render.1 {
        determinism::law_a_job_lists_what_its_triangle_covers(
            work,
            x,
            y,
            cull,
            rect,
            render,
            px,
            py,
        );
    } else if work.covered().contains((px, py)) {
        let pixels = job::pixels_of(work.rect);
        let keep = |p: (u32, u32)| work.covers_pixel(p.0 as int, p.1 as int);
        let j = choose|j: int| 0 <= j < work.covered().len() && work.covered()[j] == (px, py);
        let i = crate::seqs::lemma_filter_member(pixels, keep, j);
        let w = work.rect.2 - work.rect.0;
        let h = work.rect.3 - work.rect.1;
        assert(0 <= i % w < w && 0 <= i / w < h) by (nonlinear_arith)
            requires
                0 <= i < w * h,
                w > 0,
                h > 0;
        assert(pixels[i] == ((work.rect.0 + i % w) as u32, (work.rect.1 + i / w) as u32));
    }
}

/// Nothing that shows is left out: a triangle without a job in a rect is culled, or
/// holds the centre of no pixel there.
pub proof fn law_a_triangle_without_a_job_shows_nowhere(
    x: [i32; 3],
    y: [i32; 3],
    cull: u32,
    rect: (u32, u32, u32, u32),
    render: (u32, u32),
    px: u32,
    py: u32,
)
    requires
        turn(x, y) != 0,
        job::job_rect(x, y, cull, rect, render) is None,
        rect.0 <= px < rect.2,
        rect.1 <= py < rect.3,
        px < render.0 <= i32::MAX,
        py < render.1 <= i32::MAX,
        holds_centre(x, y, px as int, py as int),
    ensures
        (cull == CULL_BACK && turn(x, y) < 0) || (cull == CULL_FRONT && turn(x, y) > 0),
{
    law_a_triangle_covers_its_inside_and_its_top_left_edges(
        x,
        y,
        256 * px + 128,
        256 * py + 128,
    );
    determinism::lemma_covered_in_bounds(x, y, px, py, render);
}

/// The edge values of a fragment over twice the area are the weights of the third,
/// first and second vertex: they add up to the area, and the vertices weighted by them
/// give the centre of the pixel.
pub proof fn law_a_fragment_is_the_weighted_mean_of_its_vertices(
    work: job::TriJob,
    f: job::Fragment,
    p: (u32, u32),
)
    requires
        work.wf(),
        work.describes(f, p),
    ensures
        ({
            let (x, y, s) = (work.setup.x, work.setup.y, work.setup.area2 as int);
            let (w2, w0, w1) = (f.edges[0] as int, f.edges[1] as int, f.edges[2] as int);
            &&& w0 + w1 + w2 == s
            &&& w0 * x[0] + w1 * x[1] + w2 * x[2] == s * (256 * p.0 + 128)
            &&& w0 * y[0] + w1 * y[1] + w2 * y[2] == s * (256 * p.1 + 128)
            &&& s == turn(x, y)
        }),
{
    let (x, y) = (work.setup.x, work.setup.y);
    let (x0, y0) = (x[0] as int, y[0] as int);
    let (x1, y1) = (x[1] as int, y[1] as int);
    let (x2, y2) = (x[2] as int, y[2] as int);
    let (sx, sy) = (256 * p.0 + 128, 256 * p.1 + 128);
    let e = work.setup.edges;
    fixed::law_edges_sum_to_the_area(work.setup, sx, sy);
    fixed::lemma_joins_at(e[0], x0, y0, x1, y1, sx, sy);
    fixed::lemma_joins_at(e[1], x1, y1, x2, y2, sx, sy);
    fixed::lemma_joins_at(e[2], x2, y2, x0, y0, sx, sy);
    let (e0, e1, e2) = (e[0].at(sx, sy), e[1].at(sx, sy), e[2].at(sx, sy));
    let area = work.setup.area2 as int;
    fixed::lemma_edge_value_about(x0, y0, x1, y1, sx, sy);
    fixed::lemma_edge_value_about(x1, y1, x2, y2, sx, sy);
    fixed::lemma_edge_value_about(x2, y2, x0, y0, sx, sy);
    fixed::lemma_weights_balance(x0 - sx, x1 - sx, x2 - sx, y0 - sy, y1 - sy, y2 - sy);
    fixed::lemma_shifted_mean(e1, e2, e0, x0, x1, x2, area, sx);
    fixed::lemma_shifted_mean(e1, e2, e0, y0, y1, y2, area, sy);
}

/// A triangle is in the bin of a tile exactly when it is drawn and its bounds share a
/// pixel with the tile, or when it has yet to be clipped: then it is in every bin.
pub proof fn law_a_bin_holds_what_may_show_in_its_tile(
    info: bin::TriInfo,
    column: u32,
    row: u32,
    tiles_x: u32,
    tile_size: u32,
)
    requires
        tile_size > 0,
        column < tiles_x,
        info.bounds matches Some(r) ==> r.0 < r.2 && r.1 < r.3,
    ensures
        bin::belongs(info, row * tiles_x + column, tiles_x, tile_size) <==> !info.culled
            && !info.degenerate && (info.needs_clip || (info.bounds matches Some(r) && exists|
            px: int,
            py: int,
        |
            #![trigger shares(px, r.0, r.2, column, tile_size), shares(
                py,
                r.1,
                r.3,
                row,
                tile_size,
            )]
            shares(px, r.0, r.2, column, tile_size) && shares(py, r.1, r.3, row, tile_size))),
{
    bin::lemma_tile_number(column as int, row as int, tiles_x);
    if let Some(r) = info.bounds {
        lemma_span_shares(r.0, r.2, column, tile_size);
        lemma_span_shares(r.1, r.3, row, tile_size);
        if bin::rect_reaches(r, row * tiles_x + column, tiles_x, tile_size) {
            let px = choose|p: int| shares(p, r.0, r.2, column, tile_size);
            let py = choose|p: int| shares(p, r.1, r.3, row, tile_size);
            assert(shares(px, r.0, r.2, column, tile_size) && shares(py, r.1, r.3, row, tile_size));
        }
    }
}

/// The pixel is one of `[from, to)` and one of the tile's.
pub open spec fn shares(p: int, from: u32, to: u32, tile: u32, tile_size: u32) -> bool {
    from <= p < to && tile * tile_size <= p < tile * tile_size + tile_size
}

proof fn lemma_span_shares(from: u32, to: u32, tile: u32, tile_size: u32)
    requires
        tile_size > 0,
        from < to,
    ensures
        bin::span_reaches(from, to, tile_size, tile as int) <==> exists|p: int|
            shares(p, from, to, tile, tile_size),
{
    let (a, b, t, n) = (from as int, to as int, tile as int, tile_size as int);
    let start = t * n;
    assert((a / n <= t) == (a < start + n)) by (nonlinear_arith)
        requires
            start == t * n,
            n > 0;
    assert((t < (b + n - 1) / n) == (start < b)) by (nonlinear_arith)
        requires
            start == t * n,
            n > 0;
    if a < start + n && start < b {
        let p = if a > start { a } else { start };
        assert(shares(p, from, to, tile, tile_size));
    }
}

/// Every triangle is counted once: it is degenerate, or else culled, or else clipped,
/// or else drawn as it is.
pub proof fn law_every_triangle_is_counted_once(tris: Seq<Tri>)
    requires
        forall|i: int|
            0 <= i < tris.len() && (#[trigger] tris[i]).info.degenerate ==> tris[i].info.culled,
    ensures
        bin::degenerate_of(tris) + bin::culled_of(tris) + bin::clipped_of(tris) + tris.filter(
            |tri: Tri| !tri.info.degenerate && !tri.info.culled && !tri.info.needs_clip,
        ).len() == tris.len(),
    decreases tris.len(),
{
    reveal(Seq::filter);
    if tris.len() > 0 {
        let rest = tris.drop_last();
        assert forall|i: int|
            0 <= i < rest.len() && (#[trigger] rest[i]).info.degenerate implies rest[i].info.culled by {
            assert(rest[i] == tris[i]);
        }
        law_every_triangle_is_counted_once(rest);
    }
}

/// A number less than another, of bit patterns: as the numbers they stand for are
/// ordered, whatever their signs, with both zeros alike and nothing beside what is not
/// a number.
pub proof fn law_patterns_are_ordered_as_their_numbers(a: u32, b: u32)
    ensures
        a <= 0x7f80_0000 && b <= 0x7f80_0000 ==> single::is_less(a, b) == (a < b),
        0x8000_0000 <= a <= 0xff80_0000 && 0x8000_0000 <= b <= 0xff80_0000 ==> single::is_less(a, b)
            == (a > b),
        0x8000_0000 < a <= 0xff80_0000 && b <= 0x7f80_0000 ==> single::is_less(a, b)
            && !single::is_less(b, a),
        !single::is_less(0, 0x8000_0000) && !single::is_less(0x8000_0000, 0),
        0x7f80_0000 < a < 0x8000_0000 || a > 0xff80_0000 ==> !single::is_less(a, b)
            && !single::is_less(b, a),
        single::is_less(a, b) ==> !single::is_less(b, a),
{
}

/// The depth test of depths that are no less than zero: where it is made, the larger
/// depth passes or the smaller, as the draw asks, and an equal one never; where it is
/// not made, or there is nothing to test against, everything passes.
pub proof fn law_the_depth_test_keeps_the_nearer(p: PipelineState, depth: u32, stored: u32)
    requires
        depth <= 0x7f80_0000,
        stored <= 0x7f80_0000,
    ensures
        p.depth_test && p.depth_compare == COMPARE_GREATER ==> shade::passes_depth(
            p,
            depth,
            Some(stored),
        ) == (depth > stored),
        p.depth_test && p.depth_compare == COMPARE_LESS ==> shade::passes_depth(
            p,
            depth,
            Some(stored),
        ) == (depth < stored),
        !p.depth_test ==> shade::passes_depth(p, depth, Some(stored)),
        shade::passes_depth(p, depth, None),
{
}

/// A tile is a power of two, from eight pixels to 1024, and the smallest of those that
/// is no less than was asked for.
pub proof fn law_a_tile_is_the_next_power_of_two(wanted: u32)
    ensures
        ({
            let size = tile::tile_size_for(wanted);
            &&& 8 <= size <= 1024
            &&& exists|k: nat| size == #[trigger] vstd::arithmetic::power2::pow2(k)
            &&& wanted <= 1024 ==> wanted <= size
            &&& size > 8 ==> size < 2 * wanted
        }),
{
    vstd::arithmetic::power2::lemma2_to64();
    let size = tile::tile_size_for(wanted);
    let k: nat = if size == 8 {
        3
    } else if size == 16 {
        4
    } else if size == 32 {
        5
    } else if size == 64 {
        6
    } else if size == 128 {
        7
    } else if size == 256 {
        8
    } else if size == 512 {
        9
    } else {
        10
    };
    assert(size == vstd::arithmetic::power2::pow2(k));
}

/// A grid has just as many tiles along a side as it takes to hold the side's pixels.
pub proof fn law_a_grid_holds_its_side(pixels: u32, tile_size: u32)
    requires
        tile_size >= 8,
    ensures
        ({
            let n = tile::tiles_along(pixels, tile_size);
            (n - 1) * tile_size < pixels <= n * tile_size || (pixels == 0 && n == 0)
        }),
{
    let (p, t) = (pixels as int, tile_size as int);
    let n = (p + t - 1) / t;
    vstd::arithmetic::div_mod::lemma_fundamental_div_mod(p + t - 1, t);
    vstd::arithmetic::div_mod::lemma_mod_bound(p + t - 1, t);
    assert(t * n == n * t && (n - 1) * t == n * t - t) by (nonlinear_arith);
}

/// A bin follows the bin of the tile before it, without a gap.
pub proof fn law_bins_follow_each_other(counts: Seq<u32>, t: int)
    requires
        0 <= t < counts.len(),
        bin::total_of(counts.take(t + 1)) <= u32::MAX,
    ensures
        bin::start_of(counts, 0) == 0,
        bin::start_of(counts, t) + counts[t] == bin::total_of(counts.take(t + 1)),
        t + 1 < counts.len() ==> bin::start_of(counts, t + 1) == bin::start_of(counts, t)
            + counts[t],
{
    assert(counts.take(t + 1).drop_last() =~= counts.take(t));
    assert(counts.take(0) =~= Seq::empty());
}

/// A triangle has the corners its own draw names: vertex `k` of triangle `t` is the
/// vertex of the draw at the draw's index `3 * t + k`, or at that place itself where
/// the draw has no indices. Other draws of the frame have no part in it.
pub proof fn law_a_triangle_has_its_own_draws_corners(
    draws: Seq<DrawItem<'_>>,
    render: (u32, u32),
    d: int,
    t: int,
)
    requires
        0 <= d < draws.len(),
        0 <= t,
        ({
            let n = match draws[d].indices {
                Some(i) => i@.len(),
                None => draws[d].vertices@.len(),
            };
            3 * t + 2 < n
        }),
        forall|k: int|
            0 <= k < 3 ==> #[trigger] corner(draws[d], 3 * t + k) < draws[d].vertices@.len(),
    ensures
        ({
            let v = draws[d].vertices@;
            bin::triangle_of(draws, render, d, t) matches Some(tri) && tri.vertices@ == seq![
                v[corner(draws[d], 3 * t)],
                v[corner(draws[d], 3 * t + 1)],
                v[corner(draws[d], 3 * t + 2)],
            ] && tri.entry.draw == d as u32 && tri.info == bin::info_of(
                tri.vertices,
                draws[d].pipeline.cull,
                render,
            )
        }),
{
    let base = bin::first_index(draws, d) + 3 * t;
    assert(corner(draws[d], 3 * t + 0) < draws[d].vertices@.len());
    assert(corner(draws[d], 3 * t + 1) < draws[d].vertices@.len());
    assert(corner(draws[d], 3 * t + 2) < draws[d].vertices@.len());
    lemma_flat(draws, d, 3 * t);
    lemma_flat(draws, d, 3 * t + 1);
    lemma_flat(draws, d, 3 * t + 2);
    let tri = bin::triangle_of(draws, render, d, t)->0;
    let v = draws[d].vertices@;
    assert(tri.vertices@ =~= seq![
        v[corner(draws[d], 3 * t)],
        v[corner(draws[d], 3 * t + 1)],
        v[corner(draws[d], 3 * t + 2)],
    ]);
}

/// The vertex a draw names at a place of its list.
pub open spec fn corner(draw: DrawItem<'_>, k: int) -> int {
    match draw.indices {
        Some(i) => i@[k] as int,
        None => k,
    }
}

/// Where the vertices and indices of a draw stand among those of all draws.
proof fn lemma_flat(draws: Seq<DrawItem<'_>>, d: int, k: int)
    requires
        0 <= d < draws.len(),
        0 <= k < draws[d].index_count(),
        0 <= corner(draws[d], k) < draws[d].vertices@.len(),
    ensures
        ({
            let at = bin::first_index(draws, d) + k;
            let i = bin::flat_indices(draws)[at];
            &&& 0 <= at < bin::flat_indices(draws).len()
            &&& 0 <= i < bin::flat_vertices(draws).len()
            &&& bin::flat_vertices(draws)[i] == draws[d].vertices@[corner(draws[d], k)]
        }),
    decreases draws.len(),
{
    let rest = draws.drop_last();
    if d < rest.len() {
        assert(rest[d] == draws[d]);
        lemma_flat(rest, d, k);
        assert(rest.take(d) =~= draws.take(d));
    } else {
        assert(draws.take(d) =~= rest);
        assert(draws.last() == draws[d]);
    }
}

/// A triangle comes before another in draw order.
pub open spec fn comes_before(a: Tri, b: Tri) -> bool {
    a.entry.draw < b.entry.draw || (a.entry.draw == b.entry.draw && a.entry.first_index
        < b.entry.first_index)
}

/// A frame has every triangle of every draw, draw after draw and in the order of each
/// draw's indices, and none twice.
pub proof fn law_a_frame_lists_its_triangles_in_draw_order(
    draws: Seq<DrawItem<'_>>,
    render: (u32, u32),
)
    requires
        bin::frame_fits(draws),
    ensures
        ({
            let tris = bin::frame_triangles(draws, render);
            &&& forall|d: int, t: int|
                0 <= d < draws.len() && 0 <= t < draws[d].index_count() / 3 && (
                #[trigger] bin::triangle_of(draws, render, d, t)) is Some ==> tris.contains(
                    bin::triangle_of(draws, render, d, t)->0,
                )
            &&& forall|i: int, j: int|
                0 <= i < j < tris.len() ==> comes_before(#[trigger] tris[i], #[trigger] tris[j])
        }),
{
    lemma_frame_order(draws, render, draws.len());
}

proof fn lemma_frame_order(draws: Seq<DrawItem<'_>>, render: (u32, u32), n: nat)
    requires
        bin::frame_fits(draws),
        n <= draws.len(),
    ensures
        ({
            let tris = bin::triangles_before(draws, render, n);
            &&& forall|d: int, t: int|
                0 <= d < n && 0 <= t < draws[d].index_count() / 3 && (#[trigger] bin::triangle_of(
                    draws,
                    render,
                    d,
                    t,
                )) is Some ==> tris.contains(bin::triangle_of(draws, render, d, t)->0)
            &&& forall|i: int, j: int|
                0 <= i < j < tris.len() ==> comes_before(#[trigger] tris[i], #[trigger] tris[j])
            &&& forall|i: int| 0 <= i < tris.len() ==> (#[trigger] tris[i]).entry.draw < n
        }),
    decreases n,
{
    if n > 0 {
        let d = n - 1;
        let count = draws[d].index_count() / 3;
        lemma_frame_order(draws, render, d as nat);
        lemma_draw_order(draws, render, d, count);
        let before = bin::triangles_before(draws, render, d as nat);
        let own = bin::draw_triangles(draws, render, d, count);
        let tris = bin::triangles_before(draws, render, n);
        assert(tris == before + own);
        assert forall|e: int, t: int|
            0 <= e < n && 0 <= t < draws[e].index_count() / 3 && (#[trigger] bin::triangle_of(
                draws,
                render,
                e,
                t,
            )) is Some implies tris.contains(bin::triangle_of(draws, render, e, t)->0) by {
            let tri = bin::triangle_of(draws, render, e, t)->0;
            if e < d {
                assert(before.contains(tri));
                let k = choose|k: int| 0 <= k < before.len() && before[k] == tri;
                assert(tris[k] == tri);
            } else {
                assert(own.contains(tri));
                let k = choose|k: int| 0 <= k < own.len() && own[k] == tri;
                assert(tris[before.len() + k] == tri);
            }
        }
        assert forall|i: int, j: int| 0 <= i < j < tris.len() implies comes_before(
            #[trigger] tris[i],
            #[trigger] tris[j],
        ) by {
            let b = before.len() as int;
            if j < b {
                assert(tris[i] == before[i] && tris[j] == before[j]);
            } else if i < b {
                assert(tris[i] == before[i] && tris[j] == own[j - b]);
            } else {
                assert(tris[i] == own[i - b] && tris[j] == own[j - b]);
            }
        }
        assert forall|i: int| 0 <= i < tris.len() implies (#[trigger] tris[i]).entry.draw < n by {
            let b = before.len() as int;
            if i < b {
                assert(tris[i] == before[i]);
            } else {
                assert(tris[i] == own[i - b]);
            }
        }
    }
}

proof fn lemma_draw_order(draws: Seq<DrawItem<'_>>, render: (u32, u32), d: int, n: nat)
    requires
        bin::frame_fits(draws),
        0 <= d < draws.len(),
        n <= draws[d].index_count() / 3,
    ensures
        ({
            let tris = bin::draw_triangles(draws, render, d, n);
            &&& forall|t: int|
                0 <= t < n && (#[trigger] bin::triangle_of(draws, render, d, t)) is Some
                    ==> tris.contains(bin::triangle_of(draws, render, d, t)->0)
            &&& forall|i: int, j: int|
                0 <= i < j < tris.len() ==> comes_before(#[trigger] tris[i], #[trigger] tris[j])
            &&& forall|i: int|
                0 <= i < tris.len() ==> (#[trigger] tris[i]).entry.draw == d
                    && tris[i].entry.first_index < bin::first_index(draws, d) + 3 * n
        }),
    decreases n,
{
    if n > 0 {
        lemma_draw_order(draws, render, d, (n - 1) as nat);
        let before = bin::draw_triangles(draws, render, d, (n - 1) as nat);
        let tris = bin::draw_triangles(draws, render, d, n);
        lemma_first_index(draws, d);
        assert forall|t: int|
            0 <= t < n && (#[trigger] bin::triangle_of(draws, render, d, t)) is Some implies tris.contains(
        bin::triangle_of(draws, render, d, t)->0) by {
            let tri = bin::triangle_of(draws, render, d, t)->0;
            if t < n - 1 {
                assert(before.contains(tri));
                let k = choose|k: int| 0 <= k < before.len() && before[k] == tri;
                assert(tris[k] == tri);
            } else {
                assert(tris[before.len() as int] == tri);
            }
        }
    }
}

/// A draw's indices end within the frame's.
proof fn lemma_first_index(draws: Seq<DrawItem<'_>>, d: int)
    requires
        0 <= d < draws.len(),
    ensures
        bin::first_index(draws, d) + draws[d].index_count() <= bin::flat_indices(draws).len(),
    decreases draws.len(),
{
    let rest = draws.drop_last();
    if d < rest.len() {
        assert(rest[d] == draws[d]);
        lemma_first_index(rest, d);
        assert(rest.take(d) =~= draws.take(d));
    } else {
        assert(draws.take(d) =~= rest);
        assert(draws.last() == draws[d]);
    }
}

/// A step of a tile draws the pixel: it is still to be clipped, or its job lists it.
pub open spec fn draws_pixel(step: TileStep, px: u32, py: u32) -> bool {
    match step {
        TileStep::Clip(_) => true,
        TileStep::Raster(_, work) => work.covered().contains((px, py)),
    }
}

/// The triangle a step draws.
pub open spec fn entry_of(step: TileStep) -> Entry {
    match step {
        TileStep::Clip(entry) => entry,
        TileStep::Raster(entry, _) => entry,
    }
}

/// The triangle may show at the pixel: it faces the way its draw wants and holds the
/// pixel's centre, or has yet to be clipped.
pub open spec fn shows_at(tri: Tri, cull: u32, px: int, py: int) -> bool {
    let v = tri.vertices;
    let (x, y) = ([v[0].x, v[1].x, v[2].x], [v[0].y, v[1].y, v[2].y]);
    ||| v[0].needs_clip || v[1].needs_clip || v[2].needs_clip
    ||| {
        &&& turn(x, y) != 0
        &&& !(cull == CULL_BACK && turn(x, y) < 0)
        &&& !(cull == CULL_FRONT && turn(x, y) > 0)
        &&& holds_centre(x, y, px, py)
    }
}

/// The steps of a tile draw each of its pixels with the triangles that may show there,
/// all of them, no others, and in their order.
pub proof fn law_the_steps_of_a_tile_draw_what_its_pixels_see(
    steps: Seq<TileStep>,
    draws: Seq<DrawItem<'_>>,
    tris: Seq<Tri>,
    rect: (u32, u32, u32, u32),
    render: (u32, u32),
    px: u32,
    py: u32,
)
    requires
        tile::are_steps(steps, draws, tris, rect, render),
        rect.0 <= px < rect.2,
        rect.1 <= py < rect.3,
        px < render.0 <= i32::MAX,
        py < render.1 <= i32::MAX,
    ensures
        steps.filter(|s: TileStep| draws_pixel(s, px, py)).map_values(|s: TileStep| entry_of(s))
            == tris.filter(
            |tri: Tri|
                shows_at(tri, draws[tri.entry.draw as int].pipeline.cull, px as int, py as int),
        ).map_values(|tri: Tri| tri.entry),
{
    let has = |tri: Tri| tile::has_step(draws, tri, rect, render);
    let shows = |tri: Tri|
        shows_at(tri, draws[tri.entry.draw as int].pipeline.cull, px as int, py as int);
    let kept = tris.filter(has);
    assert forall|tri: Tri| #[trigger] shows(tri) implies has(tri) by {
        let (x, y) = (bin::xs(tri.vertices), bin::ys(tri.vertices));
        let cull = draws[tri.entry.draw as int].pipeline.cull;
        if !bin::any_needs_clip(tri.vertices) && job::job_rect(x, y, cull, rect, render) is None {
            law_a_triangle_without_a_job_shows_nowhere(x, y, cull, rect, render, px, py);
        }
    }
    assert forall|i: int| 0 <= i < tris.len() && shows(tris[i]) implies has(#[trigger] tris[i]) by {
        assert(shows(tris[i]));
    }
    crate::seqs::lemma_filter_narrows(tris, has, shows);
    assert forall|k: int| 0 <= k < steps.len() implies #[trigger] draws_pixel(steps[k], px, py)
        == shows(kept[k]) && entry_of(steps[k]) == kept[k].entry by {
        let tri = kept[k];
        let i = crate::seqs::lemma_filter_member(tris, has, k);
        assert(tile::is_step(steps[k], draws, tri, rect, render));
        let (x, y) = (bin::xs(tri.vertices), bin::ys(tri.vertices));
        let cull = draws[tri.entry.draw as int].pipeline.cull;
        match steps[k] {
            TileStep::Clip(_) => {},
            TileStep::Raster(_, work) => {
                law_a_job_lists_the_pixels_whose_centres_it_holds(
                    work,
                    x,
                    y,
                    cull,
                    rect,
                    render,
                    px,
                    py,
                );
            },
        }
    }
    lemma_filter_alongside(steps, kept, px, py, shows);
}

/// Two lists that agree place by place agree on what is kept of them.
proof fn lemma_filter_alongside(
    steps: Seq<TileStep>,
    kept: Seq<Tri>,
    px: u32,
    py: u32,
    shows: spec_fn(Tri) -> bool,
)
    requires
        steps.len() == kept.len(),
        forall|k: int|
            0 <= k < steps.len() ==> #[trigger] draws_pixel(steps[k], px, py) == shows(kept[k])
                && entry_of(steps[k]) == kept[k].entry,
    ensures
        steps.filter(|s: TileStep| draws_pixel(s, px, py)).map_values(|s: TileStep| entry_of(s))
            == kept.filter(shows).map_values(|tri: Tri| tri.entry),
    decreases steps.len(),
{
    reveal(Seq::filter);
    let keep = |s: TileStep| draws_pixel(s, px, py);
    let entry = |s: TileStep| entry_of(s);
    let own = |tri: Tri| tri.entry;
    if steps.len() > 0 {
        let (a, b) = (steps.drop_last(), kept.drop_last());
        let n = steps.len() - 1;
        assert forall|k: int| 0 <= k < a.len() implies #[trigger] draws_pixel(a[k], px, py)
            == shows(b[k]) && entry_of(a[k]) == b[k].entry by {
            assert(a[k] == steps[k] && b[k] == kept[k]);
            assert(draws_pixel(steps[k], px, py) == shows(kept[k]));
        }
        lemma_filter_alongside(a, b, px, py, shows);
        assert(draws_pixel(steps[n], px, py) == shows(kept[n]));
        if keep(steps.last()) {
            assert(steps.filter(keep) =~= a.filter(keep).push(steps.last()));
            assert(kept.filter(shows) =~= b.filter(shows).push(kept.last()));
            assert(steps.filter(keep).map_values(entry) =~= a.filter(keep).map_values(entry).push(
                entry_of(steps.last()),
            ));
            assert(kept.filter(shows).map_values(own) =~= b.filter(shows).map_values(own).push(
                kept.last().entry,
            ));
        }
    } else {
        assert(steps.filter(keep).map_values(entry) =~= Seq::empty());
        assert(kept.filter(shows).map_values(own) =~= Seq::empty());
    }
}

/// The tiles that are counted as rendered are those with a pixel of what is rendered.
pub proof fn law_a_rendered_tile_has_a_pixel(
    tiles: nat,
    tiles_x: u32,
    tile_size: u32,
    render: (u32, u32),
)
    requires
        tiles_x > 0,
        tile_size > 0,
    ensures
        tile::tiles_with_pixels(tiles, tiles_x, tile_size, render) == vstd::set_lib::set_int_range(
            0,
            tiles as int,
        ).filter(
            |t: int|
                (t % tiles_x as int) * tile_size < render.0 && (t / tiles_x as int) * tile_size
                    < render.1,
        ).len(),
    decreases tiles,
{
    let shown = |t: int|
        (t % tiles_x as int) * tile_size < render.0 && (t / tiles_x as int) * tile_size < render.1;
    let now = vstd::set_lib::set_int_range(0, tiles as int).filter(shown);
    vstd::set_lib::lemma_int_range(0, tiles as int);
    if tiles == 0 {
        assert(now =~= Set::empty());
    } else {
        let t = tiles - 1;
        law_a_rendered_tile_has_a_pixel(t as nat, tiles_x, tile_size, render);
        vstd::set_lib::lemma_int_range(0, t);
        let before = vstd::set_lib::set_int_range(0, t).filter(shown);
        if shown(t) {
            assert(now =~= before.insert(t));
        } else {
            assert(now =~= before);
        }
    }
}

/// A frame without a viewport of its own renders all of its target, and one with a
/// viewport just that much, as far as the target goes.
pub proof fn law_a_frame_renders_its_viewport(width: u32, height: u32, viewport: (u32, u32))
    requires
        width > 0,
        height > 0,
    ensures
        ({
            let area = tile::frame_area(width, height, viewport);
            &&& area.0 == if viewport.0 == 0 || viewport.0 > width {
                width
            } else {
                viewport.0
            }
            &&& area.1 == if viewport.1 == 0 || viewport.1 > height {
                height
            } else {
                viewport.1
            }
        }),
{
    lemma_axis(viewport.0, width);
    lemma_axis(viewport.1, height);
}

proof fn lemma_axis(vp: u32, side: u32)
    requires
        side > 0,
    ensures
        crate::raster::rendered_axis(vp, side, side) == if vp == 0 || vp > side {
            side
        } else {
            vp
        },
{
    let (v, s) = (vp as int, side as int);
    let half = s / 2;
    assert(v * s + half == v * s + half);
    vstd::arithmetic::div_mod::lemma_fundamental_div_mod_converse(v * s + half, s, v, half);
}

/// The triangles of a frame are a third of the indices of each draw, rounded down.
pub proof fn law_every_three_indices_are_a_triangle(draws: Seq<DrawItem<'_>>, more: DrawItem<'_>)
    ensures
        bin::total_triangles(Seq::empty()) == 0,
        ({
            let n = bin::total_triangles(draws.push(more)) - bin::total_triangles(draws);
            let indices = match more.indices {
                Some(i) => i@.len() as int,
                None => more.vertices@.len() as int,
            };
            3 * n <= indices < 3 * n + 3
        }),
{
    assert(draws.push(more).drop_last() =~= draws);
}

/// A table grows for a draw exactly when the draw adds to it and what is in it by then
/// is more than it had room for; a frame whose draws all fit grows nothing.
pub proof fn law_a_table_grows_once_for_each_draw_that_exceeds_it(
    draws: Seq<DrawItem<'_>>,
    more: DrawItem<'_>,
    room: int,
)
    ensures
        ({
            let all = draws.push(more);
            let vertices = bin::vertex_growths(all, room) - bin::vertex_growths(draws, room);
            let indices = bin::index_growths(all, room) - bin::index_growths(draws, room);
            let count = match more.indices {
                Some(i) => i@.len() as int,
                None => more.vertices@.len() as int,
            };
            &&& vertices == if more.vertices@.len() > 0 && bin::flat_vertices(draws).len()
                + more.vertices@.len() > room {
                1int
            } else {
                0int
            }
            &&& indices == if count > 0 && bin::flat_indices(draws).len() + count > room {
                1int
            } else {
                0int
            }
            &&& bin::vertex_growths(Seq::empty(), room) == 0
            &&& bin::index_growths(Seq::empty(), room) == 0
        }),
{
    assert(draws.push(more).drop_last() =~= draws);
}

/// A frame's allocations are the growths of its three tables, and the entries have room
/// for one entry of every triangle and one more for every tile, but no less than for 64.
pub proof fn law_allocations_are_the_growths_of_the_tables(
    draws: Seq<DrawItem<'_>>,
    rooms: (int, int, int),
    entries: int,
    indices: int,
    tiles: int,
)
    ensures
        tile::frame_growths(draws, rooms, entries) - bin::vertex_growths(draws, rooms.0)
            - bin::index_growths(draws, rooms.1) == if entries > rooms.2 {
            1int
        } else {
            0int
        },
        tile::entry_room(indices, tiles) >= indices / 3 + tiles,
        tile::entry_room(indices, tiles) >= 64 + tiles,
        tile::entry_room(indices, tiles) == indices / 3 + tiles || tile::entry_room(indices, tiles)
            == 64 + tiles,
{
}

/// A job is wound so that its front is to the viewer, and remembers when that took a
/// turn; the normal is turned for the back of a surface that is lit on both sides, and for
/// nothing else.
pub proof fn law_only_a_two_sided_back_turns_its_normal(
    work: job::TriJob,
    entry: Entry,
    draws: Seq<DrawItem<'_>>,
    tri: Tri,
    rect: (u32, u32, u32, u32),
    render: (u32, u32),
)
    requires
        tile::is_step(TileStep::Raster(entry, work), draws, tri, rect, render),
    ensures
        ({
            let v = tri.vertices;
            let (x, y) = ([v[0].x, v[1].x, v[2].x], [v[0].y, v[1].y, v[2].y]);
            let back = turn(x, y) < 0;
            &&& turn(work.setup.x, work.setup.y) > 0
            &&& work.flip == back
            &&& work.flip_normal == (back && draws[tri.entry.draw as int].pipeline.two_sided)
            &&& work.setup.x[0] == x[0] && work.setup.y[0] == y[0]
            &&& back ==> work.setup.x[1] == x[2] && work.setup.x[2] == x[1] && work.setup.y[1]
                == y[2] && work.setup.y[2] == y[1]
            &&& !back ==> work.setup.x@ == x@ && work.setup.y@ == y@
        }),
{
    assert(work.setup.x@[0] == work.setup.x[0] && work.setup.x@[1] == work.setup.x[1]
        && work.setup.x@[2] == work.setup.x[2]);
    assert(work.setup.y@[0] == work.setup.y[0] && work.setup.y@[1] == work.setup.y[1]
        && work.setup.y@[2] == work.setup.y[2]);
}

/// A frame counts its triangles by where they lie: those without an area, those that face
/// the way their draw leaves out, and those that are still to be clipped; and every draw,
/// every three indices and every tile.
pub proof fn law_a_frame_counts_what_it_is_given(
    raster: tile::Rasterizer,
    stats: tile::RasterStats,
    draws: Seq<DrawItem<'_>>,
    grid: (u32, u32),
    render: (u32, u32),
)
    requires
        bin::frame_fits(draws),
        raster.counts_frame(stats, draws, grid, render),
    ensures
        ({
            let tris = bin::frame_triangles(draws, render);
            let outside = |tri: Tri|
                tri.vertices[0].needs_clip || tri.vertices[1].needs_clip
                    || tri.vertices[2].needs_clip;
            let area = |tri: Tri|
                turn(
                    [tri.vertices[0].x, tri.vertices[1].x, tri.vertices[2].x],
                    [tri.vertices[0].y, tri.vertices[1].y, tri.vertices[2].y],
                );
            let cull = |tri: Tri| draws[tri.entry.draw as int].pipeline.cull;
            &&& stats.draws == draws.len()
            &&& stats.tiles_total == grid.0 * grid.1
            &&& stats.triangles_in == bin::total_triangles(draws)
            &&& stats.triangles_degenerate == tris.filter(
                |tri: Tri| !outside(tri) && area(tri) == 0,
            ).len()
            &&& stats.triangles_culled == tris.filter(
                |tri: Tri|
                    !outside(tri) && ((cull(tri) == CULL_BACK && area(tri) < 0) || (cull(tri)
                        == CULL_FRONT && area(tri) > 0)),
            ).len()
            &&& stats.triangles_clipped == tris.filter(|tri: Tri| outside(tri)).len()
        }),
{
    let tris = bin::frame_triangles(draws, render);
    let outside = |tri: Tri|
        tri.vertices[0].needs_clip || tri.vertices[1].needs_clip || tri.vertices[2].needs_clip;
    let area = |tri: Tri|
        turn(
            [tri.vertices[0].x, tri.vertices[1].x, tri.vertices[2].x],
            [tri.vertices[0].y, tri.vertices[1].y, tri.vertices[2].y],
        );
    let cull = |tri: Tri| draws[tri.entry.draw as int].pipeline.cull;
    assert forall|i: int| 0 <= i < tris.len() implies (#[trigger] tris[i]).info == bin::info_of(
        tris[i].vertices,
        cull(tris[i]),
        render,
    ) by {
        let (d, t) = bin::lemma_frame_triangle(draws, render, i);
    }
    assert forall|i: int| 0 <= i < tris.len() implies {
        let tri = #[trigger] tris[i];
        &&& tri.info.degenerate == (!outside(tri) && area(tri) == 0)
        &&& (tri.info.culled && !tri.info.degenerate) == (!outside(tri) && ((cull(tri)
            == CULL_BACK && area(tri) < 0) || (cull(tri) == CULL_FRONT && area(tri) > 0)))
        &&& (tri.info.needs_clip && !tri.info.culled && !tri.info.degenerate) == outside(tri)
    } by {
        law_a_triangle_is_classified_by_its_winding(tris[i].vertices, cull(tris[i]), render);
    }
    lemma_filters_agree(
        tris,
        |tri: Tri| tri.info.degenerate,
        |tri: Tri| !outside(tri) && area(tri) == 0,
    );
    lemma_filters_agree(
        tris,
        |tri: Tri| tri.info.culled && !tri.info.degenerate,
        |tri: Tri|
            !outside(tri) && ((cull(tri) == CULL_BACK && area(tri) < 0) || (cull(tri) == CULL_FRONT
                && area(tri) > 0)),
    );
    lemma_filters_agree(
        tris,
        |tri: Tri| tri.info.needs_clip && !tri.info.culled && !tri.info.degenerate,
        |tri: Tri| outside(tri),
    );
}

/// Filters that agree on what is there keep the same.
proof fn lemma_filters_agree(tris: Seq<Tri>, p: spec_fn(Tri) -> bool, q: spec_fn(Tri) -> bool)
    requires
        forall|i: int| 0 <= i < tris.len() ==> p(#[trigger] tris[i]) == q(tris[i]),
    ensures
        tris.filter(p) == tris.filter(q),
    decreases tris.len(),
{
    reveal(Seq::filter);
    if tris.len() > 0 {
        let rest = tris.drop_last();
        assert forall|i: int| 0 <= i < rest.len() implies p(#[trigger] rest[i]) == q(rest[i]) by {
            assert(rest[i] == tris[i]);
        }
        lemma_filters_agree(rest, p, q);
        assert(p(tris[tris.len() - 1]) == q(tris[tris.len() - 1]));
    }
}

} // verus!
