//! Fixed-point screen-space setup and the fill rule.
//!
//! * **8-bit subpixel precision.** Positions are held in 1/256 of a pixel, so
//!   position noise below one subpixel produces the same coverage everywhere.
//! * **Top-left fill rule.** A pixel centre exactly on a shared edge belongs to
//!   exactly one of the two triangles that share it: never doubled, never
//!   dropped ([`law_shared_edge_is_covered_once`]).
use crate::num;
use vstd::prelude::*;

verus! {

/// Subpixel bits: 8, i.e. a fixed-point unit of 1/256 px.
pub const SUBPIXEL_BITS: u32 = 8;

pub const SUBPIXEL_UNITS: i32 = 256;

/// One edge of a triangle in the form `E(x, y) = a*x + b*y + c`.
///
/// For edge `v0 -> v1` with `dx = x1 - x0`, `dy = y1 - y0`:
/// `E(x,y) = dy*(x - x0) - dx*(y - y0)`, so `a = dy`, `b = -dx`,
/// `c = dx*y0 - dy*x0`. With y down and front faces wound so that
/// `v0 -> v1 -> v2` turns clockwise on screen the interior is `E > 0`.
#[derive(Clone, Copy, Debug)]
pub struct Edge {
    pub a: i64,
    pub b: i64,
    pub c: i64,
    /// 1 when the edge is a top or left edge, else 0. Added to `E` so that the
    /// inclusive test is a single `> 0` comparison.
    pub bias: i64,
}

/// `v` is representable as an `i64`.
pub open spec fn fits_i64(v: int) -> bool {
    i64::MIN <= v <= i64::MAX
}

/// The edge function of `(x0, y0) -> (x1, y1)` at `(x, y)`: twice the signed
/// area of the triangle the three points span.
pub open spec fn edge_value(x0: int, y0: int, x1: int, y1: int, x: int, y: int) -> int {
    (y1 - y0) * (x - x0) - (x1 - x0) * (y - y0)
}

/// A top or left edge, y down: a horizontal edge toward -x, or an edge toward +y.
pub open spec fn is_top_left(dx: int, dy: int) -> bool {
    (dy == 0 && dx < 0) || dy > 0
}

pub open spec fn bias_of(dx: int, dy: int) -> int {
    if is_top_left(dx, dy) {
        1
    } else {
        0
    }
}

impl Edge {
    /// The edge function without its bias.
    pub open spec fn at(self, x: int, y: int) -> int {
        self.a * x + self.b * y + self.c
    }

    /// Every intermediate sum of [`eval`] is representable.
    pub open spec fn eval_fits(self, x: int, y: int) -> bool {
        &&& fits_i64(self.a * x)
        &&& fits_i64(self.b * y)
        &&& fits_i64(self.a * x + self.b * y)
        &&& fits_i64(self.at(x, y))
        &&& fits_i64(self.at(x, y) + self.bias)
    }

    /// This is the edge `(x0, y0) -> (x1, y1)`.
    pub open spec fn joins(self, x0: int, y0: int, x1: int, y1: int) -> bool {
        &&& self.a == y1 - y0
        &&& self.b == x0 - x1
        &&& self.c == (x1 - x0) * y0 - (y1 - y0) * x0
        &&& self.bias == bias_of(x1 - x0, y1 - y0)
    }
}

pub fn edge_from_fixed(x0: i32, y0: i32, x1: i32, y1: i32) -> (edge: Edge)
    ensures
        edge.joins(x0 as int, y0 as int, x1 as int, y1 as int),
        forall|x: int, y: int| #[trigger]
            edge.at(x, y) == edge_value(x0 as int, y0 as int, x1 as int, y1 as int, x, y),
{
    let dx: i64 = (x1 as i64) - (x0 as i64);
    let dy: i64 = (y1 as i64) - (y0 as i64);
    proof {
        lemma_edge_constant_fits(x0, y0, x1, y1);
    }
    let edge = Edge {
        a: dy,
        b: -dx,
        c: dx * (y0 as i64) - dy * (x0 as i64),
        bias: top_left_bias(dx, dy),
    };
    assert forall|x: int, y: int| #[trigger] edge.at(x, y) == edge_value(
        x0 as int,
        y0 as int,
        x1 as int,
        y1 as int,
        x,
        y,
    ) by {
        lemma_joins_at(edge, x0 as int, y0 as int, x1 as int, y1 as int, x, y);
    }
    edge
}

proof fn lemma_edge_constant_fits(x0: i32, y0: i32, x1: i32, y1: i32)
    ensures
        fits_i64((x1 - x0) * y0),
        fits_i64((y1 - y0) * x0),
        fits_i64((x1 - x0) * y0 - (y1 - y0) * x0),
{
    let m: int = 0x8000_0000;
    assert(-(2 * m - 1) * m <= (x1 - x0) * y0 <= (2 * m - 1) * m) by (nonlinear_arith)
        requires
            -(2 * m - 1) <= x1 - x0 <= 2 * m - 1,
            -m <= y0 <= m,
            m == 0x8000_0000;
    assert(-(2 * m - 1) * m <= (y1 - y0) * x0 <= (2 * m - 1) * m) by (nonlinear_arith)
        requires
            -(2 * m - 1) <= y1 - y0 <= 2 * m - 1,
            -m <= x0 <= m,
            m == 0x8000_0000;
    assert((x1 - x0) * y0 - (y1 - y0) * x0 == x1 * y0 - y1 * x0) by (nonlinear_arith);
    assert(-m * (m - 1) <= x1 * y0 <= m * m) by (nonlinear_arith)
        requires
            -m <= x1 <= m - 1,
            -m <= y0 <= m - 1,
            m == 0x8000_0000;
    assert(-m * (m - 1) <= y1 * x0 <= m * m) by (nonlinear_arith)
        requires
            -m <= y1 <= m - 1,
            -m <= x0 <= m - 1,
            m == 0x8000_0000;
}

/// An edge built from two points evaluates to the edge function of those points.
pub proof fn lemma_joins_at(edge: Edge, x0: int, y0: int, x1: int, y1: int, x: int, y: int)
    requires
        edge.joins(x0, y0, x1, y1),
    ensures
        edge.at(x, y) == edge_value(x0, y0, x1, y1, x, y),
{
    assert((y1 - y0) * x + (x0 - x1) * y + ((x1 - x0) * y0 - (y1 - y0) * x0) == (y1 - y0) * (x - x0)
        - (x1 - x0) * (y - y0)) by (nonlinear_arith);
}

/// Top or left edge (y down): horizontal edges that run toward -x, and edges
/// that run toward +y.
pub fn top_left_is_inclusive(dx: i64, dy: i64) -> (r: bool)
    ensures
        r == is_top_left(dx as int, dy as int),
{
    (dy == 0 && dx < 0) || dy > 0
}

fn top_left_bias(dx: i64, dy: i64) -> (r: i64)
    ensures
        r == bias_of(dx as int, dy as int),
{
    if top_left_is_inclusive(dx, dy) {
        1
    } else {
        0
    }
}

pub fn eval(edge: &Edge, x: i32, y: i32) -> (r: i64)
    requires
        edge.eval_fits(x as int, y as int),
    ensures
        r == edge.at(x as int, y as int) + edge.bias,
{
    edge.a * (x as i64) + edge.b * (y as i64) + edge.c + edge.bias
}

/// A triangle ready to rasterise: snapped vertices plus the three edge functions.
#[derive(Clone, Copy, Debug)]
pub struct Setup {
    pub x: [i32; 3],
    pub y: [i32; 3],
    pub edges: [Edge; 3],
    /// Twice the signed area in subpixel units; positive for front faces.
    pub area2: i64,
}

/// Twice the signed area of the triangle `x`, `y`.
pub open spec fn signed_area2(x: [i32; 3], y: [i32; 3]) -> int {
    edge_value(x[0] as int, y[0] as int, x[1] as int, y[1] as int, x[2] as int, y[2] as int)
}

/// The sums [`Setup::new`] forms for the area of `x`, `y` are representable.
pub open spec fn area_fits(x: [i32; 3], y: [i32; 3]) -> bool {
    &&& fits_i64((y[1] - y[0]) * x[2] + (x[0] - x[1]) * y[2])
    &&& fits_i64(signed_area2(x, y))
}

/// The value of `v` after a cast to `i32`, which keeps its low 32 bits.
pub open spec fn as_i32(v: u32) -> int {
    if v < 0x8000_0000 {
        v as int
    } else {
        v - 0x1_0000_0000
    }
}

pub open spec fn min3(v: [i32; 3]) -> int {
    if v[0] <= v[1] && v[0] <= v[2] {
        v[0] as int
    } else if v[1] <= v[2] {
        v[1] as int
    } else {
        v[2] as int
    }
}

pub open spec fn max3(v: [i32; 3]) -> int {
    if v[0] >= v[1] && v[0] >= v[2] {
        v[0] as int
    } else if v[1] >= v[2] {
        v[1] as int
    } else {
        v[2] as int
    }
}

/// Half-open range of the whole pixels a coordinate triple touches, clamped to
/// `0..limit`.
pub open spec fn axis_span(v: [i32; 3], limit: u32) -> (int, int) {
    (num::imax(min3(v) / 256, 0), num::imin((max3(v) + 255) / 256, as_i32(limit)))
}

/// The whole pixels of the target that the box around `x`, `y` touches, or
/// nothing when there are none.
pub open spec fn pixel_bounds(x: [i32; 3], y: [i32; 3], width: u32, height: u32) -> Option<
    (u32, u32, u32, u32),
> {
    let (x0, x1) = axis_span(x, width);
    let (y0, y1) = axis_span(y, height);
    if x1 <= x0 || y1 <= y0 {
        None
    } else {
        Some((x0 as u32, y0 as u32, x1 as u32, y1 as u32))
    }
}

/// The subpixel coordinate of the centre of pixel `p`.
pub open spec fn pixel_centre(p: u32) -> int {
    as_i32(p) * 256 + 128
}

impl Setup {
    /// The edges and the area are those of the three vertices.
    pub open spec fn wf(self) -> bool {
        &&& self.edges[0].joins(
            self.x[0] as int,
            self.y[0] as int,
            self.x[1] as int,
            self.y[1] as int,
        )
        &&& self.edges[1].joins(
            self.x[1] as int,
            self.y[1] as int,
            self.x[2] as int,
            self.y[2] as int,
        )
        &&& self.edges[2].joins(
            self.x[2] as int,
            self.y[2] as int,
            self.x[0] as int,
            self.y[0] as int,
        )
        &&& self.area2 == signed_area2(self.x, self.y)
        &&& self.area2 != 0
    }

    /// The pixel bounds, clamped to the target, or nothing when they are empty.
    pub open spec fn bounds_spec(self, width: u32, height: u32) -> Option<(u32, u32, u32, u32)> {
        pixel_bounds(self.x, self.y, width, height)
    }

    /// The rounding in [`Setup::bounds`] is representable.
    pub open spec fn bounds_fit(self) -> bool {
        max3(self.x) + 255 <= i32::MAX && max3(self.y) + 255 <= i32::MAX
    }

    /// The sample at subpixel `(sx, sy)` passes all three edges.
    pub open spec fn covers(self, sx: int, sy: int) -> bool {
        &&& self.edges[0].at(sx, sy) + self.edges[0].bias > 0
        &&& self.edges[1].at(sx, sy) + self.edges[1].bias > 0
        &&& self.edges[2].at(sx, sy) + self.edges[2].bias > 0
    }

    /// Evaluating every edge at `(sx, sy)` is representable.
    pub open spec fn sample_fits(self, sx: int, sy: int) -> bool {
        &&& self.edges[0].eval_fits(sx, sy)
        &&& self.edges[1].eval_fits(sx, sy)
        &&& self.edges[2].eval_fits(sx, sy)
    }

    /// The biased edge values at `(sx, sy)`.
    pub open spec fn samples(self, sx: int, sy: int) -> Seq<int> {
        seq![
            self.edges[0].at(sx, sy) + self.edges[0].bias,
            self.edges[1].at(sx, sy) + self.edges[1].bias,
            self.edges[2].at(sx, sy) + self.edges[2].bias,
        ]
    }

    /// Builds the setup for `v0 -> v1 -> v2` from snapped coordinates, or
    /// nothing when the triangle is degenerate: it has no pixels, and an area of
    /// zero cannot be divided by.
    pub fn new(x: [i32; 3], y: [i32; 3]) -> (r: Option<Setup>)
        requires
            area_fits(x, y),
        ensures
            r is None <==> signed_area2(x, y) == 0,
            r matches Some(s) ==> s.wf() && s.x == x && s.y == y,
    {
        let edges = [
            edge_from_fixed(x[0], y[0], x[1], y[1]),
            edge_from_fixed(x[1], y[1], x[2], y[2]),
            edge_from_fixed(x[2], y[2], x[0], y[0]),
        ];
        // The first edge at the third vertex, with the bias removed, so it is a
        // true area.
        let (a, b): (i64, i64) = (edges[0].a, edges[0].b);
        proof {
            lemma_i32_product(a as int, x[2]);
            lemma_i32_product(b as int, y[2]);
            assert(edges[0].at(x[2] as int, y[2] as int) == a * x[2] + b * y[2] + edges[0].c);
        }
        let area2: i64 = a * (x[2] as i64) + b * (y[2] as i64) + edges[0].c;
        if area2 == 0 {
            return None;
        }
        Some(Setup { x, y, edges, area2 })
    }

    pub fn front_facing(&self) -> (r: bool)
        ensures
            r == (self.area2 > 0),
    {
        self.area2 > 0
    }

    /// Axis-aligned bounds in whole pixels, clamped to the target.
    pub fn bounds(&self, width: u32, height: u32) -> (r: Option<(u32, u32, u32, u32)>)
        requires
            self.bounds_fit(),
        ensures
            r == self.bounds_spec(width, height),
    {
        let min_x: i32 = shift_to_pixel(smallest(&self.x));
        let max_x: i32 = shift_to_pixel(largest(&self.x) + (SUBPIXEL_UNITS - 1));
        let min_y: i32 = shift_to_pixel(smallest(&self.y));
        let max_y: i32 = shift_to_pixel(largest(&self.y) + (SUBPIXEL_UNITS - 1));
        let x0: i32 = if min_x > 0 { min_x } else { 0 };
        let y0: i32 = if min_y > 0 { min_y } else { 0 };
        let w: i32 = cast_i32(width);
        let h: i32 = cast_i32(height);
        let x1: i32 = if max_x < w { max_x } else { w };
        let y1: i32 = if max_y < h { max_y } else { h };
        if x1 <= x0 || y1 <= y0 {
            return None;
        }
        Some((x0 as u32, y0 as u32, x1 as u32, y1 as u32))
    }

    /// How much each edge changes from one pixel to the next, along a row and
    /// down a column.
    pub fn subpixel_deltas(&self) -> (r: ([i64; 3], [i64; 3]))
        requires
            forall|i: int|
                0 <= i < 3 ==> fits_i64(#[trigger] self.edges[i].a * 256) && fits_i64(
                    self.edges[i].b * 256,
                ),
        ensures
            forall|i: int| 0 <= i < 3 ==> #[trigger] r.0[i] == self.edges[i].a * 256,
            forall|i: int| 0 <= i < 3 ==> #[trigger] r.1[i] == self.edges[i].b * 256,
    {
        assert(self.edges[0].a * 256 <= i64::MAX);
        assert(self.edges[1].a * 256 <= i64::MAX);
        assert(self.edges[2].a * 256 <= i64::MAX);
        let units: i64 = SUBPIXEL_UNITS as i64;
        let dxs: [i64; 3] = [
            self.edges[0].a * units,
            self.edges[1].a * units,
            self.edges[2].a * units,
        ];
        let dys: [i64; 3] = [
            self.edges[0].b * units,
            self.edges[1].b * units,
            self.edges[2].b * units,
        ];
        (dxs, dys)
    }

    /// The three biased edge values at the centre of pixel `(px, py)`.
    pub fn eval_at_pixel(&self, px: u32, py: u32) -> (r: [i64; 3])
        requires
            i32::MIN <= pixel_centre(px) - 128,
            pixel_centre(px) <= i32::MAX,
            i32::MIN <= pixel_centre(py) - 128,
            pixel_centre(py) <= i32::MAX,
            self.sample_fits(pixel_centre(px), pixel_centre(py)),
        ensures
            forall|i: int|
                0 <= i < 3 ==> #[trigger] r[i] == self.edges[i].at(
                    pixel_centre(px),
                    pixel_centre(py),
                ) + self.edges[i].bias,
    {
        let sx: i32 = cast_i32(px) * SUBPIXEL_UNITS + SUBPIXEL_UNITS / 2;
        let sy: i32 = cast_i32(py) * SUBPIXEL_UNITS + SUBPIXEL_UNITS / 2;
        [
            eval(&self.edges[0], sx, sy),
            eval(&self.edges[1], sx, sy),
            eval(&self.edges[2], sx, sy),
        ]
    }
}

proof fn lemma_i32_product(a: int, v: i32)
    requires
        -0xffff_ffff <= a <= 0xffff_ffff,
    ensures
        fits_i64(a * v),
{
    assert(-0xffff_ffff * 0x8000_0000 <= a * v <= 0xffff_ffff * 0x8000_0000) by (nonlinear_arith)
        requires
            -0xffff_ffff <= a <= 0xffff_ffff,
            -0x8000_0000 <= v <= 0x8000_0000;
}

fn cast_i32(v: u32) -> (r: i32)
    ensures
        r == as_i32(v),
{
    let r: i32 = v as i32;
    assert(v < 0x8000_0000u32 ==> v as i32 == v) by (bit_vector);
    assert(v >= 0x8000_0000u32 ==> v as i32 == v - 0x1_0000_0000) by (bit_vector);
    r
}

fn shift_to_pixel(v: i32) -> (r: i32)
    ensures
        r == v as int / 256,
{
    assert(v >> 8u32 == v as int / 256) by (bit_vector);
    v >> SUBPIXEL_BITS
}

fn smallest(v: &[i32; 3]) -> (r: i32)
    ensures
        r == min3(*v),
{
    if v[0] <= v[1] && v[0] <= v[2] {
        v[0]
    } else if v[1] <= v[2] {
        v[1]
    } else {
        v[2]
    }
}

fn largest(v: &[i32; 3]) -> (r: i32)
    ensures
        r == max3(*v),
{
    if v[0] >= v[1] && v[0] >= v[2] {
        v[0]
    } else if v[1] >= v[2] {
        v[1]
    } else {
        v[2]
    }
}

/// The fill rule: a sample on one side of the segment between two distinct
/// points passes the edge in exactly one of the two directions, so two triangles
/// that share it cover the sample once between them, never twice and never not
/// at all.
pub proof fn law_shared_edge_is_covered_once(
    there: Edge,
    back: Edge,
    x0: int,
    y0: int,
    x1: int,
    y1: int,
    sx: int,
    sy: int,
)
    requires
        x0 != x1 || y0 != y1,
        there.joins(x0, y0, x1, y1),
        back.joins(x1, y1, x0, y0),
    ensures
        (there.at(sx, sy) + there.bias > 0) != (back.at(sx, sy) + back.bias > 0),
{
    lemma_joins_at(there, x0, y0, x1, y1, sx, sy);
    lemma_joins_at(back, x1, y1, x0, y0, sx, sy);
    assert(edge_value(x1, y1, x0, y0, sx, sy) == -edge_value(x0, y0, x1, y1, sx, sy))
        by (nonlinear_arith);
}

/// The edge function, with every point taken relative to the sample.
pub proof fn lemma_edge_value_about(x0: int, y0: int, x1: int, y1: int, x: int, y: int)
    ensures
        edge_value(x0, y0, x1, y1, x, y) == (x1 - x) * (y0 - y) - (x0 - x) * (y1 - y),
{
    let (u0, u1, v0, v1) = (x0 - x, x1 - x, y0 - y, y1 - y);
    assert((v1 - v0) * (-u0) - (u1 - u0) * (-v0) == u1 * v0 - u0 * v1) by (nonlinear_arith);
    assert(edge_value(x0, y0, x1, y1, x, y) == (v1 - v0) * (-u0) - (u1 - u0) * (-v0));
}

/// The areas opposite the vertices, as weights, balance the vertices about the
/// sample.
pub proof fn lemma_weights_balance(u0: int, u1: int, u2: int, v0: int, v1: int, v2: int)
    ensures
        (u2 * v1 - u1 * v2) * u0 + (u0 * v2 - u2 * v0) * u1 + (u1 * v0 - u0 * v1) * u2 == 0,
        (u2 * v1 - u1 * v2) * v0 + (u0 * v2 - u2 * v0) * v1 + (u1 * v0 - u0 * v1) * v2 == 0,
{
    assert((u2 * v1 - u1 * v2) * u0 + (u0 * v2 - u2 * v0) * u1 + (u1 * v0 - u0 * v1) * u2 == 0)
        by (nonlinear_arith);
    assert((u2 * v1 - u1 * v2) * v0 + (u0 * v2 - u2 * v0) * v1 + (u1 * v0 - u0 * v1) * v2 == 0)
        by (nonlinear_arith);
}

pub proof fn lemma_shifted_mean(a: int, b: int, c: int, u: int, v: int, w: int, total: int, mean: int)
    requires
        a + b + c == total,
        a * (u - mean) + b * (v - mean) + c * (w - mean) == 0,
    ensures
        a * u + b * v + c * w == total * mean,
{
    assert(a * (u - mean) == a * u - a * mean) by (nonlinear_arith);
    assert(b * (v - mean) == b * v - b * mean) by (nonlinear_arith);
    assert(c * (w - mean) == c * w - c * mean) by (nonlinear_arith);
    assert(a * mean + b * mean + c * mean == total * mean) by (nonlinear_arith)
        requires
            a + b + c == total;
}

/// The three edge functions of a triangle add up to twice its area.
proof fn lemma_edge_values_sum(
    x0: int,
    y0: int,
    x1: int,
    y1: int,
    x2: int,
    y2: int,
    sx: int,
    sy: int,
)
    ensures
        edge_value(x0, y0, x1, y1, sx, sy) + edge_value(x1, y1, x2, y2, sx, sy) + edge_value(
            x2,
            y2,
            x0,
            y0,
            sx,
            sy,
        ) == edge_value(x0, y0, x1, y1, x2, y2),
{
    lemma_edge_value_about(x0, y0, x1, y1, sx, sy);
    lemma_edge_value_about(x1, y1, x2, y2, sx, sy);
    lemma_edge_value_about(x2, y2, x0, y0, sx, sy);
    let (u0, u1, u2) = (x0 - sx, x1 - sx, x2 - sx);
    let (v0, v1, v2) = (y0 - sy, y1 - sy, y2 - sy);
    assert((u1 * v0 - u0 * v1) + (u2 * v1 - u1 * v2) + (u0 * v2 - u2 * v0) == (v1 - v0) * (u2 - u0)
        - (u1 - u0) * (v2 - v0)) by (nonlinear_arith);
}

/// The three unbiased edge values of any sample add up to twice the area, so
/// divided by it they are barycentric weights.
pub proof fn law_edges_sum_to_the_area(s: Setup, sx: int, sy: int)
    requires
        s.wf(),
    ensures
        s.edges[0].at(sx, sy) + s.edges[1].at(sx, sy) + s.edges[2].at(sx, sy) == s.area2,
{
    let (x0, y0) = (s.x[0] as int, s.y[0] as int);
    let (x1, y1) = (s.x[1] as int, s.y[1] as int);
    let (x2, y2) = (s.x[2] as int, s.y[2] as int);
    lemma_joins_at(s.edges[0], x0, y0, x1, y1, sx, sy);
    lemma_joins_at(s.edges[1], x1, y1, x2, y2, sx, sy);
    lemma_joins_at(s.edges[2], x2, y2, x0, y0, sx, sy);
    lemma_edge_values_sum(x0, y0, x1, y1, x2, y2, sx, sy);
}

/// Reversing the winding negates the signed area.
pub proof fn law_winding_flips_the_area(x: [i32; 3], y: [i32; 3])
    ensures
        signed_area2([x[0], x[2], x[1]], [y[0], y[2], y[1]]) == -signed_area2(x, y),
{
    let (x0, y0) = (x[0] as int, y[0] as int);
    let (x1, y1) = (x[1] as int, y[1] as int);
    let (x2, y2) = (x[2] as int, y[2] as int);
    assert(edge_value(x0, y0, x2, y2, x1, y1) == -edge_value(x0, y0, x1, y1, x2, y2))
        by (nonlinear_arith);
}

/// A sample on the inner side of all three edges of a front-facing triangle lies
/// inside the box its vertices span.
pub proof fn lemma_sample_in_the_box(x: [i32; 3], y: [i32; 3], sx: int, sy: int)
    requires
        signed_area2(x, y) > 0,
        edge_value(x[0] as int, y[0] as int, x[1] as int, y[1] as int, sx, sy) >= 0,
        edge_value(x[1] as int, y[1] as int, x[2] as int, y[2] as int, sx, sy) >= 0,
        edge_value(x[2] as int, y[2] as int, x[0] as int, y[0] as int, sx, sy) >= 0,
    ensures
        min3(x) <= sx <= max3(x),
        min3(y) <= sy <= max3(y),
{
    let (x0, y0) = (x[0] as int, y[0] as int);
    let (x1, y1) = (x[1] as int, y[1] as int);
    let (x2, y2) = (x[2] as int, y[2] as int);
    lemma_edge_values_sum(x0, y0, x1, y1, x2, y2, sx, sy);
    let e0 = edge_value(x0, y0, x1, y1, sx, sy);
    let e1 = edge_value(x1, y1, x2, y2, sx, sy);
    let e2 = edge_value(x2, y2, x0, y0, sx, sy);
    let area = signed_area2(x, y);
    // The weights of v0, v1 and v2 are E1, E2 and E0.
    lemma_edge_value_about(x0, y0, x1, y1, sx, sy);
    lemma_edge_value_about(x1, y1, x2, y2, sx, sy);
    lemma_edge_value_about(x2, y2, x0, y0, sx, sy);
    let (u0, u1, u2) = (x0 - sx, x1 - sx, x2 - sx);
    let (v0, v1, v2) = (y0 - sy, y1 - sy, y2 - sy);
    lemma_weights_balance(u0, u1, u2, v0, v1, v2);
    lemma_shifted_mean(e1, e2, e0, x0, x1, x2, area, sx);
    lemma_shifted_mean(e1, e2, e0, y0, y1, y2, area, sy);
    lemma_weighted_mean(e1, e2, e0, x0, x1, x2, area, sx, min3(x), max3(x));
    lemma_weighted_mean(e1, e2, e0, y0, y1, y2, area, sy, min3(y), max3(y));
}

proof fn lemma_weighted_mean(
    a: int,
    b: int,
    c: int,
    u: int,
    v: int,
    w: int,
    total: int,
    mean: int,
    lo: int,
    hi: int,
)
    requires
        a >= 0,
        b >= 0,
        c >= 0,
        a + b + c == total,
        total > 0,
        a * u + b * v + c * w == total * mean,
        lo <= u <= hi,
        lo <= v <= hi,
        lo <= w <= hi,
    ensures
        lo <= mean <= hi,
{
    assert(a * lo <= a * u <= a * hi) by (nonlinear_arith)
        requires
            a >= 0,
            lo <= u <= hi;
    assert(b * lo <= b * v <= b * hi) by (nonlinear_arith)
        requires
            b >= 0,
            lo <= v <= hi;
    assert(c * lo <= c * w <= c * hi) by (nonlinear_arith)
        requires
            c >= 0,
            lo <= w <= hi;
    assert(a * lo + b * lo + c * lo == total * lo) by (nonlinear_arith)
        requires
            a + b + c == total;
    assert(a * hi + b * hi + c * hi == total * hi) by (nonlinear_arith)
        requires
            a + b + c == total;
    assert(lo <= mean <= hi) by (nonlinear_arith)
        requires
            total > 0,
            total * lo <= total * mean <= total * hi;
}

/// Clamping to the bounds loses nothing: every pixel of the target whose centre
/// a front-facing triangle covers lies inside that triangle's bounds.
pub proof fn law_bounds_hold_every_covered_pixel(
    s: Setup,
    px: u32,
    py: u32,
    width: u32,
    height: u32,
)
    requires
        s.wf(),
        s.area2 > 0,
        px < width <= i32::MAX,
        py < height <= i32::MAX,
        s.covers(pixel_centre(px), pixel_centre(py)),
    ensures
        s.bounds_spec(width, height) matches Some((x0, y0, x1, y1)) && x0 <= px < x1 && y0 <= py
            < y1,
{
    let (x0, y0) = (s.x[0] as int, s.y[0] as int);
    let (x1, y1) = (s.x[1] as int, s.y[1] as int);
    let (x2, y2) = (s.x[2] as int, s.y[2] as int);
    let (sx, sy) = (pixel_centre(px), pixel_centre(py));
    lemma_joins_at(s.edges[0], x0, y0, x1, y1, sx, sy);
    lemma_joins_at(s.edges[1], x1, y1, x2, y2, sx, sy);
    lemma_joins_at(s.edges[2], x2, y2, x0, y0, sx, sy);
    lemma_sample_in_the_box(s.x, s.y, sx, sy);
}

} // verus!
