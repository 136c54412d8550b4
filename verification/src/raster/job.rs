//! One triangle inside one tile: what is left of it, and the pixels it covers.
use crate::num;
use crate::raster::fixed;
use crate::raster::fixed::Setup;
use crate::raster::{PipelineState, CULL_BACK, CULL_FRONT};
use vstd::prelude::*;

verus! {

/// Does a triangle that is `front`-facing (or not) fall to this cull mode?
pub open spec fn is_culled(cull: u32, front: bool) -> bool {
    ||| cull == CULL_BACK && !front
    ||| cull == CULL_FRONT && front
}

pub fn culls(cull: u32, front: bool) -> (r: bool)
    ensures
        r == is_culled(cull, front),
{
    match cull {
        CULL_BACK => !front,
        CULL_FRONT => front,
        _ => false,
    }
}

/// The vertices `v` with the last two exchanged when `flip` is set.
pub open spec fn wound(v: [i32; 3], flip: bool) -> [i32; 3] {
    if flip {
        [v[0], v[2], v[1]]
    } else {
        v
    }
}

/// The overlap of two pixel rects, which is empty when either side of it is.
pub open spec fn overlap(a: (u32, u32, u32, u32), b: (u32, u32, u32, u32)) -> (int, int, int, int) {
    (
        num::imax(a.0 as int, b.0 as int),
        num::imax(a.1 as int, b.1 as int),
        num::imin(a.2 as int, b.2 as int),
        num::imin(a.3 as int, b.3 as int),
    )
}

/// The part of the triangle `x`, `y` that lies in `rect`, or nothing when it
/// is degenerate, culled, or somewhere else.
pub open spec fn job_rect(
    x: [i32; 3],
    y: [i32; 3],
    cull: u32,
    rect: (u32, u32, u32, u32),
    render: (u32, u32),
) -> Option<(u32, u32, u32, u32)> {
    let area = fixed::signed_area2(x, y);
    if area == 0 || is_culled(cull, area > 0) {
        None
    } else {
        match fixed::pixel_bounds(x, y, render.0, render.1) {
            None => None,
            Some(bounds) => {
                let (x0, y0, x1, y1) = overlap(bounds, rect);
                if x1 <= x0 || y1 <= y0 {
                    None
                } else {
                    Some((x0 as u32, y0 as u32, x1 as u32, y1 as u32))
                }
            },
        }
    }
}

/// Every sum [`TriJob::build`] forms for the triangle is representable.
pub open spec fn build_fits(x: [i32; 3], y: [i32; 3], cull: u32) -> bool {
    let area = fixed::signed_area2(x, y);
    &&& fixed::area_fits(x, y)
    &&& area != 0 && !is_culled(cull, area > 0) ==> {
        &&& fixed::area_fits(wound(x, area < 0), wound(y, area < 0))
        &&& fixed::max3(x) + 255 <= i32::MAX
        &&& fixed::max3(y) + 255 <= i32::MAX
    }
}

/// The subpixel coordinate of the centre of pixel `p`.
pub open spec fn centre(p: int) -> int {
    p * 256 + 128
}

/// Per-triangle state of the pixel loop.
#[derive(Clone, Copy, Debug)]
pub struct TriJob {
    /// The triangle, wound so that its interior is where every edge is positive.
    pub setup: Setup,
    /// The winding was reversed: the second and third vertex changed places.
    pub flip: bool,
    /// The surface is seen from behind and its normal has to be turned.
    pub flip_normal: bool,
    /// The pixels to visit, `[x0, x1) x [y0, y1)`.
    pub rect: (u32, u32, u32, u32),
}

/// A pixel whose centre a triangle covers.
#[derive(Clone, Copy, Debug, PartialEq, Eq)]
pub struct Fragment {
    pub x: u32,
    pub y: u32,
    /// The three edge values at the centre, without the fill rule's bias. Over
    /// twice the area they are the weights of the third, first and second vertex.
    pub edges: [i64; 3],
}

/// The pixels of a rect, row by row.
pub open spec fn pixels_of(rect: (u32, u32, u32, u32)) -> Seq<(u32, u32)> {
    let w = rect.2 - rect.0;
    Seq::new(
        (w * (rect.3 - rect.1)) as nat,
        |i: int| ((rect.0 + i % w) as u32, (rect.1 + i / w) as u32),
    )
}

impl TriJob {
    /// The setup is a front-facing triangle and there are pixels to visit.
    pub open spec fn wf(self) -> bool {
        &&& self.setup.wf()
        &&& self.setup.area2 > 0
        &&& self.rect.0 < self.rect.2
        &&& self.rect.1 < self.rect.3
    }

    /// The edge function `i`, with its bias, at the centre of pixel `(px, py)`.
    pub open spec fn value(self, i: int, px: int, py: int) -> int {
        self.setup.edges[i].at(centre(px), centre(py)) + self.setup.edges[i].bias
    }

    /// The triangle covers the centre of pixel `(px, py)`.
    pub open spec fn covers_pixel(self, px: int, py: int) -> bool {
        self.setup.covers(centre(px), centre(py))
    }

    /// Every edge value the pixel loop steps through is representable. It steps
    /// one pixel past the end of each row and one row past the last.
    pub open spec fn raster_fits(self) -> bool {
        let (x0, y0, x1, y1) = self.rect;
        &&& centre(x0 as int) <= i32::MAX
        &&& centre(y0 as int) <= i32::MAX
        &&& self.setup.sample_fits(centre(x0 as int), centre(y0 as int))
        &&& forall|i: int|
            0 <= i < 3 ==> fixed::fits_i64(#[trigger] self.setup.edges[i].a * 256)
                && fixed::fits_i64(self.setup.edges[i].b * 256)
        &&& forall|i: int, px: int, py: int|
            0 <= i < 3 && x0 <= px <= x1 && y0 <= py <= y1 ==> fixed::fits_i64(
                #[trigger] self.value(i, px, py),
            )
    }

    /// The pixels of the rect that the triangle covers, row by row.
    pub open spec fn covered(self) -> Seq<(u32, u32)> {
        pixels_of(self.rect).filter(|p: (u32, u32)| self.covers_pixel(p.0 as int, p.1 as int))
    }

    /// What [`TriJob::raster`] says of the covered pixel `p`.
    pub open spec fn describes(self, f: Fragment, p: (u32, u32)) -> bool {
        &&& f.x == p.0
        &&& f.y == p.1
        &&& f.edges[0] == self.setup.edges[0].at(centre(p.0 as int), centre(p.1 as int))
        &&& f.edges[1] == self.setup.edges[1].at(centre(p.0 as int), centre(p.1 as int))
        &&& f.edges[2] == self.setup.edges[2].at(centre(p.0 as int), centre(p.1 as int))
    }

    /// Sets one triangle up for the pixels of `rect`: culls it, normalises its
    /// winding so that the interior is always positive, and cuts its bounds down
    /// to the rect.
    pub fn build(
        x: [i32; 3],
        y: [i32; 3],
        pipeline: &PipelineState,
        rect: (u32, u32, u32, u32),
        render: (u32, u32),
    ) -> (r: Option<TriJob>)
        requires
            build_fits(x, y, pipeline.cull),
        ensures
            r is Some == job_rect(x, y, pipeline.cull, rect, render) is Some,
            r matches Some(job) ==> {
                &&& job.wf()
                &&& job.rect == job_rect(x, y, pipeline.cull, rect, render)->0
                &&& job.flip == (fixed::signed_area2(x, y) < 0)
                &&& job.setup.x@ == wound(x, job.flip)@
                &&& job.setup.y@ == wound(y, job.flip)@
                &&& job.flip_normal == (job.flip && pipeline.two_sided)
            },
    {
        let setup = match Setup::new(x, y) {
            Some(s) => s,
            None => return None,
        };
        let front = setup.front_facing();
        if culls(pipeline.cull, front) {
            return None;
        }
        let flip = !front;
        let xs: [i32; 3] = if flip {
            [x[0], x[2], x[1]]
        } else {
            x
        };
        let ys: [i32; 3] = if flip {
            [y[0], y[2], y[1]]
        } else {
            y
        };
        proof {
            fixed::law_winding_flips_the_area(x, y);
        }
        let setup = match Setup::new(xs, ys) {
            Some(s) => s,
            None => return None,
        };
        let (bx0, by0, bx1, by1): (u32, u32, u32, u32) = match setup.bounds(render.0, render.1) {
            Some(b) => b,
            None => return None,
        };
        let x0: u32 = if bx0 > rect.0 { bx0 } else { rect.0 };
        let y0: u32 = if by0 > rect.1 { by0 } else { rect.1 };
        let x1: u32 = if bx1 < rect.2 { bx1 } else { rect.2 };
        let y1: u32 = if by1 < rect.3 { by1 } else { rect.3 };
        if x1 <= x0 || y1 <= y0 {
            return None;
        }
        Some(
            TriJob {
                setup,
                flip,
                flip_normal: flip && pipeline.two_sided,
                rect: (x0, y0, x1, y1),
            },
        )
    }

    /// Walks the rect row by row and lists the pixels the triangle covers. The
    /// edge values are stepped from pixel to pixel, not evaluated anew.
    pub fn raster(&self) -> (r: Vec<Fragment>)
        requires
            self.wf(),
            self.raster_fits(),
        ensures
            r@.len() == self.covered().len(),
            forall|k: int| 0 <= k < r@.len() ==> self.describes(#[trigger] r@[k], self.covered()[k]),
    {
        let (x0, y0, x1, y1): (u32, u32, u32, u32) = self.rect;
        let ghost pixels = pixels_of(self.rect);
        let ghost keep = |p: (u32, u32)| self.covers_pixel(p.0 as int, p.1 as int);
        let ghost w = x1 - x0;
        let (dxs, dys) = self.setup.subpixel_deltas();
        let row: [i64; 3] = self.setup.eval_at_pixel(x0, y0);
        let (mut r0, mut r1, mut r2): (i64, i64, i64) = (row[0], row[1], row[2]);
        let mut out: Vec<Fragment> = Vec::new();
        let mut py: u32 = y0;
        assert(pixels.take(0).filter(keep) =~= Seq::empty()) by {
            reveal(Seq::filter);
        }
        while py < y1
            invariant
                self.wf(),
                self.raster_fits(),
                (x0, y0, x1, y1) == self.rect,
                y0 <= py <= y1,
                w == x1 - x0,
                pixels == pixels_of(self.rect),
                keep == |p: (u32, u32)| self.covers_pixel(p.0 as int, p.1 as int),
                r0 == self.value(0, x0 as int, py as int),
                r1 == self.value(1, x0 as int, py as int),
                r2 == self.value(2, x0 as int, py as int),
                forall|i: int| 0 <= i < 3 ==> #[trigger] dxs[i] == self.setup.edges[i].a * 256,
                forall|i: int| 0 <= i < 3 ==> #[trigger] dys[i] == self.setup.edges[i].b * 256,
                self.lists(out@, pixels.take((py - y0) * w).filter(keep)),
            decreases y1 - py,
        {
            let (mut e0, mut e1, mut e2): (i64, i64, i64) = (r0, r1, r2);
            let mut px: u32 = x0;
            while px < x1
                invariant
                    self.wf(),
                    self.raster_fits(),
                    (x0, y0, x1, y1) == self.rect,
                    y0 <= py < y1,
                    x0 <= px <= x1,
                    w == x1 - x0,
                    pixels == pixels_of(self.rect),
                    keep == |p: (u32, u32)| self.covers_pixel(p.0 as int, p.1 as int),
                    e0 == self.value(0, px as int, py as int),
                    e1 == self.value(1, px as int, py as int),
                    e2 == self.value(2, px as int, py as int),
                    forall|i: int| 0 <= i < 3 ==> #[trigger] dxs[i] == self.setup.edges[i].a * 256,
                    self.lists(out@, pixels.take((py - y0) * w + (px - x0)).filter(keep)),
                decreases x1 - px,
            {
                let ghost k = (py - y0) * w + (px - x0);
                proof {
                    lemma_pixel_index(self.rect, px, py);
                    crate::seqs::lemma_filter_take(pixels, k, keep);
                    self.lemma_step_right(px as int, py as int);
                }
                if e0 > 0 && e1 > 0 && e2 > 0 {
                    proof {
                        self.lemma_bias();
                    }
                    let f = Fragment {
                        x: px,
                        y: py,
                        edges: [
                            e0 - self.setup.edges[0].bias,
                            e1 - self.setup.edges[1].bias,
                            e2 - self.setup.edges[2].bias,
                        ],
                    };
                    out.push(f);
                }
                assert(fixed::fits_i64(self.value(0, px + 1, py as int)));
                assert(fixed::fits_i64(self.value(1, px + 1, py as int)));
                assert(fixed::fits_i64(self.value(2, px + 1, py as int)));
                e0 = e0 + dxs[0];
                e1 = e1 + dxs[1];
                e2 = e2 + dxs[2];
                px += 1;
            }
            proof {
                self.lemma_step_down(x0 as int, py as int);
                assert((py - y0) * w + w == (py + 1 - y0) * w) by (nonlinear_arith);
            }
            assert(fixed::fits_i64(self.value(0, x0 as int, py + 1)));
            assert(fixed::fits_i64(self.value(1, x0 as int, py + 1)));
            assert(fixed::fits_i64(self.value(2, x0 as int, py + 1)));
            r0 = r0 + dys[0];
            r1 = r1 + dys[1];
            r2 = r2 + dys[2];
            py += 1;
        }
        proof {
            assert((y1 - y0) * w == w * (y1 - y0)) by (nonlinear_arith);
            lemma_pixel_count(self.rect);
            assert(pixels.take(pixels.len() as int) =~= pixels);
        }
        out
    }

    spec fn lists(self, out: Seq<Fragment>, pixels: Seq<(u32, u32)>) -> bool {
        &&& out.len() == pixels.len()
        &&& forall|k: int| 0 <= k < out.len() ==> self.describes(#[trigger] out[k], pixels[k])
    }

    proof fn lemma_bias(self)
        requires
            self.wf(),
        ensures
            0 <= self.setup.edges[0].bias <= 1,
            0 <= self.setup.edges[1].bias <= 1,
            0 <= self.setup.edges[2].bias <= 1,
    {
    }

    proof fn lemma_step_right(self, px: int, py: int)
        ensures
            forall|i: int|
                0 <= i < 3 ==> #[trigger] self.value(i, px + 1, py) == self.value(i, px, py)
                    + self.setup.edges[i].a * 256,
    {
        assert forall|i: int| 0 <= i < 3 implies #[trigger] self.value(i, px + 1, py) == self.value(
            i,
            px,
            py,
        ) + self.setup.edges[i].a * 256 by {
            let a = self.setup.edges[i].a as int;
            let c = centre(px);
            assert(a * (c + 256) == a * c + a * 256) by (nonlinear_arith);
            assert(centre(px + 1) == c + 256);
        }
    }

    proof fn lemma_step_down(self, px: int, py: int)
        ensures
            forall|i: int|
                0 <= i < 3 ==> #[trigger] self.value(i, px, py + 1) == self.value(i, px, py)
                    + self.setup.edges[i].b * 256,
    {
        assert forall|i: int| 0 <= i < 3 implies #[trigger] self.value(i, px, py + 1) == self.value(
            i,
            px,
            py,
        ) + self.setup.edges[i].b * 256 by {
            let b = self.setup.edges[i].b as int;
            let c = centre(py);
            assert(b * (c + 256) == b * c + b * 256) by (nonlinear_arith);
            assert(centre(py + 1) == c + 256);
        }
    }
}

proof fn lemma_pixel_count(rect: (u32, u32, u32, u32))
    requires
        rect.0 < rect.2,
        rect.1 < rect.3,
    ensures
        pixels_of(rect).len() == (rect.2 - rect.0) * (rect.3 - rect.1),
{
    let (w, h) = (rect.2 - rect.0, rect.3 - rect.1);
    assert(w * h >= 0) by (nonlinear_arith)
        requires
            w > 0,
            h > 0;
}

/// Where a pixel of the rect stands in row-by-row order.
pub proof fn lemma_pixel_index(rect: (u32, u32, u32, u32), px: u32, py: u32)
    requires
        rect.0 <= px < rect.2,
        rect.1 <= py < rect.3,
    ensures
        ({
            let k = (py - rect.1) * (rect.2 - rect.0) + (px - rect.0);
            0 <= k < pixels_of(rect).len() && pixels_of(rect)[k] == (px, py)
        }),
{
    let (w, h) = (rect.2 - rect.0, rect.3 - rect.1);
    let (i, j) = (px - rect.0, py - rect.1);
    let k = j * w + i;
    lemma_pixel_count(rect);
    assert(0 <= j * w && j * w + w <= w * h) by (nonlinear_arith)
        requires
            0 <= j < h,
            w > 0;
    vstd::arithmetic::div_mod::lemma_fundamental_div_mod_converse(k, w, j, i);
}

/// The coordinates lie well inside what a setup can represent: within four
/// million pixels of the origin.
pub open spec fn in_guard_band(v: [i32; 3]) -> bool {
    forall|i: int| 0 <= i < 3 ==> -0x4000_0000 < #[trigger] v[i] < 0x4000_0000
}

/// Inside the guard band no sum of the setup or of the pixel loop overflows.
pub proof fn law_the_guard_band_fits(x: [i32; 3], y: [i32; 3], cull: u32)
    requires
        in_guard_band(x),
        in_guard_band(y),
    ensures
        build_fits(x, y, cull),
{
    lemma_guarded_area(x, y);
    lemma_guarded_area(wound(x, true), wound(y, true));
}

/// As [`law_the_guard_band_fits`], for the pixel loop.
pub proof fn law_the_guard_band_fits_the_pixel_loop(job: TriJob)
    requires
        job.wf(),
        in_guard_band(job.setup.x),
        in_guard_band(job.setup.y),
        job.rect.2 < 0x40_0000,
        job.rect.3 < 0x40_0000,
    ensures
        job.raster_fits(),
{
    let s = job.setup;
    let (x0, y0, x1, y1) = job.rect;
    assert forall|i: int, px: int, py: int|
        0 <= i < 3 && x0 <= px <= x1 && y0 <= py <= y1 implies fixed::fits_i64(
        #[trigger] job.value(i, px, py),
    ) by {
        let j = if i == 2 { 0 } else { i + 1 };
        assert(s.edges[i].joins(s.x[i] as int, s.y[i] as int, s.x[j] as int, s.y[j] as int));
        lemma_guarded_edge(
            s.edges[i],
            s.x[i] as int,
            s.y[i] as int,
            s.x[j] as int,
            s.y[j] as int,
            centre(px),
            centre(py),
        );
    }
    let (cx, cy) = (centre(x0 as int), centre(y0 as int));
    lemma_guarded_edge(
        s.edges[0],
        s.x[0] as int,
        s.y[0] as int,
        s.x[1] as int,
        s.y[1] as int,
        cx,
        cy,
    );
    lemma_guarded_edge(
        s.edges[1],
        s.x[1] as int,
        s.y[1] as int,
        s.x[2] as int,
        s.y[2] as int,
        cx,
        cy,
    );
    lemma_guarded_edge(
        s.edges[2],
        s.x[2] as int,
        s.y[2] as int,
        s.x[0] as int,
        s.y[0] as int,
        cx,
        cy,
    );
}

proof fn lemma_guarded_product(a: int, b: int)
    requires
        -0x7fff_fffe <= a <= 0x7fff_fffe,
        -0x7fff_fffe <= b <= 0x7fff_fffe,
    ensures
        -0x7fff_fffe * 0x7fff_fffe <= a * b <= 0x7fff_fffe * 0x7fff_fffe,
{
    assert(-0x7fff_fffe * 0x7fff_fffe <= a * b <= 0x7fff_fffe * 0x7fff_fffe) by (nonlinear_arith)
        requires
            -0x7fff_fffe <= a <= 0x7fff_fffe,
            -0x7fff_fffe <= b <= 0x7fff_fffe;
}

proof fn lemma_guarded_edge(
    edge: fixed::Edge,
    x0: int,
    y0: int,
    x1: int,
    y1: int,
    x: int,
    y: int,
)
    requires
        edge.joins(x0, y0, x1, y1),
        -0x4000_0000 < x0 < 0x4000_0000,
        -0x4000_0000 < y0 < 0x4000_0000,
        -0x4000_0000 < x1 < 0x4000_0000,
        -0x4000_0000 < y1 < 0x4000_0000,
        -0x4000_0000 < x < 0x4000_0000,
        -0x4000_0000 < y < 0x4000_0000,
    ensures
        edge.eval_fits(x, y),
{
    fixed::lemma_joins_at(edge, x0, y0, x1, y1, x, y);
    lemma_guarded_product(y1 - y0, x - x0);
    lemma_guarded_product(x1 - x0, y - y0);
    let (a, b) = (edge.a as int, edge.b as int);
    assert(-0x7fff_fffe * 0x4000_0000 <= a * x <= 0x7fff_fffe * 0x4000_0000) by (nonlinear_arith)
        requires
            -0x7fff_fffe <= a <= 0x7fff_fffe,
            -0x4000_0000 < x < 0x4000_0000;
    assert(-0x7fff_fffe * 0x4000_0000 <= b * y <= 0x7fff_fffe * 0x4000_0000) by (nonlinear_arith)
        requires
            -0x7fff_fffe <= b <= 0x7fff_fffe,
            -0x4000_0000 < y < 0x4000_0000;
}

proof fn lemma_guarded_area(x: [i32; 3], y: [i32; 3])
    requires
        in_guard_band(x),
        in_guard_band(y),
    ensures
        fixed::area_fits(x, y),
{
    let (x0, y0) = (x[0] as int, y[0] as int);
    let (x1, y1) = (x[1] as int, y[1] as int);
    let (x2, y2) = (x[2] as int, y[2] as int);
    lemma_guarded_product(y1 - y0, x2 - x0);
    lemma_guarded_product(x1 - x0, y2 - y0);
    lemma_guarded_product(y1 - y0, x2);
    lemma_guarded_product(x0 - x1, y2);
}

} // verus!
