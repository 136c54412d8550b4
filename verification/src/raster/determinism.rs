//! Why the frame does not depend on the grid, or on who renders which tile.
//!
//! * No tile writes a pixel that another tile writes
//!   ([`law_a_pixel_has_one_tile`]).
//! * Every triangle that covers a pixel is in the bin of that pixel's tile, in
//!   draw order ([`law_a_pixel_sees_its_triangles_in_draw_order`]).
//! * In its tile a triangle's job lists exactly the pixels it covers
//!   ([`law_a_job_lists_what_its_triangle_covers`]).
//!
//! So a pixel's history is the same for every tile size, and for every order of
//! the tiles ([`law_the_order_of_tiles_does_not_matter`]): two runs over one frame
//! agree on every pixel, whatever their workers and their tiles
//! ([`law_neither_workers_nor_tiles_change_a_pixel`]).
use crate::raster::bin;
use crate::raster::bin::{DrawItem, Tri};
use crate::raster::fixed;
use crate::raster::fixed::Setup;
use crate::raster::job;
use crate::raster::job::TriJob;
use crate::raster::tile;
use vstd::prelude::*;

verus! {

/// The tile that a pixel lies in.
pub open spec fn tile_of(px: u32, py: u32, tiles_x: u32, tile_size: u32) -> int {
    (py as int / tile_size as int) * tiles_x + px as int / tile_size as int
}

pub open spec fn inside(rect: (u32, u32, u32, u32), px: u32, py: u32) -> bool {
    rect.0 <= px < rect.2 && rect.1 <= py < rect.3
}

/// A pixel in the tile's square.
proof fn lemma_square(p: u32, t: int, tile_size: u32)
    requires
        tile_size > 0,
        0 <= t,
    ensures
        (t * tile_size <= p < t * tile_size + tile_size) <==> p as int / tile_size as int == t,
{
    let ts = tile_size as int;
    vstd::arithmetic::div_mod::lemma_fundamental_div_mod(p as int, ts);
    assert(ts * (p as int / ts) == (p as int / ts) * ts) by (nonlinear_arith);
    if t * ts <= p < t * ts + ts {
        vstd::arithmetic::div_mod::lemma_fundamental_div_mod_converse(p as int, ts, t, p - t * ts);
    }
}

/// Of all tiles of the grid, exactly one holds a pixel of the rendered area.
pub proof fn law_a_pixel_has_one_tile(
    px: u32,
    py: u32,
    tile: int,
    tiles: nat,
    tiles_x: u32,
    tile_size: u32,
    render: (u32, u32),
)
    requires
        bin::grid_covers(render, tiles, tiles_x, tile_size),
        px < render.0,
        py < render.1,
        0 <= tile < tiles,
    ensures
        0 <= tile_of(px, py, tiles_x, tile_size) < tiles,
        (tile::tile_rect(tile, tiles_x, tile_size, render) matches Some(rect) && inside(rect, px, py))
            <==> tile == tile_of(px, py, tiles_x, tile_size),
{
    let ts = tile_size as int;
    let (cx, cy) = (px as int / ts, py as int / ts);
    lemma_pixel_in_grid(px, render.0, tile_size);
    lemma_pixel_in_grid(py, render.1, tile_size);
    bin::lemma_tile_number(cx, cy, tiles_x);
    let rows = (render.1 + ts - 1) / ts;
    assert(cy * tiles_x + tiles_x <= rows * tiles_x) by (nonlinear_arith)
        requires
            cy + 1 <= rows,
            0 <= tiles_x;
    bin::lemma_tile_parts(tile, tiles_x);
    let (tx, ty) = (tile % tiles_x as int, tile / tiles_x as int);
    lemma_square(px, tx, tile_size);
    lemma_square(py, ty, tile_size);
    crate::num::lemma_product_is_nat(tx, ts);
    crate::num::lemma_product_is_nat(ty, ts);
}

/// The tile column (or row) of a pixel is one of the grid's.
proof fn lemma_pixel_in_grid(p: u32, pixels: u32, tile_size: u32)
    requires
        tile_size > 0,
        p < pixels,
    ensures
        0 <= p as int / tile_size as int,
        p as int / (tile_size as int) < (pixels + tile_size - 1) / tile_size as int,
{
    let ts = tile_size as int;
    vstd::arithmetic::div_mod::lemma_div_pos_is_pos(p as int, ts);
    vstd::arithmetic::div_mod::lemma_div_is_ordered(p + ts, pixels + ts - 1, ts);
    vstd::arithmetic::div_mod::lemma_div_plus_one(p as int, ts);
}

/// The sample passes the three edges of the triangle `x`, `y`, wound either way.
pub open spec fn covers_sample(x: [i32; 3], y: [i32; 3], sx: int, sy: int) -> bool {
    let flip = fixed::signed_area2(x, y) < 0;
    let (u, v) = (job::wound(x, flip), job::wound(y, flip));
    &&& passes(u[0] as int, v[0] as int, u[1] as int, v[1] as int, sx, sy)
    &&& passes(u[1] as int, v[1] as int, u[2] as int, v[2] as int, sx, sy)
    &&& passes(u[2] as int, v[2] as int, u[0] as int, v[0] as int, sx, sy)
}

/// The sample is inside the edge, by the fill rule.
pub open spec fn passes(x0: int, y0: int, x1: int, y1: int, sx: int, sy: int) -> bool {
    fixed::edge_value(x0, y0, x1, y1, sx, sy) + fixed::bias_of(x1 - x0, y1 - y0) > 0
}

/// The triangle may write the pixel: it is drawn, and covers the pixel's centre
/// or has to be clipped before that is known.
pub open spec fn may_write(tri: Tri, px: u32, py: u32) -> bool {
    let v = tri.vertices;
    &&& !tri.info.culled
    &&& !tri.info.degenerate
    &&& bin::any_needs_clip(v) || covers_sample(
        bin::xs(v),
        bin::ys(v),
        job::centre(px as int),
        job::centre(py as int),
    )
}

/// A setup covers what its vertices' edges let pass.
pub proof fn lemma_setup_covers(s: Setup, x: [i32; 3], y: [i32; 3], sx: int, sy: int)
    requires
        s.wf(),
        s.x@ == job::wound(x, fixed::signed_area2(x, y) < 0)@,
        s.y@ == job::wound(y, fixed::signed_area2(x, y) < 0)@,
    ensures
        s.covers(sx, sy) == covers_sample(x, y, sx, sy),
{
    let (x0, y0) = (s.x@[0] as int, s.y@[0] as int);
    let (x1, y1) = (s.x@[1] as int, s.y@[1] as int);
    let (x2, y2) = (s.x@[2] as int, s.y@[2] as int);
    fixed::lemma_joins_at(s.edges[0], x0, y0, x1, y1, sx, sy);
    fixed::lemma_joins_at(s.edges[1], x1, y1, x2, y2, sx, sy);
    fixed::lemma_joins_at(s.edges[2], x2, y2, x0, y0, sx, sy);
}

/// A covered pixel lies in the triangle's bounds.
pub proof fn lemma_covered_in_bounds(x: [i32; 3], y: [i32; 3], px: u32, py: u32, render: (u32, u32))
    requires
        fixed::signed_area2(x, y) != 0,
        px < render.0 <= i32::MAX,
        py < render.1 <= i32::MAX,
        covers_sample(x, y, job::centre(px as int), job::centre(py as int)),
    ensures
        fixed::pixel_bounds(x, y, render.0, render.1) matches Some(rect) && inside(rect, px, py),
{
    let flip = fixed::signed_area2(x, y) < 0;
    fixed::law_winding_flips_the_area(x, y);
    fixed::lemma_sample_in_the_box(
        job::wound(x, flip),
        job::wound(y, flip),
        job::centre(px as int),
        job::centre(py as int),
    );
}

/// A rect with the pixel reaches into the pixel's tile.
proof fn lemma_rect_reaches(
    rect: (u32, u32, u32, u32),
    px: u32,
    py: u32,
    tiles: nat,
    tiles_x: u32,
    tile_size: u32,
    render: (u32, u32),
)
    requires
        bin::grid_covers(render, tiles, tiles_x, tile_size),
        px < render.0,
        py < render.1,
        inside(rect, px, py),
    ensures
        bin::rect_reaches(rect, tile_of(px, py, tiles_x, tile_size), tiles_x, tile_size),
{
    let ts = tile_size as int;
    lemma_pixel_in_grid(px, render.0, tile_size);
    lemma_pixel_in_grid(py, render.1, tile_size);
    bin::lemma_tile_number(px as int / ts, py as int / ts, tiles_x);
    lemma_pixel_in_grid(px, rect.2, tile_size);
    lemma_pixel_in_grid(py, rect.3, tile_size);
    vstd::arithmetic::div_mod::lemma_div_is_ordered(rect.0 as int, px as int, ts);
    vstd::arithmetic::div_mod::lemma_div_is_ordered(rect.1 as int, py as int, ts);
}

/// A triangle that may write a pixel belongs into the bin of the pixel's tile.
pub proof fn lemma_writer_belongs(
    tri: Tri,
    cull: u32,
    px: u32,
    py: u32,
    tiles: nat,
    tiles_x: u32,
    tile_size: u32,
    render: (u32, u32),
)
    requires
        tri.info == bin::info_of(tri.vertices, cull, render),
        bin::grid_covers(render, tiles, tiles_x, tile_size),
        px < render.0 <= i32::MAX,
        py < render.1 <= i32::MAX,
        may_write(tri, px, py),
    ensures
        bin::belongs(tri.info, tile_of(px, py, tiles_x, tile_size), tiles_x, tile_size),
{
    let v = tri.vertices;
    if !bin::any_needs_clip(v) {
        lemma_covered_in_bounds(bin::xs(v), bin::ys(v), px, py, render);
        lemma_rect_reaches(tri.info.bounds->0, px, py, tiles, tiles_x, tile_size, render);
    }
}

/// The triangles that may write a pixel, as its tile sees them, are those of the
/// frame in draw order: none is missing and none has moved. The grid and its tile
/// size do not appear in what the pixel sees.
pub proof fn law_a_pixel_sees_its_triangles_in_draw_order(
    draws: Seq<DrawItem<'_>>,
    render: (u32, u32),
    px: u32,
    py: u32,
    tiles: nat,
    tiles_x: u32,
    tile_size: u32,
)
    requires
        bin::frame_fits(draws),
        bin::grid_covers(render, tiles, tiles_x, tile_size),
        px < render.0 <= i32::MAX,
        py < render.1 <= i32::MAX,
    ensures
        tile::tile_triangles(
            draws,
            render,
            tile_of(px, py, tiles_x, tile_size),
            tiles_x,
            tile_size,
        ).filter(|tri: Tri| may_write(tri, px, py)) == bin::frame_triangles(draws, render).filter(
            |tri: Tri| may_write(tri, px, py),
        ),
{
    let tris = bin::frame_triangles(draws, render);
    let tile = tile_of(px, py, tiles_x, tile_size);
    let wide = |tri: Tri| bin::belongs(tri.info, tile, tiles_x, tile_size);
    let narrow = |tri: Tri| may_write(tri, px, py);
    assert forall|i: int| 0 <= i < tris.len() && narrow(tris[i]) implies wide(#[trigger] tris[i]) by {
        let (d, t) = bin::lemma_frame_triangle(draws, render, i);
        lemma_writer_belongs(
            tris[i],
            draws[d].pipeline.cull,
            px,
            py,
            tiles,
            tiles_x,
            tile_size,
            render,
        );
    }
    crate::seqs::lemma_filter_narrows(tris, wide, narrow);
}

/// The job of a triangle in a rect lists a pixel of the rect exactly when the
/// triangle covers it: cutting the triangle to its bounds and to the rect loses
/// no pixel and adds none.
pub proof fn law_a_job_lists_what_its_triangle_covers(
    work: TriJob,
    x: [i32; 3],
    y: [i32; 3],
    cull: u32,
    rect: (u32, u32, u32, u32),
    render: (u32, u32),
    px: u32,
    py: u32,
)
    requires
        work.wf(),
        Some(work.rect) == job::job_rect(x, y, cull, rect, render),
        work.flip == (fixed::signed_area2(x, y) < 0),
        work.setup.x@ == job::wound(x, work.flip)@,
        work.setup.y@ == job::wound(y, work.flip)@,
        inside(rect, px, py),
        px < render.0 <= i32::MAX,
        py < render.1 <= i32::MAX,
    ensures
        work.covered().contains((px, py)) <==> covers_sample(
            x,
            y,
            job::centre(px as int),
            job::centre(py as int),
        ),
{
    let pixels = job::pixels_of(work.rect);
    let keep = |p: (u32, u32)| work.covers_pixel(p.0 as int, p.1 as int);
    lemma_setup_covers(work.setup, x, y, job::centre(px as int), job::centre(py as int));
    if covers_sample(x, y, job::centre(px as int), job::centre(py as int)) {
        lemma_covered_in_bounds(x, y, px, py, render);
        job::lemma_pixel_index(work.rect, px, py);
        let k = (py - work.rect.1) * (work.rect.2 - work.rect.0) + (px - work.rect.0);
        pixels.lemma_filter_contains(keep, k);
    }
    if work.covered().contains((px, py)) {
        let j = choose|j: int| 0 <= j < work.covered().len() && work.covered()[j] == (px, py);
        let i = crate::seqs::lemma_filter_member(pixels, keep, j);
    }
}

/// Writes to pixel `(px, py)`.
pub open spec fn at_pixel<W>(px: u32, py: u32) -> spec_fn((u32, u32, W)) -> bool {
    |w: (u32, u32, W)| w.0 == px && w.1 == py
}

/// What a run over `order` writes to pixel `(px, py)`: what each tile writes
/// there, one tile after the other.
pub open spec fn history<W>(
    order: Seq<int>,
    writes: spec_fn(int) -> Seq<(u32, u32, W)>,
    px: u32,
    py: u32,
) -> Seq<(u32, u32, W)>
    decreases order.len(),
{
    if order.len() == 0 {
        Seq::empty()
    } else {
        history(order.drop_last(), writes, px, py) + writes(order.last()).filter(at_pixel(px, py))
    }
}

/// A tile writes its own pixels only.
pub open spec fn stays_inside<W>(
    writes: spec_fn(int) -> Seq<(u32, u32, W)>,
    tiles_x: u32,
    tile_size: u32,
    render: (u32, u32),
) -> bool {
    forall|t: int, k: int|
        0 <= k < writes(t).len() ==> {
            let w = #[trigger] writes(t)[k];
            tile::tile_rect(t, tiles_x, tile_size, render) matches Some(rect) && inside(
                rect,
                w.0,
                w.1,
            )
        }
}

/// Whatever order the tiles are rendered in, a pixel's history is what its own
/// tile writes there, so any two runs over the tiles agree on every pixel.
pub proof fn law_the_order_of_tiles_does_not_matter<W>(
    order: Seq<int>,
    writes: spec_fn(int) -> Seq<(u32, u32, W)>,
    px: u32,
    py: u32,
    tiles: nat,
    tiles_x: u32,
    tile_size: u32,
    render: (u32, u32),
)
    requires
        bin::grid_covers(render, tiles, tiles_x, tile_size),
        px < render.0,
        py < render.1,
        stays_inside(writes, tiles_x, tile_size, render),
        order.no_duplicates(),
        forall|t: int| order.contains(t) <==> 0 <= t < tiles,
    ensures
        history(order, writes, px, py) == writes(tile_of(px, py, tiles_x, tile_size)).filter(
            at_pixel(px, py),
        ),
{
    assert forall|i: int| 0 <= i < order.len() implies 0 <= #[trigger] order[i] < tiles by {
        assert(order.contains(order[i]));
    }
    lemma_history(order, writes, px, py, tiles, tiles_x, tile_size, render);
    assert(tiles > 0) by {
        let ts = tile_size as int;
        lemma_pixel_in_grid(py, render.1, tile_size);
        assert(((render.1 + ts - 1) / ts) * tiles_x > 0) by (nonlinear_arith)
            requires
                (render.1 + ts - 1) / ts > 0,
                tiles_x > 0;
    }
    law_a_pixel_has_one_tile(px, py, 0, tiles, tiles_x, tile_size, render);
    assert(order.contains(tile_of(px, py, tiles_x, tile_size)));
}

proof fn lemma_history<W>(
    order: Seq<int>,
    writes: spec_fn(int) -> Seq<(u32, u32, W)>,
    px: u32,
    py: u32,
    tiles: nat,
    tiles_x: u32,
    tile_size: u32,
    render: (u32, u32),
)
    requires
        bin::grid_covers(render, tiles, tiles_x, tile_size),
        px < render.0,
        py < render.1,
        stays_inside(writes, tiles_x, tile_size, render),
        order.no_duplicates(),
        forall|i: int| 0 <= i < order.len() ==> 0 <= #[trigger] order[i] < tiles,
    ensures
        history(order, writes, px, py) == if order.contains(
            tile_of(px, py, tiles_x, tile_size),
        ) {
            writes(tile_of(px, py, tiles_x, tile_size)).filter(at_pixel(px, py))
        } else {
            Seq::empty()
        },
    decreases order.len(),
{
    let home = tile_of(px, py, tiles_x, tile_size);
    let here = at_pixel::<W>(px, py);
    if order.len() > 0 {
        let before = order.drop_last();
        let last = order.last();
        assert forall|i: int| 0 <= i < before.len() implies 0 <= #[trigger] before[i] < tiles by {
            assert(before[i] == order[i]);
        }
        lemma_history(before, writes, px, py, tiles, tiles_x, tile_size, render);
        assert(order[order.len() - 1] == last);
        law_a_pixel_has_one_tile(px, py, last, tiles, tiles_x, tile_size, render);
        if last == home {
            assert(!before.contains(home)) by {
                if before.contains(home) {
                    let i = choose|i: int| 0 <= i < before.len() && before[i] == home;
                    assert(order[i] == order[order.len() - 1]);
                }
            }
            assert(order.contains(home));
            assert(history(order, writes, px, py) =~= writes(home).filter(here));
        } else {
            assert(writes(last).filter(here) =~= Seq::empty()) by {
                if writes(last).filter(here).len() > 0 {
                    let i = crate::seqs::lemma_filter_member(writes(last), here, 0);
                    assert(writes(last)[i].0 == px);
                }
            }
            assert(order.contains(home) == before.contains(home)) by {
                if order.contains(home) {
                    let i = choose|i: int| 0 <= i < order.len() && order[i] == home;
                    assert(before[i] == home);
                }
                if before.contains(home) {
                    let i = choose|i: int| 0 <= i < before.len() && before[i] == home;
                    assert(order[i] == home);
                }
            }
            assert(history(order, writes, px, py) =~= history(before, writes, px, py));
        }
    }
}

/// What each tile writes to a pixel: nothing where the pixel is not its own, else
/// the triangles of its bin that may write there, in the bin's order.
pub open spec fn tile_writes(
    draws: Seq<DrawItem<'_>>,
    render: (u32, u32),
    tiles_x: u32,
    tile_size: u32,
    px: u32,
    py: u32,
) -> spec_fn(int) -> Seq<(u32, u32, Tri)> {
    |t: int|
        match tile::tile_rect(t, tiles_x, tile_size, render) {
            Some(rect) if inside(rect, px, py) => tile::tile_triangles(
                draws,
                render,
                t,
                tiles_x,
                tile_size,
            ).filter(|tri: Tri| may_write(tri, px, py)).map_values(|tri: Tri| (px, py, tri)),
            _ => Seq::empty(),
        }
}

/// What a frame writes to a pixel: its triangles that may, in draw order.
pub open spec fn frame_writes(
    draws: Seq<DrawItem<'_>>,
    render: (u32, u32),
    px: u32,
    py: u32,
) -> Seq<(u32, u32, Tri)> {
    bin::frame_triangles(draws, render).filter(|tri: Tri| may_write(tri, px, py)).map_values(
        |tri: Tri| (px, py, tri),
    )
}

/// A run over every tile of a grid, in any order, writes to a pixel what the frame
/// writes there.
pub proof fn law_a_run_writes_the_frame(
    draws: Seq<DrawItem<'_>>,
    render: (u32, u32),
    px: u32,
    py: u32,
    order: Seq<int>,
    tiles: nat,
    tiles_x: u32,
    tile_size: u32,
)
    requires
        bin::frame_fits(draws),
        bin::grid_covers(render, tiles, tiles_x, tile_size),
        px < render.0 <= i32::MAX,
        py < render.1 <= i32::MAX,
        order.no_duplicates(),
        forall|t: int| order.contains(t) <==> 0 <= t < tiles,
    ensures
        history(order, tile_writes(draws, render, tiles_x, tile_size, px, py), px, py)
            == frame_writes(draws, render, px, py),
{
    let writes = tile_writes(draws, render, tiles_x, tile_size, px, py);
    let home = tile_of(px, py, tiles_x, tile_size);
    let here = at_pixel::<Tri>(px, py);
    assert(stays_inside(writes, tiles_x, tile_size, render));
    law_the_order_of_tiles_does_not_matter(
        order,
        writes,
        px,
        py,
        tiles,
        tiles_x,
        tile_size,
        render,
    );
    lemma_home(px, py, tiles, tiles_x, tile_size, render);
    law_a_pixel_sees_its_triangles_in_draw_order(
        draws,
        render,
        px,
        py,
        tiles,
        tiles_x,
        tile_size,
    );
    let all = writes(home);
    assert(all =~= frame_writes(draws, render, px, py));
    assert forall|i: int| 0 <= i < all.len() implies here(#[trigger] all[i]) by {}
    crate::seqs::lemma_filter_all(all, here);
}

/// The pixel's tile is one of the grid's and holds the pixel.
proof fn lemma_home(
    px: u32,
    py: u32,
    tiles: nat,
    tiles_x: u32,
    tile_size: u32,
    render: (u32, u32),
)
    requires
        bin::grid_covers(render, tiles, tiles_x, tile_size),
        px < render.0,
        py < render.1,
    ensures
        tile::tile_rect(tile_of(px, py, tiles_x, tile_size), tiles_x, tile_size, render) matches Some(
            rect,
        ) && inside(rect, px, py),
{
    assert(tiles > 0) by {
        let ts = tile_size as int;
        lemma_pixel_in_grid(py, render.1, tile_size);
        assert(((render.1 + ts - 1) / ts) * tiles_x > 0) by (nonlinear_arith)
            requires
                (render.1 + ts - 1) / ts > 0,
                tiles_x > 0;
    }
    law_a_pixel_has_one_tile(px, py, 0, tiles, tiles_x, tile_size, render);
    law_a_pixel_has_one_tile(
        px,
        py,
        tile_of(px, py, tiles_x, tile_size),
        tiles,
        tiles_x,
        tile_size,
        render,
    );
}

/// A grid of tiles and the order in which they are rendered.
pub struct Course {
    pub order: Seq<int>,
    pub tiles: nat,
    pub tiles_x: u32,
    pub tile_size: u32,
}

impl Course {
    /// The grid covers the rendered area, and every tile is rendered once.
    pub open spec fn renders(self, area: (u32, u32)) -> bool {
        &&& bin::grid_covers(area, self.tiles, self.tiles_x, self.tile_size)
        &&& self.order.no_duplicates()
        &&& forall|t: int| self.order.contains(t) <==> 0 <= t < self.tiles
    }
}

/// Neither the number of workers nor the tile size changes a frame: whatever the
/// grids, and whatever order the workers take the tiles in, the same triangles are
/// written to a pixel in the same order.
pub proof fn law_neither_workers_nor_tiles_change_a_pixel(
    draws: Seq<DrawItem<'_>>,
    render: (u32, u32),
    px: u32,
    py: u32,
    a: Course,
    b: Course,
)
    requires
        bin::frame_fits(draws),
        px < render.0 <= i32::MAX,
        py < render.1 <= i32::MAX,
        a.renders(render),
        b.renders(render),
    ensures
        history(a.order, tile_writes(draws, render, a.tiles_x, a.tile_size, px, py), px, py)
            == history(b.order, tile_writes(draws, render, b.tiles_x, b.tile_size, px, py), px, py),
{
    law_a_run_writes_the_frame(
        draws,
        render,
        px,
        py,
        a.order,
        a.tiles,
        a.tiles_x,
        a.tile_size,
    );
    law_a_run_writes_the_frame(
        draws,
        render,
        px,
        py,
        b.order,
        b.tiles,
        b.tiles_x,
        b.tile_size,
    );
}

} // verus!
