//! Binning: which triangles each tile sees, and in what order.
//!
//! A two-pass counting sort over the frame's triangles, exactly like a hardware
//! tiler: count per tile, prefix-sum, place. Placement appends to a tile's range
//! in triangle order, so the sequence a tile sees is a subsequence of the frame's
//! draw order.
use crate::error::{Code, Error};
use crate::host_vec::HostVec;
use crate::num;
use crate::raster::fixed;
use crate::raster::fixed::Setup;
use crate::raster::job;
use crate::raster::job::culls;
use crate::raster::{PipelineState, ShaderRef};
use vstd::prelude::*;

verus! {

/// A vertex as the binner sees it: transformed, divided by `w` and snapped to
/// the rendered viewport's subpixels.
#[derive(Clone, Copy, Debug, PartialEq, Eq, Structural)]
pub struct ScreenVertex {
    /// The vertex lies outside the clip volume. Its position is not read, and
    /// every triangle with such a vertex is clipped.
    pub needs_clip: bool,
    pub x: i32,
    pub y: i32,
}

/// One draw call: vertices, an optional index buffer, and state.
#[derive(Clone, Copy, Debug)]
pub struct DrawItem<'a> {
    pub vertices: &'a [ScreenVertex],
    pub indices: Option<&'a [u32]>,
    pub pipeline: PipelineState,
    pub shader: ShaderRef,
    /// Left out of the cached static cascade.
    pub dynamic: bool,
    pub casts_shadow: bool,
}

impl<'a> DrawItem<'a> {
    /// How many indices the draw has; without an index buffer, one per vertex.
    pub open spec fn index_count(self) -> nat {
        match self.indices {
            Some(i) => i@.len(),
            None => self.vertices@.len(),
        }
    }

    /// Index `k` of the draw, counted from its own first vertex.
    pub open spec fn index_at(self, k: int) -> int {
        match self.indices {
            Some(i) => i@[k] as int,
            None => k,
        }
    }
}

/// The vertices of all draws, one after the other.
pub open spec fn flat_vertices(draws: Seq<DrawItem<'_>>) -> Seq<ScreenVertex>
    decreases draws.len(),
{
    if draws.len() == 0 {
        Seq::empty()
    } else {
        flat_vertices(draws.drop_last()) + draws.last().vertices@
    }
}

/// The indices of all draws, one after the other, counted from the first vertex
/// of the frame.
pub open spec fn flat_indices(draws: Seq<DrawItem<'_>>) -> Seq<int>
    decreases draws.len(),
{
    if draws.len() == 0 {
        Seq::empty()
    } else {
        let base = flat_vertices(draws.drop_last()).len();
        flat_indices(draws.drop_last()) + Seq::new(
            draws.last().index_count(),
            |k: int| draws.last().index_at(k) + base,
        )
    }
}

/// The frame is small enough for its tables and counters, which are `u32`.
pub open spec fn frame_fits(draws: Seq<DrawItem<'_>>) -> bool {
    &&& draws.len() <= 0x7fff_ffff
    &&& flat_vertices(draws).len() <= u32::MAX
    &&& flat_indices(draws).len() <= u32::MAX
    &&& forall|k: int|
        0 <= k < flat_indices(draws).len() ==> 0 <= #[trigger] flat_indices(draws)[k] <= u32::MAX
}

/// What the binning pass knows of one triangle.
#[derive(Clone, Copy, Debug, PartialEq, Eq)]
pub struct TriInfo {
    pub needs_clip: bool,
    pub culled: bool,
    pub degenerate: bool,
    pub bounds: Option<(u32, u32, u32, u32)>,
}

/// The x coordinates of three vertices.
pub open spec fn xs(v: [ScreenVertex; 3]) -> [i32; 3] {
    [v[0].x, v[1].x, v[2].x]
}

/// The y coordinates of three vertices.
pub open spec fn ys(v: [ScreenVertex; 3]) -> [i32; 3] {
    [v[0].y, v[1].y, v[2].y]
}

pub open spec fn any_needs_clip(v: [ScreenVertex; 3]) -> bool {
    v[0].needs_clip || v[1].needs_clip || v[2].needs_clip
}

/// Every sum the setup of this triangle forms is representable.
pub open spec fn triangle_fits(v: [ScreenVertex; 3], cull: u32) -> bool {
    any_needs_clip(v) || job::build_fits(xs(v), ys(v), cull)
}

/// The clipping decision, the culling decision and the bounds of one triangle.
pub open spec fn info_of(v: [ScreenVertex; 3], cull: u32, render: (u32, u32)) -> TriInfo {
    let area = fixed::signed_area2(xs(v), ys(v));
    if any_needs_clip(v) {
        TriInfo { needs_clip: true, culled: false, degenerate: false, bounds: None }
    } else if area == 0 {
        TriInfo { needs_clip: false, culled: true, degenerate: true, bounds: None }
    } else if job::is_culled(cull, area > 0) {
        TriInfo { needs_clip: false, culled: true, degenerate: false, bounds: None }
    } else {
        TriInfo {
            needs_clip: false,
            culled: false,
            degenerate: false,
            bounds: fixed::pixel_bounds(xs(v), ys(v), render.0, render.1),
        }
    }
}

/// Clipping decision, screen setup, culling decision and bounds for one triangle.
pub fn classify(v: &[ScreenVertex; 3], cull: u32, render: (u32, u32)) -> (info: TriInfo)
    requires
        triangle_fits(*v, cull),
    ensures
        info == info_of(*v, cull, render),
{
    if v[0].needs_clip || v[1].needs_clip || v[2].needs_clip {
        return TriInfo { needs_clip: true, culled: false, degenerate: false, bounds: None };
    }
    let setup = match Setup::new([v[0].x, v[1].x, v[2].x], [v[0].y, v[1].y, v[2].y]) {
        Some(s) => s,
        None => return TriInfo { needs_clip: false, culled: true, degenerate: true, bounds: None },
    };
    let culled = culls(cull, setup.front_facing());
    // Clamped to the render area, not the target: a triangle that lies outside
    // the viewport is binned nowhere, which is what confines a sub-rect pass.
    let bounds = if culled {
        None
    } else {
        setup.bounds(render.0, render.1)
    };
    TriInfo { needs_clip: false, culled, degenerate: false, bounds }
}

/// A triangle of a bin: its draw, and where its indices start in the frame's
/// flat index buffer.
#[derive(Clone, Copy, Debug, PartialEq, Eq, Structural)]
pub struct Entry {
    pub draw: u32,
    pub first_index: u32,
}

/// A triangle of the frame, in draw order.
pub struct Tri {
    pub entry: Entry,
    pub vertices: [ScreenVertex; 3],
    pub info: TriInfo,
}

/// Where the indices of draw `d` start in the flat index buffer.
pub open spec fn first_index(draws: Seq<DrawItem<'_>>, d: int) -> nat {
    flat_indices(draws.take(d)).len()
}

/// The vertices of the triangle whose indices start at `base`, or nothing when
/// one of the indices is past the end of the frame's vertices.
pub open spec fn corners(draws: Seq<DrawItem<'_>>, base: int) -> Option<[ScreenVertex; 3]> {
    let vertices = flat_vertices(draws);
    let indices = flat_indices(draws);
    if indices[base] < vertices.len() && indices[base + 1] < vertices.len() && indices[base + 2]
        < vertices.len() {
        Some([vertices[indices[base]], vertices[indices[base + 1]], vertices[indices[base + 2]]])
    } else {
        None
    }
}

/// Triangle `t` of draw `d`, if its indices are good.
pub open spec fn triangle_of(
    draws: Seq<DrawItem<'_>>,
    render: (u32, u32),
    d: int,
    t: int,
) -> Option<Tri> {
    let base = first_index(draws, d) + 3 * t;
    match corners(draws, base) {
        None => None,
        Some(v) => Some(
            Tri {
                entry: Entry { draw: d as u32, first_index: base as u32 },
                vertices: v,
                info: info_of(v, draws[d].pipeline.cull, render),
            },
        ),
    }
}

/// The triangles among the first `n` of draw `d`.
pub open spec fn draw_triangles(
    draws: Seq<DrawItem<'_>>,
    render: (u32, u32),
    d: int,
    n: nat,
) -> Seq<Tri>
    decreases n,
{
    if n == 0 {
        Seq::empty()
    } else {
        let before = draw_triangles(draws, render, d, (n - 1) as nat);
        match triangle_of(draws, render, d, n - 1) {
            None => before,
            Some(tri) => before.push(tri),
        }
    }
}

/// The triangles of the first `d` draws.
pub open spec fn triangles_before(draws: Seq<DrawItem<'_>>, render: (u32, u32), d: nat) -> Seq<Tri>
    decreases d,
{
    if d == 0 {
        Seq::empty()
    } else {
        triangles_before(draws, render, (d - 1) as nat) + draw_triangles(
            draws,
            render,
            d - 1,
            draws[d - 1].index_count() / 3,
        )
    }
}

/// The triangles of the frame, in draw order.
pub open spec fn frame_triangles(draws: Seq<DrawItem<'_>>, render: (u32, u32)) -> Seq<Tri> {
    triangles_before(draws, render, draws.len())
}

/// Every triangle of the frame can be set up.
pub open spec fn triangles_fit(draws: Seq<DrawItem<'_>>) -> bool {
    forall|d: int, t: int|
        #![trigger corners(draws, first_index(draws, d) + 3 * t)]
        0 <= d < draws.len() && 0 <= t < draws[d].index_count() / 3 ==> {
            corners(draws, first_index(draws, d) + 3 * t) matches Some(v) ==> triangle_fits(
                v,
                draws[d].pipeline.cull,
            )
        }
}

pub proof fn lemma_flat_prefix(draws: Seq<DrawItem<'_>>, d: int)
    requires
        0 <= d <= draws.len(),
    ensures
        flat_indices(draws.take(d)).len() <= flat_indices(draws).len(),
        flat_vertices(draws.take(d)).len() <= flat_vertices(draws).len(),
        flat_indices(draws).take(flat_indices(draws.take(d)).len() as int) == flat_indices(
            draws.take(d),
        ),
        flat_vertices(draws).take(flat_vertices(draws.take(d)).len() as int) == flat_vertices(
            draws.take(d),
        ),
    decreases draws.len(),
{
    if d == draws.len() {
        assert(draws.take(d) =~= draws);
    } else {
        lemma_flat_prefix(draws.drop_last(), d);
        assert(draws.drop_last().take(d) =~= draws.take(d));
        let (i, v) = (flat_indices(draws.take(d)), flat_vertices(draws.take(d)));
        assert(flat_indices(draws).take(i.len() as int) =~= flat_indices(draws.drop_last()).take(
            i.len() as int,
        ));
        assert(flat_vertices(draws).take(v.len() as int) =~= flat_vertices(draws.drop_last()).take(
            v.len() as int,
        ));
    }
}

/// One more draw: what it adds to the flat buffers.
pub proof fn lemma_flat_step(draws: Seq<DrawItem<'_>>, d: int)
    requires
        0 <= d < draws.len(),
    ensures
        flat_vertices(draws.take(d + 1)) == flat_vertices(draws.take(d)) + draws[d].vertices@,
        flat_indices(draws.take(d + 1)) == flat_indices(draws.take(d)) + Seq::new(
            draws[d].index_count(),
            |k: int| draws[d].index_at(k) + flat_vertices(draws.take(d)).len(),
        ),
        first_index(draws, d + 1) == first_index(draws, d) + draws[d].index_count(),
        first_index(draws, d + 1) <= flat_indices(draws).len(),
        flat_vertices(draws.take(d)).len() + draws[d].vertices@.len() <= flat_vertices(draws).len(),
{
    assert(draws.take(d + 1).drop_last() =~= draws.take(d));
    assert(draws.take(d + 1).last() == draws[d]);
    lemma_flat_prefix(draws, d + 1);
}

pub fn index_len(draw: &DrawItem<'_>) -> (n: usize)
    ensures
        n == draw.index_count(),
{
    match draw.indices {
        Some(i) => i.len(),
        None => draw.vertices.len(),
    }
}

/// Appends a draw's vertices. `true` when the reservation had to grow.
pub fn append_transformed(dst: &mut HostVec<ScreenVertex>, draw: &DrawItem<'_>) -> (r: Result<
    bool,
    Error,
>)
    requires
        old(dst).wf(),
        old(dst)@.len() + draw.vertices@.len() <= u32::MAX,
    ensures
        final(dst).wf(),
        old(dst)@.len() + draw.vertices@.len() <= old(dst).room() ==> r is Ok,
        r matches Ok(grew) ==> {
            &&& grew == (old(dst).room() < old(dst)@.len() + draw.vertices@.len())
            &&& final(dst)@ == old(dst)@ + draw.vertices@
            &&& final(dst).room() == num::imax(
                old(dst).room(),
                (old(dst)@.len() + draw.vertices@.len()) as int,
            )
        },
        r matches Err(e) ==> e.code == Code::OutOfMemory,
{
    let count: usize = draw.vertices.len();
    let grew = dst.capacity() < dst.len() + count;
    if grew {
        match dst.try_reserve(count) {
            Ok(()) => {},
            Err(e) => return Err(e),
        }
    }
    let mut i: usize = 0;
    while i < count
        invariant
            i <= count == draw.vertices@.len(),
            dst.wf(),
            dst@ == old(dst)@ + draw.vertices@.take(i as int),
            dst.room() == num::imax(old(dst).room(), (old(dst)@.len() + count) as int),
        decreases count - i,
    {
        match dst.push(draw.vertices[i]) {
            Ok(()) => {},
            Err(e) => return Err(e),
        }
        assert(old(dst)@ + draw.vertices@.take(i + 1) =~= (old(dst)@ + draw.vertices@.take(
            i as int,
        )).push(draw.vertices@[i as int]));
        i += 1;
    }
    assert(draw.vertices@.take(i as int) =~= draw.vertices@);
    Ok(grew)
}

/// `values` are the numbers `want`.
pub open spec fn holds(values: Seq<u32>, want: Seq<int>) -> bool {
    &&& values.len() == want.len()
    &&& forall|k: int| 0 <= k < values.len() ==> #[trigger] values[k] == want[k]
}

/// Appends a draw's indices, counted from `vertex_base`. `true` when the
/// reservation had to grow.
pub fn append_indices(
    dst: &mut HostVec<u32>,
    draw: &DrawItem<'_>,
    vertex_base: usize,
) -> (r: Result<bool, Error>)
    requires
        old(dst).wf(),
        old(dst)@.len() + draw.index_count() <= u32::MAX,
        forall|k: int|
            0 <= k < draw.index_count() ==> #[trigger] draw.index_at(k) + vertex_base <= u32::MAX,
    ensures
        final(dst).wf(),
        old(dst)@.len() + draw.index_count() <= old(dst).room() ==> r is Ok,
        r matches Ok(grew) ==> {
            &&& grew == (old(dst).room() < old(dst)@.len() + draw.index_count())
            &&& final(dst)@.len() == old(dst)@.len() + draw.index_count()
            &&& final(dst)@.take(old(dst)@.len() as int) == old(dst)@
            &&& forall|k: int|
                0 <= k < draw.index_count() ==> final(dst)@[old(dst)@.len() + k]
                    == #[trigger] draw.index_at(k) + vertex_base
            &&& final(dst).room() == num::imax(
                old(dst).room(),
                (old(dst)@.len() + draw.index_count()) as int,
            )
        },
        r matches Err(e) ==> e.code == Code::OutOfMemory,
{
    let count: usize = index_len(draw);
    let grew = dst.capacity() < dst.len() + count;
    if grew {
        match dst.try_reserve(count) {
            Ok(()) => {},
            Err(e) => return Err(e),
        }
    }
    let ghost had = dst@.len();
    let mut i: usize = 0;
    while i < count
        invariant
            i <= count == draw.index_count(),
            dst.wf(),
            had == old(dst)@.len(),
            dst@.len() == had + i,
            dst@.take(had as int) == old(dst)@,
            forall|k: int|
                0 <= k < draw.index_count() ==> #[trigger] draw.index_at(k) + vertex_base
                    <= u32::MAX,
            forall|k: int|
                0 <= k < i ==> dst@[had + k] == #[trigger] draw.index_at(k) + vertex_base,
            dst.room() == num::imax(old(dst).room(), (had + count) as int),
        decreases count - i,
    {
        let index: usize = match draw.indices {
            Some(idx) => idx[i] as usize,
            None => i,
        };
        assert(index == draw.index_at(i as int));
        let ghost before = dst@;
        match dst.push((index + vertex_base) as u32) {
            Ok(()) => {},
            Err(e) => return Err(e),
        }
        assert(dst@.take(had as int) =~= before.take(had as int));
        i += 1;
    }
    Ok(grew)
}

/// The pixel span `[a, b)` reaches into the tile column (or row) `t`.
pub open spec fn span_reaches(a: u32, b: u32, tile_size: u32, t: int) -> bool {
    a as int / tile_size as int <= t < (b + tile_size - 1) / tile_size as int
}

/// The pixel rect reaches into the tile.
pub open spec fn rect_reaches(
    rect: (u32, u32, u32, u32),
    tile: int,
    tiles_x: u32,
    tile_size: u32,
) -> bool {
    &&& span_reaches(rect.0, rect.2, tile_size, tile % tiles_x as int)
    &&& span_reaches(rect.1, rect.3, tile_size, tile / tiles_x as int)
}

/// The triangle belongs into the bin of the tile. One that has to be clipped
/// belongs into all of them.
pub open spec fn belongs(info: TriInfo, tile: int, tiles_x: u32, tile_size: u32) -> bool {
    !info.degenerate && !info.culled && (info.needs_clip || (info.bounds matches Some(rect)
        && rect_reaches(rect, tile, tiles_x, tile_size)))
}

/// The bin of a tile: the triangles that belong there, in draw order.
pub open spec fn bin_of(tris: Seq<Tri>, tile: int, tiles_x: u32, tile_size: u32) -> Seq<Entry> {
    tris.filter(|tri: Tri| belongs(tri.info, tile, tiles_x, tile_size)).map_values(
        |tri: Tri| tri.entry,
    )
}

/// The bins of all tiles.
pub open spec fn bins_of(tris: Seq<Tri>, tiles: nat, tiles_x: u32, tile_size: u32) -> Seq<
    Seq<Entry>,
> {
    Seq::new(tiles, |t: int| bin_of(tris, t, tiles_x, tile_size))
}

pub proof fn lemma_bin_push(tris: Seq<Tri>, tri: Tri, tile: int, tiles_x: u32, tile_size: u32)
    ensures
        bin_of(tris.push(tri), tile, tiles_x, tile_size) == if belongs(
            tri.info,
            tile,
            tiles_x,
            tile_size,
        ) {
            bin_of(tris, tile, tiles_x, tile_size).push(tri.entry)
        } else {
            bin_of(tris, tile, tiles_x, tile_size)
        },
{
    let p = |tri: Tri| belongs(tri.info, tile, tiles_x, tile_size);
    let f = |tri: Tri| tri.entry;
    crate::seqs::lemma_filter_push(tris, tri, p);
    if p(tri) {
        assert(tris.filter(p).push(tri).map_values(f) =~= tris.filter(p).map_values(f).push(
            tri.entry,
        ));
    }
}

pub proof fn lemma_bin_add(a: Seq<Tri>, b: Seq<Tri>, tile: int, tiles_x: u32, tile_size: u32)
    ensures
        bin_of(a + b, tile, tiles_x, tile_size) == bin_of(a, tile, tiles_x, tile_size) + bin_of(
            b,
            tile,
            tiles_x,
            tile_size,
        ),
{
    let p = |tri: Tri| belongs(tri.info, tile, tiles_x, tile_size);
    let f = |tri: Tri| tri.entry;
    Seq::filter_distributes_over_add(a, b, p);
    assert((a.filter(p) + b.filter(p)).map_values(f) =~= a.filter(p).map_values(f) + b.filter(
        p,
    ).map_values(f));
}

/// A grid of `tiles` tiles, `tiles_x` to a row, with a place for every pixel of
/// the rendered area.
pub open spec fn grid_covers(render: (u32, u32), tiles: nat, tiles_x: u32, tile_size: u32) -> bool {
    &&& tile_size > 0
    &&& tiles_x > 0
    &&& render.0 + tile_size - 1 <= u32::MAX
    &&& render.1 + tile_size - 1 <= u32::MAX
    &&& (render.0 + tile_size - 1) / tile_size as int <= tiles_x
    &&& ((render.1 + tile_size - 1) / tile_size as int) * tiles_x <= tiles
}

/// The rect lies in the rendered area.
pub open spec fn rect_within(rect: (u32, u32, u32, u32), render: (u32, u32)) -> bool {
    rect.2 <= render.0 && rect.3 <= render.1
}

/// The tile columns or rows that a pixel span reaches.
fn tile_span(a: u32, b: u32, tile_size: u32) -> (r: (u32, u32))
    requires
        tile_size > 0,
        b + tile_size - 1 <= u32::MAX,
    ensures
        r.0 == a as int / tile_size as int,
        r.1 == (b + tile_size - 1) / tile_size as int,
{
    (a / tile_size, (b + (tile_size - 1)) / tile_size)
}

/// A tile's column and row give its number, and its number gives them back.
pub proof fn lemma_tile_number(tx: int, ty: int, tiles_x: u32)
    requires
        0 <= tx < tiles_x,
        0 <= ty,
    ensures
        (ty * tiles_x + tx) % tiles_x as int == tx,
        (ty * tiles_x + tx) / tiles_x as int == ty,
        0 <= ty * tiles_x,
{
    vstd::arithmetic::div_mod::lemma_fundamental_div_mod_converse(
        ty * tiles_x + tx,
        tiles_x as int,
        ty,
        tx,
    );
    assert(0 <= ty * tiles_x) by (nonlinear_arith)
        requires
            0 <= ty,
            0 <= tiles_x;
}

pub proof fn lemma_tile_parts(tile: int, tiles_x: u32)
    requires
        tiles_x > 0,
        0 <= tile,
    ensures
        tile == (tile / tiles_x as int) * tiles_x + tile % tiles_x as int,
        0 <= tile % tiles_x as int,
        tile % (tiles_x as int) < tiles_x,
        0 <= tile / tiles_x as int,
{
    vstd::arithmetic::div_mod::lemma_fundamental_div_mod(tile, tiles_x as int);
    assert((tile / tiles_x as int) * tiles_x == tiles_x as int * (tile / tiles_x as int))
        by (nonlinear_arith);
    vstd::arithmetic::div_mod::lemma_div_pos_is_pos(tile, tiles_x as int);
}

/// The tiles of a rect lie in the grid.
proof fn lemma_rect_in_grid(
    rect: (u32, u32, u32, u32),
    render: (u32, u32),
    tiles: nat,
    tiles_x: u32,
    tile_size: u32,
)
    requires
        grid_covers(render, tiles, tiles_x, tile_size),
        rect_within(rect, render),
    ensures
        (rect.2 + tile_size - 1) / tile_size as int <= tiles_x,
        ((rect.3 + tile_size - 1) / tile_size as int) * tiles_x <= tiles,
        rect.2 + tile_size - 1 <= u32::MAX,
        rect.3 + tile_size - 1 <= u32::MAX,
{
    let ts = tile_size as int;
    vstd::arithmetic::div_mod::lemma_div_is_ordered(rect.2 + ts - 1, render.0 + ts - 1, ts);
    vstd::arithmetic::div_mod::lemma_div_is_ordered(rect.3 + ts - 1, render.1 + ts - 1, ts);
    let (a, b) = ((rect.3 + ts - 1) / ts, (render.1 + ts - 1) / ts);
    assert(a * tiles_x <= b * tiles_x) by (nonlinear_arith)
        requires
            a <= b,
            0 <= tiles_x;
}

/// Tile `tx` of row `ty` has a number below `tiles`.
proof fn lemma_tile_in_grid(tx: int, ty: int, rows: int, tiles: nat, tiles_x: u32)
    requires
        0 <= tx < tiles_x,
        0 <= ty < rows,
        rows * tiles_x <= tiles,
    ensures
        0 <= ty * tiles_x,
        0 <= ty * tiles_x + tx < tiles,
{
    assert(ty * tiles_x + tiles_x <= rows * tiles_x) by (nonlinear_arith)
        requires
            ty + 1 <= rows,
            0 <= tiles_x;
    lemma_tile_number(tx, ty, tiles_x);
}

/// One more triangle for every tile the rect reaches.
fn count_rect(
    counts: &mut HostVec<u32>,
    rect: (u32, u32, u32, u32),
    render: (u32, u32),
    tiles_x: u32,
    tile_size: u32,
)
    requires
        old(counts).wf(),
        grid_covers(render, old(counts)@.len(), tiles_x, tile_size),
        rect_within(rect, render),
        forall|t: int| 0 <= t < old(counts)@.len() ==> #[trigger] old(counts)@[t] < u32::MAX,
    ensures
        final(counts).wf(),
        final(counts).room() == old(counts).room(),
        final(counts)@.len() == old(counts)@.len(),
        forall|t: int|
            0 <= t < old(counts)@.len() ==> #[trigger] final(counts)@[t] == old(counts)@[t] + if (
            rect_reaches(rect, t, tiles_x, tile_size)) {
                1int
            } else {
                0int
            },
{
    proof {
        lemma_rect_in_grid(rect, render, counts@.len(), tiles_x, tile_size);
        assert forall|t: int| 0 <= t < counts@.len() implies 0 <= #[trigger] (t / tiles_x as int)
            && 0 <= t % (tiles_x as int) by {
            lemma_tile_parts(t, tiles_x);
        }
    }
    let (tx0, tx1): (u32, u32) = tile_span(rect.0, rect.2, tile_size);
    let (ty0, ty1): (u32, u32) = tile_span(rect.1, rect.3, tile_size);
    let mut ty: u32 = ty0;
    while ty < ty1
        invariant
            counts.wf(),
            counts.room() == old(counts).room(),
            counts@.len() == old(counts)@.len(),
            tiles_x > 0,
            tx1 <= tiles_x,
            ty1 * tiles_x <= counts@.len(),
            ty0 <= ty,
            ty <= ty1 || ty == ty0,
            forall|t: int| 0 <= t < old(counts)@.len() ==> #[trigger] old(counts)@[t] < u32::MAX,
            forall|t: int|
                0 <= t < old(counts)@.len() ==> #[trigger] counts@[t] == old(counts)@[t] + if (tx0
                    <= t % (tiles_x as int) < tx1 && ty0 <= t / (tiles_x as int) < ty) {
                    1int
                } else {
                    0int
                },
        decreases ty1 - ty,
    {
        let mut tx: u32 = tx0;
        while tx < tx1
            invariant
                counts.wf(),
                counts.room() == old(counts).room(),
                counts@.len() == old(counts)@.len(),
                tiles_x > 0,
                tx1 <= tiles_x,
                ty0 <= ty < ty1,
                ty1 * tiles_x <= counts@.len(),
                tx0 <= tx,
                tx <= tx1 || tx == tx0,
                forall|t: int|
                    0 <= t < old(counts)@.len() ==> #[trigger] old(counts)@[t] < u32::MAX,
                forall|t: int|
                    0 <= t < old(counts)@.len() ==> #[trigger] counts@[t] == old(counts)@[t] + if (
                    tx0 <= t % (tiles_x as int) < tx1 && ty0 <= t / (tiles_x as int) < ty) {
                        1int
                    } else if tx0 <= t % (tiles_x as int) < tx && t / (tiles_x as int) == ty {
                        1int
                    } else {
                        0int
                    },
            decreases tx1 - tx,
        {
            proof {
                lemma_tile_in_grid(tx as int, ty as int, ty1 as int, counts@.len(), tiles_x);
                lemma_tile_number(tx as int, ty as int, tiles_x);
            }
            let tile: usize = (ty as usize) * (tiles_x as usize) + (tx as usize);
            let ghost before = counts@;
            counts.set(tile, counts.get(tile).saturating_add(1));
            assert forall|t: int| 0 <= t < old(counts)@.len() implies #[trigger] counts@[t] == old(
                counts,
            )@[t] + if (tx0 <= t % (tiles_x as int) < tx1 && ty0 <= t / (tiles_x as int) < ty) {
                1int
            } else if tx0 <= t % (tiles_x as int) < tx + 1 && t / (tiles_x as int) == ty {
                1int
            } else {
                0int
            } by {
                lemma_tile_parts(t, tiles_x);
                assert(before[t] == before[t]);
            }
            tx += 1;
        }
        ty += 1;
    }
}

/// One more triangle for every tile it belongs to.
fn count_triangle(
    counts: &mut HostVec<u32>,
    info: &TriInfo,
    render: (u32, u32),
    tiles_x: u32,
    tile_size: u32,
)
    requires
        old(counts).wf(),
        grid_covers(render, old(counts)@.len(), tiles_x, tile_size),
        info.bounds matches Some(rect) ==> rect_within(rect, render),
        forall|t: int| 0 <= t < old(counts)@.len() ==> #[trigger] old(counts)@[t] < u32::MAX,
    ensures
        final(counts).wf(),
        final(counts).room() == old(counts).room(),
        final(counts)@.len() == old(counts)@.len(),
        forall|t: int|
            0 <= t < old(counts)@.len() ==> #[trigger] final(counts)@[t] == old(counts)@[t] + if (
            belongs(*info, t, tiles_x, tile_size)) {
                1int
            } else {
                0int
            },
{
    if info.culled || info.degenerate {
        return;
    }
    if info.needs_clip {
        let tiles: usize = counts.len();
        let mut tile: usize = 0;
        while tile < tiles
            invariant
                counts.wf(),
                counts.room() == old(counts).room(),
                tiles == counts@.len() == old(counts)@.len(),
                tile <= tiles,
                forall|t: int|
                    0 <= t < old(counts)@.len() ==> #[trigger] old(counts)@[t] < u32::MAX,
                forall|t: int|
                    0 <= t < tiles ==> #[trigger] counts@[t] == old(counts)@[t] + if t < tile {
                        1int
                    } else {
                        0int
                    },
            decreases tiles - tile,
        {
            counts.set(tile, counts.get(tile).saturating_add(1));
            tile += 1;
        }
    } else if let Some(rect) = info.bounds {
        count_rect(counts, rect, render, tiles_x, tile_size);
    }
}

/// The bounds of a triangle lie in the rendered area.
proof fn lemma_bounds_within(v: [ScreenVertex; 3], cull: u32, render: (u32, u32))
    ensures
        info_of(v, cull, render).bounds matches Some(rect) ==> rect_within(rect, render),
{
}

/// Triangle `t` of a draw whose indices start at `first`: its vertices, or
/// nothing when an index is past the end of the frame's vertices.
pub fn fetch(xform: &[ScreenVertex], indices: &[u32], base: usize) -> (r: Option<[ScreenVertex; 3]>)
    requires
        base + 2 < indices@.len(),
    ensures
        r matches Some(v) ==> {
            &&& indices@[base as int] < xform@.len()
            &&& indices@[base + 1] < xform@.len()
            &&& indices@[base + 2] < xform@.len()
            &&& v@ == seq![
                xform@[indices@[base as int] as int],
                xform@[indices@[base + 1] as int],
                xform@[indices@[base + 2] as int],
            ]
        },
        r is None ==> {
            ||| indices@[base as int] >= xform@.len()
            ||| indices@[base + 1] >= xform@.len()
            ||| indices@[base + 2] >= xform@.len()
        },
{
    let i0: usize = indices[base] as usize;
    let i1: usize = indices[base + 1] as usize;
    let i2: usize = indices[base + 2] as usize;
    if i0 >= xform.len() || i1 >= xform.len() || i2 >= xform.len() {
        return None;
    }
    let v = [xform[i0], xform[i1], xform[i2]];
    assert(v@ =~= seq![xform@[i0 as int], xform@[i1 as int], xform@[i2 as int]]);
    Some(v)
}

/// The frame's tables hold the draws, and everything in them can be set up.
pub open spec fn tables_hold(
    draws: Seq<DrawItem<'_>>,
    xform: Seq<ScreenVertex>,
    indices: Seq<u32>,
) -> bool {
    &&& frame_fits(draws)
    &&& triangles_fit(draws)
    &&& xform == flat_vertices(draws)
    &&& holds(indices, flat_indices(draws))
}

pub proof fn lemma_triangle_bound(draws: Seq<DrawItem<'_>>, render: (u32, u32), d: int, n: nat)
    requires
        0 <= d <= draws.len(),
        d < draws.len() ==> n <= draws[d].index_count() / 3,
        d == draws.len() ==> n == 0,
    ensures
        3 * (triangles_before(draws, render, d as nat) + draw_triangles(draws, render, d, n)).len()
            <= first_index(draws, d) + 3 * n,
        first_index(draws, d) + 3 * n <= flat_indices(draws).len(),
    decreases d, n,
{
    lemma_flat_prefix(draws, d);
    if n > 0 {
        lemma_triangle_bound(draws, render, d, (n - 1) as nat);
        lemma_flat_step(draws, d);
    } else if d > 0 {
        lemma_triangle_bound(draws, render, d - 1, draws[d - 1].index_count() / 3);
        lemma_flat_step(draws, d - 1);
    } else {
        assert(draws.take(0) =~= Seq::empty());
    }
}

/// Looks up and classifies triangle `t` of draw `d`.
fn visit(
    draws: &[DrawItem<'_>],
    xform: &[ScreenVertex],
    indices: &[u32],
    render: (u32, u32),
    d: usize,
    t: usize,
    base: usize,
) -> (r: Option<TriInfo>)
    requires
        tables_hold(draws@, xform@, indices@),
        d < draws@.len(),
        t < draws@[d as int].index_count() / 3,
        base == first_index(draws@, d as int) + 3 * t,
    ensures
        base <= u32::MAX,
        r is Some == triangle_of(draws@, render, d as int, t as int) is Some,
        r matches Some(info) ==> {
            &&& info == (triangle_of(draws@, render, d as int, t as int)->0).info
            &&& info.bounds matches Some(rect) ==> rect_within(rect, render)
        },
{
    proof {
        lemma_triangle_bound(draws@, render, d as int, (t + 1) as nat);
    }
    match fetch(xform, indices, base) {
        None => None,
        Some(v) => {
            let ghost w = corners(draws@, base as int)->0;
            assert(v@ =~= w@);
            let info = classify(&v, draws[d].pipeline.cull, render);
            proof {
                lemma_bounds_within(v, draws@[d as int].pipeline.cull, render);
            }
            Some(info)
        },
    }
}

/// Triangles that drop out before binning, and those that need the clipper.
#[derive(Clone, Copy, Debug, PartialEq, Eq, Structural)]
pub struct Tally {
    pub culled: u32,
    pub clipped: u32,
    pub degenerate: u32,
}

pub open spec fn degenerate_of(tris: Seq<Tri>) -> nat {
    tris.filter(|tri: Tri| tri.info.degenerate).len()
}

/// Culled for facing the wrong way; degenerate triangles are counted apart.
pub open spec fn culled_of(tris: Seq<Tri>) -> nat {
    tris.filter(|tri: Tri| tri.info.culled && !tri.info.degenerate).len()
}

pub open spec fn clipped_of(tris: Seq<Tri>) -> nat {
    tris.filter(
        |tri: Tri| tri.info.needs_clip && !tri.info.culled && !tri.info.degenerate,
    ).len()
}

impl Tally {
    pub open spec fn counts(self, tris: Seq<Tri>) -> bool {
        &&& self.culled == culled_of(tris)
        &&& self.clipped == clipped_of(tris)
        &&& self.degenerate == degenerate_of(tris)
    }

    fn add(&mut self, info: &TriInfo, Ghost(tris): Ghost<Seq<Tri>>, Ghost(tri): Ghost<Tri>)
        requires
            old(self).counts(tris),
            tri.info == *info,
            tris.len() < u32::MAX,
        ensures
            final(self).counts(tris.push(tri)),
    {
        proof {
            let degenerate = |tri: Tri| tri.info.degenerate;
            let culled = |tri: Tri| tri.info.culled && !tri.info.degenerate;
            let clipped = |tri: Tri|
                tri.info.needs_clip && !tri.info.culled && !tri.info.degenerate;
            crate::seqs::lemma_filter_push(tris, tri, degenerate);
            crate::seqs::lemma_filter_push(tris, tri, culled);
            crate::seqs::lemma_filter_push(tris, tri, clipped);
            tris.lemma_filter_len(degenerate);
            tris.lemma_filter_len(culled);
            tris.lemma_filter_len(clipped);
        }
        if info.degenerate {
            self.degenerate = self.degenerate + 1;
        } else if info.culled {
            self.culled = self.culled + 1;
        } else if info.needs_clip {
            self.clipped = self.clipped + 1;
        }
    }
}

/// The counts are the sizes of the bins.
pub open spec fn sizes_of(counts: Seq<u32>, bins: Seq<Seq<Entry>>) -> bool {
    &&& counts.len() == bins.len()
    &&& forall|t: int| 0 <= t < counts.len() ==> #[trigger] counts[t] == bins[t].len()
}

/// The first pass: how many triangles does each tile see?
pub fn count_bins(
    draws: &[DrawItem<'_>],
    xform: &[ScreenVertex],
    indices: &[u32],
    render: (u32, u32),
    tiles_x: u32,
    tile_size: u32,
    counts: &mut HostVec<u32>,
) -> (tally: Tally)
    requires
        tables_hold(draws@, xform@, indices@),
        old(counts).wf(),
        grid_covers(render, old(counts)@.len(), tiles_x, tile_size),
        forall|t: int| 0 <= t < old(counts)@.len() ==> #[trigger] old(counts)@[t] == 0,
    ensures
        final(counts).wf(),
        final(counts).room() == old(counts).room(),
        final(counts)@.len() == old(counts)@.len(),
        tally.counts(frame_triangles(draws@, render)),
        sizes_of(
            final(counts)@,
            bins_of(frame_triangles(draws@, render), old(counts)@.len(), tiles_x, tile_size),
        ),
{
    let ghost tiles = counts@.len();
    let mut tally = Tally { culled: 0, clipped: 0, degenerate: 0 };
    let ghost mut seen: Seq<Tri> = Seq::empty();
    let mut first: usize = 0;
    let mut d: usize = 0;
    proof {
        reveal(Seq::filter);
        assert(draws@.take(0) =~= Seq::empty());
        assert(counts@.len() == bins_of(seen, tiles, tiles_x, tile_size).len());
    }
    while d < draws.len()
        invariant
            tables_hold(draws@, xform@, indices@),
            counts.wf(),
            counts.room() == old(counts).room(),
            counts@.len() == tiles,
            tiles == old(counts)@.len(),
            grid_covers(render, tiles, tiles_x, tile_size),
            d <= draws@.len(),
            first == first_index(draws@, d as int),
            seen == triangles_before(draws@, render, d as nat),
            tally.counts(seen),
            sizes_of(counts@, bins_of(seen, tiles, tiles_x, tile_size)),
        decreases draws@.len() - d,
    {
        let n: usize = index_len(&draws[d]) / 3;
        let mut t: usize = 0;
        assert(seen =~= triangles_before(draws@, render, d as nat) + draw_triangles(
            draws@,
            render,
            d as int,
            0,
        ));
        while t < n
            invariant
                tables_hold(draws@, xform@, indices@),
                counts.wf(),
                counts.room() == old(counts).room(),
                counts@.len() == tiles,
                grid_covers(render, tiles, tiles_x, tile_size),
                d < draws@.len(),
                first == first_index(draws@, d as int),
                n == draws@[d as int].index_count() / 3,
                t <= n,
                seen == triangles_before(draws@, render, d as nat) + draw_triangles(
                    draws@,
                    render,
                    d as int,
                    t as nat,
                ),
                tally.counts(seen),
                sizes_of(counts@, bins_of(seen, tiles, tiles_x, tile_size)),
            decreases n - t,
        {
            proof {
                lemma_triangle_bound(draws@, render, d as int, (t + 1) as nat);
                lemma_triangle_bound(draws@, render, d as int, t as nat);
            }
            match visit(draws, xform, indices, render, d, t, first + 3 * t) {
                None => {},
                Some(info) => {
                    let ghost tri = triangle_of(draws@, render, d as int, t as int)->0;
                    let ghost before = counts@;
                    proof {
                        lemma_bins_bounded(seen, tiles, tiles_x, tile_size);
                        assert forall|u: int| 0 <= u < tiles implies #[trigger] counts@[u]
                            < u32::MAX by {
                            assert(counts@[u] == bins_of(seen, tiles, tiles_x, tile_size)[u].len());
                        }
                    }
                    tally.add(&info, Ghost(seen), Ghost(tri));
                    count_triangle(counts, &info, render, tiles_x, tile_size);
                    proof {
                        assert forall|u: int| 0 <= u < tiles implies #[trigger] counts@[u]
                            == bins_of(seen.push(tri), tiles, tiles_x, tile_size)[u].len() by {
                            lemma_bin_push(seen, tri, u, tiles_x, tile_size);
                            assert(before[u] == bins_of(
                                seen,
                                tiles,
                                tiles_x,
                                tile_size,
                            )[u].len());
                        }
                        let part = draw_triangles(draws@, render, d as int, t as nat);
                        assert(triangles_before(draws@, render, d as nat) + part.push(tri)
                            =~= seen.push(tri));
                        seen = seen.push(tri);
                    }
                },
            }
            t += 1;
        }
        proof {
            lemma_flat_step(draws@, d as int);
        }
        first = first + index_len(&draws[d]);
        d += 1;
    }
    tally
}

proof fn lemma_bins_bounded(tris: Seq<Tri>, tiles: nat, tiles_x: u32, tile_size: u32)
    ensures
        forall|t: int|
            0 <= t < tiles ==> (#[trigger] bins_of(tris, tiles, tiles_x, tile_size)[t]).len()
                <= tris.len(),
{
    assert forall|t: int| 0 <= t < tiles implies (#[trigger] bins_of(
        tris,
        tiles,
        tiles_x,
        tile_size,
    )[t]).len() <= tris.len() by {
        tris.lemma_filter_len(|tri: Tri| belongs(tri.info, t, tiles_x, tile_size));
    }
}

pub open spec fn total_of(counts: Seq<u32>) -> int
    decreases counts.len(),
{
    if counts.len() == 0 {
        0
    } else {
        total_of(counts.drop_last()) + counts.last()
    }
}

/// Where the range of tile `t` starts: after the ranges of the tiles before it,
/// or past the end once the sum no longer fits its table.
pub open spec fn start_of(counts: Seq<u32>, t: int) -> int {
    num::imin(total_of(counts.take(t)), u32::MAX as int)
}

/// How many entries the bins of these sizes are given room for.
pub open spec fn entries_for(counts: Seq<u32>) -> int {
    num::imin(total_of(counts), u32::MAX as int)
}

pub open spec fn starts_follow(starts: Seq<u32>, counts: Seq<u32>) -> bool {
    &&& starts.len() == counts.len()
    &&& forall|t: int| 0 <= t < starts.len() ==> #[trigger] starts[t] == start_of(counts, t)
}

/// The prefix sum: where each tile's range starts, and how many entries there
/// are in all.
pub fn prefix_sum(
    counts: &HostVec<u32>,
    starts: &mut HostVec<u32>,
    cursors: &mut HostVec<u32>,
) -> (total: u32)
    requires
        old(starts).wf(),
        old(cursors).wf(),
        old(starts)@.len() == counts@.len(),
        old(cursors)@.len() == counts@.len(),
    ensures
        final(starts).wf(),
        final(starts).room() == old(starts).room(),
        starts_follow(final(starts)@, counts@),
        final(cursors).wf(),
        final(cursors).room() == old(cursors).room(),
        final(cursors)@ == final(starts)@,
        total == entries_for(counts@),
{
    let tiles: usize = counts.len();
    let mut running: u32 = 0;
    let mut t: usize = 0;
    while t < tiles
        invariant
            t <= tiles == counts@.len(),
            starts.wf(),
            starts.room() == old(starts).room(),
            cursors.wf(),
            cursors.room() == old(cursors).room(),
            starts@.len() == tiles,
            cursors@.len() == tiles,
            running == start_of(counts@, t as int),
            forall|u: int| 0 <= u < t ==> #[trigger] starts@[u] == start_of(counts@, u),
            forall|u: int| 0 <= u < t ==> #[trigger] cursors@[u] == starts@[u],
        decreases tiles - t,
    {
        assert(counts@.take(t + 1).drop_last() =~= counts@.take(t as int));
        starts.set(t, running);
        cursors.set(t, running);
        running = running.saturating_add(counts.get(t));
        t += 1;
    }
    assert(counts@.take(tiles as int) =~= counts@);
    running
}

proof fn lemma_total_grows(counts: Seq<u32>, t: int, u: int)
    requires
        0 <= t < u <= counts.len(),
    ensures
        0 <= total_of(counts.take(t)),
        total_of(counts.take(t)) + counts[t] <= total_of(counts.take(u)),
    decreases u,
{
    assert(counts.take(u).drop_last() =~= counts.take(u - 1));
    if t < u - 1 {
        lemma_total_grows(counts, t, u - 1);
    } else if t > 0 {
        lemma_total_grows(counts, t - 1, t);
    }
}

/// The tiles' ranges come one after the other, up to the end of the entries.
pub open spec fn ranges_apart(starts: Seq<u32>, counts: Seq<u32>, len: int) -> bool {
    &&& starts.len() == counts.len()
    &&& forall|t: int| 0 <= t < starts.len() ==> #[trigger] starts[t] <= len
    &&& forall|t: int, u: int|
        0 <= t < u < starts.len() ==> #[trigger] starts[t] + counts[t] <= #[trigger] starts[u]
            || starts[u] == len
}

pub proof fn lemma_ranges_apart(starts: Seq<u32>, counts: Seq<u32>)
    requires
        starts_follow(starts, counts),
    ensures
        ranges_apart(starts, counts, entries_for(counts)),
{
    assert(counts.take(counts.len() as int) =~= counts);
    assert forall|t: int| 0 <= t < starts.len() implies #[trigger] starts[t] <= entries_for(
        counts,
    ) by {
        lemma_total_grows(counts, t, counts.len() as int);
    }
    assert forall|t: int, u: int| 0 <= t < u < starts.len() implies #[trigger] starts[t]
        + counts[t] <= #[trigger] starts[u] || starts[u] == entries_for(counts) by {
        lemma_total_grows(counts, t, u);
        lemma_total_grows(counts, u, counts.len() as int);
    }
}

/// The entries of each bin stand in its tile's range, in order, as far as there
/// is room, and the cursors stand behind them.
pub open spec fn placed(
    starts: Seq<u32>,
    cursors: Seq<u32>,
    entries: Seq<Entry>,
    bins: Seq<Seq<Entry>>,
) -> bool {
    &&& starts.len() == bins.len()
    &&& cursors.len() == bins.len()
    &&& forall|t: int|
        0 <= t < bins.len() ==> #[trigger] cursors[t] == num::imin(
            (starts[t] + bins[t].len()) as int,
            entries.len() as int,
        )
    &&& stand(starts, entries, bins)
}

/// The entries of each bin stand in its tile's range, in order, as far as there
/// is room.
pub open spec fn stand(starts: Seq<u32>, entries: Seq<Entry>, bins: Seq<Seq<Entry>>) -> bool {
    forall|t: int, j: int|
        0 <= t < bins.len() && 0 <= j < bins[t].len() && starts[t] + j < entries.len()
            ==> entries[starts[t] + j] == #[trigger] bins[t][j]
}

/// Appends one entry to the range of `tile`, if there is room.
fn place_one(
    starts: &[u32],
    counts: &[u32],
    cursors: &mut HostVec<u32>,
    entries: &mut HostVec<Entry>,
    tile: usize,
    entry: Entry,
    Ghost(bins): Ghost<Seq<Seq<Entry>>>,
)
    requires
        old(cursors).wf(),
        old(entries).wf(),
        old(entries)@.len() <= u32::MAX,
        placed(starts@, old(cursors)@, old(entries)@, bins),
        ranges_apart(starts@, counts@, old(entries)@.len() as int),
        forall|t: int| 0 <= t < bins.len() ==> (#[trigger] bins[t]).len() <= counts@[t],
        tile < bins.len(),
        bins[tile as int].len() < counts@[tile as int],
    ensures
        final(cursors).wf(),
        final(cursors).room() == old(cursors).room(),
        final(entries).wf(),
        final(entries).room() == old(entries).room(),
        final(entries)@.len() == old(entries)@.len(),
        placed(
            starts@,
            final(cursors)@,
            final(entries)@,
            bins.update(tile as int, bins[tile as int].push(entry)),
        ),
{
    let slot: usize = cursors.get(tile) as usize;
    let ghost next = bins.update(tile as int, bins[tile as int].push(entry));
    if slot < entries.len() {
        let ghost before = entries@;
        entries.set(slot, entry);
        cursors.set(tile, cursors.get(tile) + 1);
        proof {
            assert forall|t: int, j: int|
                0 <= t < next.len() && 0 <= j < next[t].len() && starts@[t] + j
                    < entries@.len() implies entries@[starts@[t] + j] == #[trigger] next[t][j] by {
                if t == tile {
                    if j < bins[t].len() {
                        assert(before[starts@[t] + j] == bins[t][j]);
                    }
                } else {
                    assert(before[starts@[t] + j] == bins[t][j]);
                    assert(bins[t].len() <= counts@[t]);
                    if t < tile {
                        assert(starts@[t] + counts@[t] <= starts@[tile as int] || starts@[tile as int]
                            == entries@.len());
                    } else {
                        assert(starts@[tile as int] + counts@[tile as int] <= starts@[t] || starts@[t]
                            == entries@.len());
                    }
                }
            }
        }
    } else {
        proof {
            assert forall|t: int, j: int|
                0 <= t < next.len() && 0 <= j < next[t].len() && starts@[t] + j
                    < entries@.len() implies entries@[starts@[t] + j] == #[trigger] next[t][j] by {
                assert(j < bins[t].len() ==> bins[t][j] == next[t][j]);
            }
        }
    }
}

/// The bins, with `entry` appended to those the rect reaches.
spec fn bins_with_rect(
    bins: Seq<Seq<Entry>>,
    entry: Entry,
    rect: (u32, u32, u32, u32),
    tiles_x: u32,
    tile_size: u32,
) -> Seq<Seq<Entry>> {
    Seq::new(
        bins.len(),
        |t: int|
            if rect_reaches(rect, t, tiles_x, tile_size) {
                bins[t].push(entry)
            } else {
                bins[t]
            },
    )
}

/// Appends the entry to the range of every tile the rect reaches.
fn place_rect(
    starts: &[u32],
    counts: &[u32],
    cursors: &mut HostVec<u32>,
    entries: &mut HostVec<Entry>,
    rect: (u32, u32, u32, u32),
    render: (u32, u32),
    tiles_x: u32,
    tile_size: u32,
    entry: Entry,
    Ghost(bins): Ghost<Seq<Seq<Entry>>>,
)
    requires
        old(cursors).wf(),
        old(entries).wf(),
        old(entries)@.len() <= u32::MAX,
        placed(starts@, old(cursors)@, old(entries)@, bins),
        ranges_apart(starts@, counts@, old(entries)@.len() as int),
        grid_covers(render, bins.len(), tiles_x, tile_size),
        rect_within(rect, render),
        forall|t: int|
            0 <= t < bins.len() ==> (#[trigger] bins[t]).len() + if rect_reaches(
                rect,
                t,
                tiles_x,
                tile_size,
            ) {
                1int
            } else {
                0int
            } <= counts@[t],
    ensures
        final(cursors).wf(),
        final(cursors).room() == old(cursors).room(),
        final(entries).wf(),
        final(entries).room() == old(entries).room(),
        final(entries)@.len() == old(entries)@.len(),
        placed(
            starts@,
            final(cursors)@,
            final(entries)@,
            bins_with_rect(bins, entry, rect, tiles_x, tile_size),
        ),
{
    proof {
        lemma_rect_in_grid(rect, render, bins.len(), tiles_x, tile_size);
    }
    let (tx0, tx1): (u32, u32) = tile_span(rect.0, rect.2, tile_size);
    let (ty0, ty1): (u32, u32) = tile_span(rect.1, rect.3, tile_size);
    let ghost mut cur = bins;
    let mut ty: u32 = ty0;
    while ty < ty1
        invariant
            cursors.wf(),
            cursors.room() == old(cursors).room(),
            entries.wf(),
            entries.room() == old(entries).room(),
            entries@.len() == old(entries)@.len(),
            entries@.len() <= u32::MAX,
            ranges_apart(starts@, counts@, entries@.len() as int),
            tiles_x > 0,
            tx0 == rect.0 as int / tile_size as int,
            tx1 == (rect.2 + tile_size - 1) / tile_size as int,
            ty0 == rect.1 as int / tile_size as int,
            ty1 == (rect.3 + tile_size - 1) / tile_size as int,
            tx1 <= tiles_x,
            ty1 * tiles_x <= bins.len(),
            ty0 <= ty,
            ty <= ty1 || ty == ty0,
            placed(starts@, cursors@, entries@, cur),
            cur.len() == bins.len(),
            forall|t: int|
                0 <= t < bins.len() ==> (#[trigger] bins[t]).len() + if rect_reaches(
                    rect,
                    t,
                    tiles_x,
                    tile_size,
                ) {
                    1int
                } else {
                    0int
                } <= counts@[t],
            forall|t: int|
                0 <= t < bins.len() ==> #[trigger] cur[t] == if (tx0 <= t % (tiles_x as int) < tx1
                    && ty0 <= t / (tiles_x as int) < ty) {
                    bins[t].push(entry)
                } else {
                    bins[t]
                },
        decreases ty1 - ty,
    {
        let mut tx: u32 = tx0;
        while tx < tx1
            invariant
                cursors.wf(),
                cursors.room() == old(cursors).room(),
                entries.wf(),
                entries.room() == old(entries).room(),
                entries@.len() == old(entries)@.len(),
                entries@.len() <= u32::MAX,
                ranges_apart(starts@, counts@, entries@.len() as int),
                tiles_x > 0,
                tx0 == rect.0 as int / tile_size as int,
                tx1 == (rect.2 + tile_size - 1) / tile_size as int,
                ty0 == rect.1 as int / tile_size as int,
                ty1 == (rect.3 + tile_size - 1) / tile_size as int,
                tx1 <= tiles_x,
                ty1 * tiles_x <= bins.len(),
                ty0 <= ty < ty1,
                tx0 <= tx,
                tx <= tx1 || tx == tx0,
                placed(starts@, cursors@, entries@, cur),
                cur.len() == bins.len(),
                forall|t: int|
                    0 <= t < bins.len() ==> (#[trigger] bins[t]).len() + if rect_reaches(
                        rect,
                        t,
                        tiles_x,
                        tile_size,
                    ) {
                        1int
                    } else {
                        0int
                    } <= counts@[t],
                forall|t: int|
                    0 <= t < bins.len() ==> #[trigger] cur[t] == if (tx0 <= t % (tiles_x as int)
                        < tx1 && ty0 <= t / (tiles_x as int) < ty) || (tx0 <= t % (tiles_x as int)
                        < tx && t / (tiles_x as int) == ty) {
                        bins[t].push(entry)
                    } else {
                        bins[t]
                    },
            decreases tx1 - tx,
        {
            let ghost tile = ty * tiles_x + tx;
            proof {
                lemma_tile_in_grid(tx as int, ty as int, ty1 as int, bins.len(), tiles_x);
                lemma_tile_number(tx as int, ty as int, tiles_x);
                assert(bins[tile].len() + 1 <= counts@[tile]);
                assert(cur[tile] == bins[tile]);
                assert forall|t: int| 0 <= t < cur.len() implies (#[trigger] cur[t]).len()
                    <= counts@[t] by {
                    assert(bins[t].len() <= counts@[t]);
                }
            }
            place_one(
                starts,
                counts,
                cursors,
                entries,
                (ty as usize) * (tiles_x as usize) + (tx as usize),
                entry,
                Ghost(cur),
            );
            proof {
                let next = cur.update(tile, cur[tile].push(entry));
                assert forall|t: int| 0 <= t < bins.len() implies #[trigger] next[t] == if (tx0
                    <= t % (tiles_x as int) < tx1 && ty0 <= t / (tiles_x as int) < ty) || (tx0 <= t
                    % (tiles_x as int) < tx + 1 && t / (tiles_x as int) == ty) {
                    bins[t].push(entry)
                } else {
                    bins[t]
                } by {
                    lemma_tile_parts(t, tiles_x);
                    assert(cur[t] == cur[t]);
                }
                cur = next;
            }
            tx += 1;
        }
        ty += 1;
    }
    assert(cur =~= bins_with_rect(bins, entry, rect, tiles_x, tile_size));
}

/// Appends the triangle to the range of every tile it belongs to.
fn place_triangle(
    starts: &[u32],
    counts: &[u32],
    cursors: &mut HostVec<u32>,
    entries: &mut HostVec<Entry>,
    info: &TriInfo,
    render: (u32, u32),
    tiles_x: u32,
    tile_size: u32,
    entry: Entry,
    Ghost(tris): Ghost<Seq<Tri>>,
    Ghost(tri): Ghost<Tri>,
)
    requires
        old(cursors).wf(),
        old(entries).wf(),
        old(entries)@.len() <= u32::MAX,
        tri.info == *info,
        tri.entry == entry,
        placed(
            starts@,
            old(cursors)@,
            old(entries)@,
            bins_of(tris, counts@.len(), tiles_x, tile_size),
        ),
        ranges_apart(starts@, counts@, old(entries)@.len() as int),
        grid_covers(render, counts@.len(), tiles_x, tile_size),
        info.bounds matches Some(rect) ==> rect_within(rect, render),
        forall|t: int|
            0 <= t < counts@.len() ==> bin_of(tris.push(tri), t, tiles_x, tile_size).len()
                <= #[trigger] counts@[t],
    ensures
        final(cursors).wf(),
        final(cursors).room() == old(cursors).room(),
        final(entries).wf(),
        final(entries).room() == old(entries).room(),
        final(entries)@.len() == old(entries)@.len(),
        placed(
            starts@,
            final(cursors)@,
            final(entries)@,
            bins_of(tris.push(tri), counts@.len(), tiles_x, tile_size),
        ),
{
    let ghost tiles = counts@.len();
    let ghost bins = bins_of(tris, tiles, tiles_x, tile_size);
    let ghost goal = bins_of(tris.push(tri), tiles, tiles_x, tile_size);
    proof {
        assert forall|t: int| 0 <= t < tiles implies #[trigger] goal[t] == if belongs(
            *info,
            t,
            tiles_x,
            tile_size,
        ) {
            bins[t].push(entry)
        } else {
            bins[t]
        } by {
            lemma_bin_push(tris, tri, t, tiles_x, tile_size);
        }
        assert forall|t: int| 0 <= t < tiles implies (#[trigger] goal[t]).len() <= counts@[t] by {
            assert(counts@[t] == counts@[t]);
        }
    }
    if info.culled || info.degenerate {
        assert(goal =~= bins);
        return;
    }
    if info.needs_clip {
        let ghost mut cur = bins;
        let count: usize = cursors.len();
        let mut tile: usize = 0;
        while tile < count
            invariant
                tile <= count == tiles,
                tiles == counts@.len(),
                cursors.wf(),
                cursors.room() == old(cursors).room(),
                entries.wf(),
                entries.room() == old(entries).room(),
                entries@.len() == old(entries)@.len(),
                entries@.len() <= u32::MAX,
                ranges_apart(starts@, counts@, entries@.len() as int),
                placed(starts@, cursors@, entries@, cur),
                bins.len() == tiles,
                cur.len() == tiles,
                goal.len() == tiles,
                forall|t: int| 0 <= t < tiles ==> #[trigger] goal[t] == bins[t].push(entry),
                forall|t: int| 0 <= t < tiles ==> (#[trigger] goal[t]).len() <= counts@[t],
                forall|t: int|
                    0 <= t < tiles ==> #[trigger] cur[t] == if t < tile {
                        goal[t]
                    } else {
                        bins[t]
                    },
            decreases count - tile,
        {
            proof {
                assert(goal[tile as int].len() <= counts@[tile as int]);
                assert(cur[tile as int] == bins[tile as int]);
                assert forall|t: int| 0 <= t < cur.len() implies (#[trigger] cur[t]).len()
                    <= counts@[t] by {
                    assert(goal[t].len() <= counts@[t]);
                }
            }
            place_one(starts, counts, cursors, entries, tile, entry, Ghost(cur));
            proof {
                cur = cur.update(tile as int, cur[tile as int].push(entry));
            }
            tile += 1;
        }
        assert(cur =~= goal);
    } else if let Some(rect) = info.bounds {
        proof {
            assert forall|t: int| 0 <= t < bins.len() implies (#[trigger] bins[t]).len()
                + if rect_reaches(rect, t, tiles_x, tile_size) {
                1int
            } else {
                0int
            } <= counts@[t] by {
                assert(goal[t].len() <= counts@[t]);
            }
            assert(goal =~= bins_with_rect(bins, entry, rect, tiles_x, tile_size));
        }
        place_rect(
            starts,
            counts,
            cursors,
            entries,
            rect,
            render,
            tiles_x,
            tile_size,
            entry,
            Ghost(bins),
        );
    } else {
        assert(goal =~= bins);
    }
}

/// What is seen so far is the beginning of the frame.
proof fn lemma_rest(
    draws: Seq<DrawItem<'_>>,
    render: (u32, u32),
    d: nat,
    n: nat,
) -> (rest: Seq<Tri>)
    requires
        d <= draws.len(),
        d < draws.len() ==> n <= draws[d as int].index_count() / 3,
        d == draws.len() ==> n == 0,
    ensures
        frame_triangles(draws, render) == triangles_before(draws, render, d) + draw_triangles(
            draws,
            render,
            d as int,
            n,
        ) + rest,
    decreases draws.len() - d, if d < draws.len() { draws[d as int].index_count() / 3 - n } else { 0 },
{
    let seen = triangles_before(draws, render, d) + draw_triangles(draws, render, d as int, n);
    if d == draws.len() {
        let rest = Seq::<Tri>::empty();
        assert(seen + rest =~= triangles_before(draws, render, d));
        rest
    } else if n == draws[d as int].index_count() / 3 {
        let rest = lemma_rest(draws, render, d + 1, 0);
        assert(triangles_before(draws, render, d + 1) + draw_triangles(
            draws,
            render,
            (d + 1) as int,
            0,
        ) =~= seen);
        rest
    } else {
        let rest = lemma_rest(draws, render, d, n + 1);
        match triangle_of(draws, render, d as int, n as int) {
            None => rest,
            Some(tri) => {
                let all = seq![tri] + rest;
                assert(triangles_before(draws, render, d) + draw_triangles(
                    draws,
                    render,
                    d as int,
                    n,
                ).push(tri) + rest =~= seen + all);
                all
            },
        }
    }
}

/// The bins of what is seen so far are no larger than the frame's.
proof fn lemma_bins_grow(
    draws: Seq<DrawItem<'_>>,
    render: (u32, u32),
    d: nat,
    n: nat,
    counts: Seq<u32>,
    tiles_x: u32,
    tile_size: u32,
)
    requires
        d < draws.len(),
        n <= draws[d as int].index_count() / 3,
        sizes_of(
            counts,
            bins_of(frame_triangles(draws, render), counts.len(), tiles_x, tile_size),
        ),
    ensures
        forall|t: int|
            0 <= t < counts.len() ==> bin_of(
                triangles_before(draws, render, d) + draw_triangles(draws, render, d as int, n),
                t,
                tiles_x,
                tile_size,
            ).len() <= #[trigger] counts[t],
{
    let seen = triangles_before(draws, render, d) + draw_triangles(draws, render, d as int, n);
    let rest = lemma_rest(draws, render, d, n);
    assert forall|t: int| 0 <= t < counts.len() implies bin_of(seen, t, tiles_x, tile_size).len()
        <= #[trigger] counts[t] by {
        lemma_bin_add(seen, rest, t, tiles_x, tile_size);
        assert(counts[t] == bins_of(
            frame_triangles(draws, render),
            counts.len(),
            tiles_x,
            tile_size,
        )[t].len());
    }
}

/// The second pass: place the entries. Same iteration order as the first, so a
/// tile's range is a stable subsequence of the frame's triangle order.
pub fn place_bins(
    draws: &[DrawItem<'_>],
    xform: &[ScreenVertex],
    indices: &[u32],
    render: (u32, u32),
    tiles_x: u32,
    tile_size: u32,
    starts: &[u32],
    counts: &[u32],
    cursors: &mut HostVec<u32>,
    entries: &mut HostVec<Entry>,
)
    requires
        tables_hold(draws@, xform@, indices@),
        grid_covers(render, counts@.len(), tiles_x, tile_size),
        sizes_of(
            counts@,
            bins_of(frame_triangles(draws@, render), counts@.len(), tiles_x, tile_size),
        ),
        starts_follow(starts@, counts@),
        old(cursors).wf(),
        old(cursors)@ == starts@,
        old(entries).wf(),
        old(entries)@.len() == entries_for(counts@),
    ensures
        final(cursors).wf(),
        final(cursors).room() == old(cursors).room(),
        final(entries).wf(),
        final(entries).room() == old(entries).room(),
        final(entries)@.len() == old(entries)@.len(),
        placed(
            starts@,
            final(cursors)@,
            final(entries)@,
            bins_of(frame_triangles(draws@, render), counts@.len(), tiles_x, tile_size),
        ),
{
    let ghost tiles = counts@.len();
    let ghost frame = frame_triangles(draws@, render);
    let ghost mut seen: Seq<Tri> = Seq::empty();
    let mut first: usize = 0;
    let mut d: usize = 0;
    proof {
        reveal(Seq::filter);
        lemma_ranges_apart(starts@, counts@);
        assert(draws@.take(0) =~= Seq::empty());
        let none = bins_of(seen, tiles, tiles_x, tile_size);
        assert forall|t: int| 0 <= t < tiles implies (#[trigger] none[t]).len() == 0 by {}
        assert forall|t: int| 0 <= t < tiles implies #[trigger] cursors@[t] == num::imin(
            (starts@[t] + none[t].len()) as int,
            entries@.len() as int,
        ) by {
            assert(starts@[t] <= entries@.len());
        }
    }
    while d < draws.len()
        invariant
            tables_hold(draws@, xform@, indices@),
            tiles == counts@.len(),
            grid_covers(render, tiles, tiles_x, tile_size),
            sizes_of(
                counts@,
                bins_of(frame_triangles(draws@, render), tiles, tiles_x, tile_size),
            ),
            ranges_apart(starts@, counts@, entries@.len() as int),
            cursors.wf(),
            cursors.room() == old(cursors).room(),
            entries.wf(),
            entries.room() == old(entries).room(),
            entries@.len() == old(entries)@.len(),
            entries@.len() <= u32::MAX,
            d <= draws@.len(),
            first == first_index(draws@, d as int),
            seen == triangles_before(draws@, render, d as nat),
            placed(starts@, cursors@, entries@, bins_of(seen, tiles, tiles_x, tile_size)),
        decreases draws@.len() - d,
    {
        let n: usize = index_len(&draws[d]) / 3;
        let mut t: usize = 0;
        assert(seen =~= triangles_before(draws@, render, d as nat) + draw_triangles(
            draws@,
            render,
            d as int,
            0,
        ));
        while t < n
            invariant
                tables_hold(draws@, xform@, indices@),
                tiles == counts@.len(),
                grid_covers(render, tiles, tiles_x, tile_size),
                sizes_of(
                    counts@,
                    bins_of(frame_triangles(draws@, render), tiles, tiles_x, tile_size),
                ),
                ranges_apart(starts@, counts@, entries@.len() as int),
                cursors.wf(),
                cursors.room() == old(cursors).room(),
                entries.wf(),
                entries.room() == old(entries).room(),
                entries@.len() == old(entries)@.len(),
                entries@.len() <= u32::MAX,
                d < draws@.len(),
                first == first_index(draws@, d as int),
                n == draws@[d as int].index_count() / 3,
                t <= n,
                seen == triangles_before(draws@, render, d as nat) + draw_triangles(
                    draws@,
                    render,
                    d as int,
                    t as nat,
                ),
                placed(starts@, cursors@, entries@, bins_of(seen, tiles, tiles_x, tile_size)),
            decreases n - t,
        {
            proof {
                lemma_triangle_bound(draws@, render, d as int, (t + 1) as nat);
            }
            let base: usize = first + 3 * t;
            match visit(draws, xform, indices, render, d, t, base) {
                None => {},
                Some(info) => {
                    let ghost tri = triangle_of(draws@, render, d as int, t as int)->0;
                    proof {
                        let part = draw_triangles(draws@, render, d as int, t as nat);
                        assert(triangles_before(draws@, render, d as nat) + part.push(tri)
                            =~= seen.push(tri));
                        lemma_bins_grow(
                            draws@,
                            render,
                            d as nat,
                            (t + 1) as nat,
                            counts@,
                            tiles_x,
                            tile_size,
                        );
                    }
                    place_triangle(
                        starts,
                        counts,
                        cursors,
                        entries,
                        &info,
                        render,
                        tiles_x,
                        tile_size,
                        Entry { draw: d as u32, first_index: base as u32 },
                        Ghost(seen),
                        Ghost(tri),
                    );
                    proof {
                        seen = seen.push(tri);
                    }
                },
            }
            t += 1;
        }
        proof {
            lemma_flat_step(draws@, d as int);
        }
        first = first + index_len(&draws[d]);
        d += 1;
    }
}

/// The sizes of the bins.
pub open spec fn bin_sizes(bins: Seq<Seq<Entry>>) -> Seq<u32> {
    bins.map_values(|b: Seq<Entry>| b.len() as u32)
}

/// Whole triangles in the draws, whatever becomes of them.
pub open spec fn total_triangles(draws: Seq<DrawItem<'_>>) -> int
    decreases draws.len(),
{
    if draws.len() == 0 {
        0
    } else {
        total_triangles(draws.drop_last()) + draws.last().index_count() / 3
    }
}

pub proof fn lemma_total_triangles(draws: Seq<DrawItem<'_>>)
    ensures
        0 <= 3 * total_triangles(draws) <= flat_indices(draws).len(),
    decreases draws.len(),
{
    if draws.len() > 0 {
        lemma_total_triangles(draws.drop_last());
    }
}

/// How often the vertex table has to grow for these draws when it starts out
/// with `room`: once for each draw that has vertices and ends past it.
pub open spec fn vertex_growths(draws: Seq<DrawItem<'_>>, room: int) -> int
    decreases draws.len(),
{
    if draws.len() == 0 {
        0
    } else {
        vertex_growths(draws.drop_last(), room) + if draws.last().vertices@.len() > 0 && room
            < flat_vertices(draws).len() {
            1int
        } else {
            0int
        }
    }
}

/// As [`vertex_growths`], for the index table.
pub open spec fn index_growths(draws: Seq<DrawItem<'_>>, room: int) -> int
    decreases draws.len(),
{
    if draws.len() == 0 {
        0
    } else {
        index_growths(draws.drop_last(), room) + if draws.last().index_count() > 0 && room
            < flat_indices(draws).len() {
            1int
        } else {
            0int
        }
    }
}

pub proof fn lemma_growths_bounded(draws: Seq<DrawItem<'_>>, room: int)
    ensures
        0 <= vertex_growths(draws, room) <= draws.len(),
        0 <= index_growths(draws, room) <= draws.len(),
        flat_vertices(draws).len() <= room ==> vertex_growths(draws, room) == 0,
        flat_indices(draws).len() <= room ==> index_growths(draws, room) == 0,
    decreases draws.len(),
{
    if draws.len() > 0 {
        lemma_growths_bounded(draws.drop_last(), room);
    }
}

/// `tri` is a whole triangle of the frame, as it was found there.
pub open spec fn is_frame_triangle(
    draws: Seq<DrawItem<'_>>,
    render: (u32, u32),
    d: int,
    t: int,
    tri: Tri,
) -> bool {
    &&& 0 <= d < draws.len()
    &&& 0 <= t < draws[d].index_count() / 3
    &&& triangle_of(draws, render, d, t) == Some(tri)
}

proof fn lemma_draw_triangle(
    draws: Seq<DrawItem<'_>>,
    render: (u32, u32),
    d: int,
    n: nat,
    i: int,
) -> (t: int)
    requires
        0 <= i < draw_triangles(draws, render, d, n).len(),
    ensures
        0 <= t < n,
        triangle_of(draws, render, d, t) == Some(draw_triangles(draws, render, d, n)[i]),
    decreases n,
{
    let before = draw_triangles(draws, render, d, (n - 1) as nat);
    if i < before.len() {
        lemma_draw_triangle(draws, render, d, (n - 1) as nat, i)
    } else {
        n - 1
    }
}

proof fn lemma_triangle_before(
    draws: Seq<DrawItem<'_>>,
    render: (u32, u32),
    n: nat,
    i: int,
) -> (r: (int, int))
    requires
        n <= draws.len(),
        0 <= i < triangles_before(draws, render, n).len(),
    ensures
        is_frame_triangle(draws, render, r.0, r.1, triangles_before(draws, render, n)[i]),
    decreases n,
{
    let before = triangles_before(draws, render, (n - 1) as nat);
    if i < before.len() {
        lemma_triangle_before(draws, render, (n - 1) as nat, i)
    } else {
        let t = lemma_draw_triangle(
            draws,
            render,
            n - 1,
            draws[n - 1].index_count() / 3,
            i - before.len(),
        );
        (n - 1, t)
    }
}

/// Every triangle of the frame is one of its draws' triangles.
pub proof fn lemma_frame_triangle(draws: Seq<DrawItem<'_>>, render: (u32, u32), i: int) -> (r: (
    int,
    int,
))
    requires
        frame_fits(draws),
        0 <= i < frame_triangles(draws, render).len(),
    ensures
        ({
            let tri = frame_triangles(draws, render)[i];
            &&& is_frame_triangle(draws, render, r.0, r.1, tri)
            &&& tri.entry.draw == r.0
            &&& tri.entry.first_index == first_index(draws, r.0) + 3 * r.1
            &&& tri.entry.first_index + 2 < flat_indices(draws).len()
            &&& corners(draws, tri.entry.first_index as int) == Some(tri.vertices)
            &&& tri.info == info_of(tri.vertices, draws[r.0].pipeline.cull, render)
        }),
{
    let (d, t) = lemma_triangle_before(draws, render, draws.len(), i);
    lemma_triangle_bound(draws, render, d, (t + 1) as nat);
    (d, t)
}

} // verus!
