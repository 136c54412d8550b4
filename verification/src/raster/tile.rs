//! The tiled rasteriser: bin, then raster, tile by tile.
//!
//! Tiles are independent, and within a tile the triangles keep their draw order,
//! so the frame is the same whatever order the tiles are rendered in, on however
//! many workers ([`crate::raster::determinism`]).
use crate::error::{Code, Error};
use crate::host_vec::HostVec;
use crate::num;
use crate::raster::bin;
use crate::raster::bin::{DrawItem, Entry, ScreenVertex, Tri};
use crate::raster::fixed;
use crate::raster::job;
use crate::raster::job::TriJob;
use vstd::prelude::*;

verus! {

#[derive(Clone, Copy, Debug, PartialEq, Eq, Structural)]
pub struct RasterConfig {
    pub tile_size: u32,
    pub worker_threads: u32,
    /// Keep the bin order fixed (the default). Off is an experiment, not a mode.
    pub deterministic_bins: bool,
    /// Force the scalar path even when vector units are available.
    pub scalar: bool,
}

impl Default for RasterConfig {
    fn default() -> (c: Self)
        ensures
            c.tile_size == 64,
            c.worker_threads == 1,
            c.deterministic_bins,
            !c.scalar,
    {
        RasterConfig { tile_size: 64, worker_threads: 1, deterministic_bins: true, scalar: false }
    }
}

#[derive(Clone, Copy, Debug, PartialEq, Eq, Structural)]
pub struct RasterStats {
    pub tiles_total: u32,
    pub tiles_rendered: u32,
    pub draws: u32,
    pub triangles_in: u32,
    pub triangles_binned: u32,
    pub triangles_culled: u32,
    pub triangles_clipped: u32,
    pub triangles_degenerate: u32,
    pub bin_entries: u32,
    pub pixels_tested: u64,
    pub pixels_shaded: u64,
    /// Times reserved storage had to grow inside the frame. 0 in steady state;
    /// counted rather than hidden.
    pub allocations_in_frame: u32,
    pub storage_bytes: u64,
    /// Highest number of entries in any single tile, for sizing the next frame's
    /// reservation.
    pub peak_tile_entries: u32,
}

impl RasterStats {
    /// Nothing counted yet.
    pub open spec fn zero() -> RasterStats {
        RasterStats {
            tiles_total: 0,
            tiles_rendered: 0,
            draws: 0,
            triangles_in: 0,
            triangles_binned: 0,
            triangles_culled: 0,
            triangles_clipped: 0,
            triangles_degenerate: 0,
            bin_entries: 0,
            pixels_tested: 0,
            pixels_shaded: 0,
            allocations_in_frame: 0,
            storage_bytes: 0,
            peak_tile_entries: 0,
        }
    }
}

impl Default for RasterStats {
    fn default() -> (s: Self)
        ensures
            s == RasterStats::zero(),
    {
        RasterStats {
            tiles_total: 0,
            tiles_rendered: 0,
            draws: 0,
            triangles_in: 0,
            triangles_binned: 0,
            triangles_culled: 0,
            triangles_clipped: 0,
            triangles_degenerate: 0,
            bin_entries: 0,
            pixels_tested: 0,
            pixels_shaded: 0,
            allocations_in_frame: 0,
            storage_bytes: 0,
            peak_tile_entries: 0,
        }
    }
}

/// Tiles along an axis of `pixels`: as many as it takes, none smaller than 8.
pub open spec fn tiles_along(pixels: u32, tile_size: u32) -> int {
    let tile = num::imax(tile_size as int, 8);
    (pixels + tile - 1) / tile
}

/// The rounding up in [`tile_grid`] is representable.
pub open spec fn grid_fits(width: u32, height: u32, tile_size: u32) -> bool {
    &&& width + num::imax(tile_size as int, 8) - 1 <= u32::MAX
    &&& height + num::imax(tile_size as int, 8) - 1 <= u32::MAX
}

/// The tile grid a target of this size produces at this tile size.
///
/// The grid sizes the per-tile tables, so everything that needs it asks here.
pub fn tile_grid(width: u32, height: u32, tile_size: u32) -> (r: (u32, u32))
    requires
        grid_fits(width, height, tile_size),
    ensures
        r.0 == tiles_along(width, tile_size),
        r.1 == tiles_along(height, tile_size),
{
    let tile: u32 = if tile_size < 8 {
        8
    } else {
        tile_size
    };
    ((width + (tile - 1)) / tile, (height + (tile - 1)) / tile)
}

pub fn tile_count(width: u32, height: u32, tile_size: u32) -> (r: u32)
    requires
        grid_fits(width, height, tile_size),
        tiles_along(width, tile_size) * tiles_along(height, tile_size) <= u32::MAX,
    ensures
        r == tiles_along(width, tile_size) * tiles_along(height, tile_size),
{
    let (x, y): (u32, u32) = tile_grid(width, height, tile_size);
    proof {
        num::lemma_product_is_nat(x as int, y as int);
    }
    x * y
}

/// The tile size a rasteriser works with: `wanted`, brought into 8 to 1024 and
/// rounded up to a power of two.
pub open spec fn tile_size_for(wanted: u32) -> u32 {
    if wanted <= 8 {
        8
    } else if wanted <= 16 {
        16
    } else if wanted <= 32 {
        32
    } else if wanted <= 64 {
        64
    } else if wanted <= 128 {
        128
    } else if wanted <= 256 {
        256
    } else if wanted <= 512 {
        512
    } else {
        1024
    }
}

fn round_tile_size(wanted: u32) -> (size: u32)
    ensures
        size == tile_size_for(wanted),
{
    let mut size: u32 = 8;
    while size < wanted && size < 1024
        invariant
            size == 8 || size == 16 || size == 32 || size == 64 || size == 128 || size == 256 || size
                == 512 || size == 1024,
            size == 8 || size / 2 < wanted,
        decreases 1024 - size,
    {
        size = size * 2;
    }
    size
}

/// The pixels of a tile: its square, cut down to the rendered area. Nothing when
/// the tile lies outside it.
pub open spec fn tile_rect(tile: int, tiles_x: u32, tile_size: u32, render: (u32, u32)) -> Option<
    (u32, u32, u32, u32),
> {
    let x0 = (tile % tiles_x as int) * tile_size;
    let y0 = (tile / tiles_x as int) * tile_size;
    let x1 = num::imin(x0 + tile_size, render.0 as int);
    let y1 = num::imin(y0 + tile_size, render.1 as int);
    if x0 >= x1 || y0 >= y1 {
        None
    } else {
        Some((x0 as u32, y0 as u32, x1 as u32, y1 as u32))
    }
}

/// How many of the first `tiles` tiles have pixels.
pub open spec fn tiles_with_pixels(
    tiles: nat,
    tiles_x: u32,
    tile_size: u32,
    render: (u32, u32),
) -> nat
    decreases tiles,
{
    if tiles == 0 {
        0
    } else {
        tiles_with_pixels((tiles - 1) as nat, tiles_x, tile_size, render) + if tile_rect(
            tiles - 1,
            tiles_x,
            tile_size,
            render,
        ) is Some {
            1nat
        } else {
            0nat
        }
    }
}

/// `peak` is the largest of the counts, or 0 when there are none.
pub open spec fn is_peak(counts: Seq<u32>, peak: u32) -> bool {
    &&& forall|t: int| 0 <= t < counts.len() ==> #[trigger] counts[t] <= peak
    &&& peak == 0 || exists|t: int| 0 <= t < counts.len() && #[trigger] counts[t] == peak
}

/// The rasteriser: the tables of one frame, kept from frame to frame.
pub struct Rasterizer {
    config: RasterConfig,
    xform: HostVec<ScreenVertex>,
    indices: HostVec<u32>,
    counts: HostVec<u32>,
    starts: HostVec<u32>,
    cursors: HostVec<u32>,
    entries: HostVec<Entry>,
    tiles_x: u32,
    tiles_y: u32,
    render: (u32, u32),
    stats: RasterStats,
}

impl Rasterizer {
    pub closed spec fn spec_config(&self) -> RasterConfig {
        self.config
    }

    pub closed spec fn spec_stats(&self) -> RasterStats {
        self.stats
    }

    /// Columns and rows of the tile grid.
    pub closed spec fn grid(&self) -> (u32, u32) {
        (self.tiles_x, self.tiles_y)
    }

    /// The rendered area of the last frame.
    pub closed spec fn area(&self) -> (u32, u32) {
        self.render
    }

    /// The frame's vertices.
    pub closed spec fn vertices(&self) -> Seq<ScreenVertex> {
        self.xform@
    }

    /// The frame's flat index buffer.
    pub closed spec fn flat(&self) -> Seq<u32> {
        self.indices@
    }

    /// The size of each tile's bin.
    pub closed spec fn sizes(&self) -> Seq<u32> {
        self.counts@
    }

    /// Where each tile's bin starts among the entries.
    pub closed spec fn ranges(&self) -> Seq<u32> {
        self.starts@
    }

    pub closed spec fn placed_entries(&self) -> Seq<Entry> {
        self.entries@
    }

    /// What the tables have room for: vertices, indices, entries and tiles.
    pub closed spec fn rooms(&self) -> (int, int, int, int) {
        (
            self.xform.room(),
            self.indices.room(),
            self.entries.room(),
            num::imin(self.counts.room(), num::imin(self.starts.room(), self.cursors.room())),
        )
    }

    /// The bytes all tables take.
    pub closed spec fn storage(&self) -> int {
        self.entries.size() + self.xform.size() + self.indices.size() + 3 * self.counts.size()
    }

    pub closed spec fn wf(&self) -> bool {
        &&& tile_size_for(self.config.tile_size) == self.config.tile_size
        &&& self.xform.wf()
        &&& self.indices.wf()
        &&& self.counts.wf()
        &&& self.starts.wf()
        &&& self.cursors.wf()
        &&& self.entries.wf()
    }

    /// A rasteriser with nothing reserved. The tile size is brought into 8 to
    /// 1024 and rounded up to a power of two.
    pub fn new(config: RasterConfig) -> (r: Self)
        ensures
            r.wf(),
            r.spec_config() == (RasterConfig { tile_size: tile_size_for(config.tile_size), ..config
            }),
            r.spec_stats() == RasterStats::zero(),
            r.grid() == (0u32, 0u32),
            r.rooms() == (0int, 0int, 0int, 0int),
    {
        let tile_size: u32 = round_tile_size(config.tile_size);
        Rasterizer {
            config: RasterConfig {
                tile_size,
                worker_threads: config.worker_threads,
                deterministic_bins: config.deterministic_bins,
                scalar: config.scalar,
            },
            xform: HostVec::new(),
            indices: HostVec::new(),
            counts: HostVec::new(),
            starts: HostVec::new(),
            cursors: HostVec::new(),
            entries: HostVec::new(),
            tiles_x: 0,
            tiles_y: 0,
            render: (0, 0),
            stats: RasterStats::default(),
        }
    }

    pub fn config(&self) -> (c: RasterConfig)
        ensures
            c == self.spec_config(),
    {
        self.config
    }

    /// Workers to render with: at least one.
    pub fn worker_threads(&self) -> (n: u32)
        ensures
            n == num::imax(self.spec_config().worker_threads as int, 1),
    {
        if self.config.worker_threads > 1 {
            self.config.worker_threads
        } else {
            1
        }
    }

    pub fn tile_size(&self) -> (n: u32)
        ensures
            n == self.spec_config().tile_size,
    {
        self.config.tile_size
    }

    pub fn stats(&self) -> (s: RasterStats)
        ensures
            s == self.spec_stats(),
    {
        self.stats
    }

    pub fn reset_stats(&mut self)
        requires
            old(self).wf(),
        ensures
            final(self).wf(),
            final(self).spec_stats() == RasterStats::zero(),
            final(self).spec_config() == old(self).spec_config(),
            final(self).grid() == old(self).grid(),
            final(self).rooms() == old(self).rooms(),
            final(self).vertices() == old(self).vertices(),
            final(self).flat() == old(self).flat(),
            final(self).sizes() == old(self).sizes(),
            final(self).ranges() == old(self).ranges(),
            final(self).placed_entries() == old(self).placed_entries(),
            final(self).area() == old(self).area(),
    {
        self.stats = RasterStats::default();
    }

    /// The bytes the tables have reserved, or the largest number there is for tables
    /// that no address space holds together.
    pub fn storage_bytes(&self) -> (n: u64)
        requires
            self.wf(),
        ensures
            n == num::imin(self.storage(), u64::MAX as int),
    {
        let entries: u128 = self.entries.bytes() as u128;
        let clip: u128 = self.xform.bytes() as u128;
        let indices: u128 = self.indices.bytes() as u128;
        let tiles: u128 = self.counts.bytes() as u128;
        let total: u128 = entries + clip + indices + 3 * tiles;
        if total < u64::MAX as u128 {
            total as u64
        } else {
            u64::MAX
        }
    }
}

/// The tiles of a target, and that there are not too many of them to number.
pub open spec fn target_fits(width: u32, height: u32, tile_size: u32) -> bool {
    &&& grid_fits(width, height, tile_size)
    &&& tiles_along(width, tile_size) * tiles_along(height, tile_size) <= u32::MAX
}

/// The bins of a frame.
pub open spec fn frame_bins(
    draws: Seq<DrawItem<'_>>,
    render: (u32, u32),
    grid: (u32, u32),
    tile_size: u32,
) -> Seq<Seq<Entry>> {
    bin::bins_of(bin::frame_triangles(draws, render), (grid.0 * grid.1) as nat, grid.0, tile_size)
}

/// The area a frame renders to.
pub open spec fn frame_area(width: u32, height: u32, viewport: (u32, u32)) -> (u32, u32) {
    (
        crate::raster::rendered_axis(viewport.0, width, width) as u32,
        crate::raster::rendered_axis(viewport.1, height, height) as u32,
    )
}

/// Tiles to reserve tables for: those of the grid, and at least one a side.
pub open spec fn table_size(grid: (u32, u32)) -> int {
    num::imax(grid.0 as int, 1) * num::imax(grid.1 as int, 1)
}

fn table_tiles(tiles_x: u32, tiles_y: u32) -> (n: usize)
    requires
        tiles_x * tiles_y <= u32::MAX,
    ensures
        n == table_size((tiles_x, tiles_y)),
{
    if tiles_x <= 1 {
        assert(1 * num::imax(tiles_y as int, 1) == num::imax(tiles_y as int, 1));
        return if tiles_y > 1 { tiles_y as usize } else { 1 };
    }
    if tiles_y <= 1 {
        assert(tiles_x * 1 == tiles_x);
        return tiles_x as usize;
    }
    proof {
        num::lemma_product_is_nat(tiles_x as int, tiles_y as int);
    }
    (tiles_x as usize) * (tiles_y as usize)
}

/// Entries to reserve for `indices` indices: one per triangle, plus slack for
/// triangles that bin into several tiles.
pub open spec fn entry_room(indices: int, tiles: int) -> int {
    num::imax(indices / 3, 64) + tiles
}

impl Rasterizer {
    /// The tables have room for a frame of this size.
    pub open spec fn has_room(
        &self,
        vertices: int,
        indices: int,
        entries: int,
        tiles: int,
    ) -> bool {
        let (v, i, e, t) = self.rooms();
        vertices <= v && indices <= i && entries <= e && tiles <= t
    }

    /// Reserves every buffer a frame needs.
    ///
    /// This is the only place the rasteriser has to allocate, and it is called
    /// at a frame boundary. Refused when the allocator refuses; a request the
    /// tables have room for is not one.
    pub fn prepare(
        &mut self,
        width: u32,
        height: u32,
        vertex_capacity: usize,
        index_capacity: usize,
    ) -> (r: Result<(), Error>)
        requires
            old(self).wf(),
            target_fits(width, height, old(self).spec_config().tile_size),
        ensures
            final(self).wf(),
            final(self).spec_config() == old(self).spec_config(),
            final(self).spec_stats() == old(self).spec_stats(),
            final(self).grid() == (
                tiles_along(width, old(self).spec_config().tile_size) as u32,
                tiles_along(height, old(self).spec_config().tile_size) as u32,
            ),
            old(self).has_room(
                num::imax(vertex_capacity as int, 3),
                num::imax(index_capacity as int, 3),
                entry_room(index_capacity as int, table_size(final(self).grid())),
                table_size(final(self).grid()),
            ) ==> r is Ok,
            r is Ok ==> {
                &&& final(self).rooms().0 == num::imax(
                    old(self).rooms().0,
                    num::imax(vertex_capacity as int, 3),
                )
                &&& final(self).rooms().1 == num::imax(
                    old(self).rooms().1,
                    num::imax(index_capacity as int, 3),
                )
                &&& final(self).rooms().2 == num::imax(
                    old(self).rooms().2,
                    num::imin(
                        entry_room(index_capacity as int, table_size(final(self).grid())),
                        usize::MAX as int,
                    ),
                )
                &&& final(self).rooms().3 == num::imax(
                    old(self).rooms().3,
                    table_size(final(self).grid()),
                )
            },
            r matches Err(e) ==> e.code == Code::OutOfMemory,
    {
        let (tiles_x, tiles_y): (u32, u32) = tile_grid(width, height, self.config.tile_size);
        self.tiles_x = tiles_x;
        self.tiles_y = tiles_y;
        let tiles: usize = table_tiles(tiles_x, tiles_y);
        self.xform.clear();
        self.indices.clear();
        self.entries.clear();
        self.counts.clear();
        self.starts.clear();
        self.cursors.clear();
        let vertices: usize = if vertex_capacity > 3 { vertex_capacity } else { 3 };
        match self.xform.try_reserve(vertices) {
            Ok(()) => {},
            Err(e) => return Err(e),
        }
        let indices: usize = if index_capacity > 3 { index_capacity } else { 3 };
        match self.indices.try_reserve(indices) {
            Ok(()) => {},
            Err(e) => return Err(e),
        }
        let triangles: usize = if index_capacity / 3 > 64 { index_capacity / 3 } else { 64 };
        match self.entries.try_reserve(triangles.saturating_add(tiles)) {
            Ok(()) => {},
            Err(e) => return Err(e),
        }
        match self.counts.try_reserve(tiles) {
            Ok(()) => {},
            Err(e) => return Err(e),
        }
        match self.starts.try_reserve(tiles) {
            Ok(()) => {},
            Err(e) => return Err(e),
        }
        match self.cursors.try_reserve(tiles) {
            Ok(()) => {},
            Err(e) => return Err(e),
        }
        Ok(())
    }
}

impl Rasterizer {
    /// Everything but the vertex and index tables is as it was.
    spec fn same_bins(&self, other: &Self) -> bool {
        &&& self.config == other.config
        &&& self.stats == other.stats
        &&& self.tiles_x == other.tiles_x
        &&& self.tiles_y == other.tiles_y
        &&& self.render == other.render
        &&& self.counts == other.counts
        &&& self.starts == other.starts
        &&& self.cursors == other.cursors
        &&& self.entries == other.entries
    }

    /// Flattens the draws into the vertex and the index table. Returns how often
    /// a table had to grow, and how many triangles the draws have.
    fn gather(&mut self, draws: &[DrawItem<'_>]) -> (r: Result<(u32, u32), Error>)
        requires
            old(self).wf(),
            bin::frame_fits(draws@),
        ensures
            final(self).wf(),
            final(self).same_bins(old(self)),
            bin::flat_vertices(draws@).len() <= old(self).xform.room()
                && bin::flat_indices(draws@).len() <= old(self).indices.room() ==> r is Ok,
            r matches Ok((growths, triangles)) ==> {
                &&& final(self).xform@ == bin::flat_vertices(draws@)
                &&& bin::holds(final(self).indices@, bin::flat_indices(draws@))
                &&& growths == bin::vertex_growths(draws@, old(self).xform.room())
                    + bin::index_growths(draws@, old(self).indices.room())
                &&& triangles == bin::total_triangles(draws@)
                &&& final(self).xform.room() == num::imax(
                    old(self).xform.room(),
                    bin::flat_vertices(draws@).len() as int,
                )
                &&& final(self).indices.room() == num::imax(
                    old(self).indices.room(),
                    bin::flat_indices(draws@).len() as int,
                )
            },
            r matches Err(e) ==> e.code == Code::OutOfMemory,
    {
        // Clearing keeps the reservation, so the frame reuses the same memory
        // instead of regrowing.
        self.xform.clear();
        self.indices.clear();
        let mut growths: u32 = 0;
        let mut triangles: u32 = 0;
        let mut base: usize = 0;
        let mut d: usize = 0;
        assert(draws@.take(0) =~= Seq::empty());
        while d < draws.len()
            invariant
                d <= draws@.len(),
                self.wf(),
                self.same_bins(old(self)),
                bin::frame_fits(draws@),
                self.xform@ == bin::flat_vertices(draws@.take(d as int)),
                bin::holds(self.indices@, bin::flat_indices(draws@.take(d as int))),
                base == self.xform@.len(),
                growths == bin::vertex_growths(draws@.take(d as int), old(self).xform.room())
                    + bin::index_growths(draws@.take(d as int), old(self).indices.room()),
                triangles == bin::total_triangles(draws@.take(d as int)),
                self.xform.room() == num::imax(
                    old(self).xform.room(),
                    bin::flat_vertices(draws@.take(d as int)).len() as int,
                ),
                self.indices.room() == num::imax(
                    old(self).indices.room(),
                    bin::flat_indices(draws@.take(d as int)).len() as int,
                ),
            decreases draws@.len() - d,
        {
            let ghost part = draws@.take(d as int);
            let ghost next = draws@.take(d + 1);
            proof {
                bin::lemma_flat_step(draws@, d as int);
                bin::lemma_flat_prefix(draws@, d + 1);
                assert(next.drop_last() =~= part);
                assert(next.last() == draws@[d as int]);
                bin::lemma_growths_bounded(part, old(self).xform.room());
                bin::lemma_growths_bounded(part, old(self).indices.room());
                bin::lemma_total_triangles(next);
                let all = bin::flat_indices(draws@);
                assert forall|k: int| 0 <= k < draws@[d as int].index_count() implies
                    #[trigger] draws@[d as int].index_at(k) + base <= u32::MAX by {
                    let at = bin::flat_indices(part).len() + k;
                    assert(all.take(bin::flat_indices(next).len() as int)[at] == all[at]);
                    assert(0 <= all[at] <= u32::MAX);
                }
            }
            match bin::append_transformed(&mut self.xform, &draws[d]) {
                Ok(grew) => {
                    if grew {
                        growths = growths + 1;
                    }
                },
                Err(e) => return Err(e),
            }
            let ghost before = self.indices@;
            match bin::append_indices(&mut self.indices, &draws[d], base) {
                Ok(grew) => {
                    if grew {
                        growths = growths + 1;
                    }
                },
                Err(e) => return Err(e),
            }
            proof {
                let want = bin::flat_indices(next);
                assert forall|k: int| 0 <= k < self.indices@.len() implies
                    #[trigger] self.indices@[k] == want[k] by {
                    if k < before.len() {
                        assert(self.indices@.take(before.len() as int)[k] == before[k]);
                        assert(before[k] == bin::flat_indices(part)[k]);
                    } else {
                        let j = k - before.len();
                        assert(self.indices@[before.len() + j] == draws@[d as int].index_at(j)
                            + base);
                    }
                }
            }
            base = base + draws[d].vertices.len();
            triangles = triangles + (bin::index_len(&draws[d]) / 3) as u32;
            d += 1;
        }
        assert(draws@.take(d as int) =~= draws@);
        Ok((growths, triangles))
    }
}

/// The square of the last tile is still representable.
proof fn lemma_grid_extent(pixels: u32, tile_size: u32)
    requires
        tile_size >= 8,
        pixels + tile_size - 1 <= u32::MAX,
    ensures
        0 <= tiles_along(pixels, tile_size) * tile_size <= pixels + tile_size - 1,
        tiles_along(pixels, tile_size) * tile_size >= pixels,
        pixels > 0 ==> tiles_along(pixels, tile_size) > 0,
{
    let ts = tile_size as int;
    let n = pixels + ts - 1;
    vstd::arithmetic::div_mod::lemma_fundamental_div_mod(n, ts);
    assert(ts * (n / ts) == (n / ts) * ts) by (nonlinear_arith);
    vstd::arithmetic::div_mod::lemma_div_pos_is_pos(n, ts);
    num::lemma_product_is_nat(n / ts, ts);
    if pixels > 0 && n / ts <= 0 {
        assert((n / ts) * ts <= 0) by (nonlinear_arith)
            requires
                n / ts <= 0,
                ts > 0;
    }
}

/// The pixels of a tile, cut down to the rendered area.
fn tile_pixels(tile: u32, grid: (u32, u32), tile_size: u32, render: (u32, u32)) -> (r: Option<
    (u32, u32, u32, u32),
>)
    requires
        tile < grid.0 * grid.1,
        grid.0 * tile_size <= u32::MAX,
        grid.1 * tile_size <= u32::MAX,
    ensures
        r == tile_rect(tile as int, grid.0, tile_size, render),
{
    proof {
        if grid.0 == 0 {
            assert(grid.0 * grid.1 == 0) by (nonlinear_arith)
                requires
                    grid.0 == 0;
        }
        lemma_tile_extent(tile as int, grid, tile_size);
    }
    let tx: u32 = tile % grid.0;
    let ty: u32 = tile / grid.0;
    let tx0: u32 = tx * tile_size;
    let ty0: u32 = ty * tile_size;
    let right: u32 = tx0 + tile_size;
    let bottom: u32 = ty0 + tile_size;
    let tx1: u32 = if right < render.0 { right } else { render.0 };
    let ty1: u32 = if bottom < render.1 { bottom } else { render.1 };
    if tx0 >= tx1 || ty0 >= ty1 {
        return None;
    }
    Some((tx0, ty0, tx1, ty1))
}

proof fn lemma_tile_extent(tile: int, grid: (u32, u32), tile_size: u32)
    requires
        0 <= tile < grid.0 * grid.1,
        grid.0 > 0,
        grid.0 * tile_size <= u32::MAX,
        grid.1 * tile_size <= u32::MAX,
    ensures
        0 <= tile % (grid.0 as int) < grid.0,
        0 <= tile / (grid.0 as int) < grid.1,
        0 <= (tile % grid.0 as int) * tile_size,
        (tile % grid.0 as int) * tile_size + tile_size <= grid.0 * tile_size,
        0 <= (tile / grid.0 as int) * tile_size,
        (tile / grid.0 as int) * tile_size + tile_size <= grid.1 * tile_size,
{
    let (gx, gy, ts) = (grid.0 as int, grid.1 as int, tile_size as int);
    let (tx, ty) = (tile % gx, tile / gx);
    bin::lemma_tile_parts(tile, grid.0);
    assert(ty < gy) by (nonlinear_arith)
        requires
            ty * gx + tx < gx * gy,
            0 <= tx,
            0 < gx;
    num::lemma_product_is_nat(tx, ts);
    num::lemma_product_is_nat(ty, ts);
    assert(tx * ts + ts <= gx * ts) by (nonlinear_arith)
        requires
            tx + 1 <= gx,
            0 <= ts;
    assert(ty * ts + ts <= gy * ts) by (nonlinear_arith)
        requires
            ty + 1 <= gy,
            0 <= ts;
}

fn count_tiles_with_pixels(
    tiles: u32,
    grid: (u32, u32),
    tile_size: u32,
    render: (u32, u32),
) -> (n: u32)
    requires
        tiles == grid.0 * grid.1,
        grid.0 * tile_size <= u32::MAX,
        grid.1 * tile_size <= u32::MAX,
    ensures
        n == tiles_with_pixels(tiles as nat, grid.0, tile_size, render),
{
    let mut n: u32 = 0;
    let mut tile: u32 = 0;
    while tile < tiles
        invariant
            tile <= tiles,
            tiles == grid.0 * grid.1,
            grid.0 * tile_size <= u32::MAX,
            grid.1 * tile_size <= u32::MAX,
            n <= tile,
            n == tiles_with_pixels(tile as nat, grid.0, tile_size, render),
        decreases tiles - tile,
    {
        if tile_pixels(tile, grid, tile_size, render).is_some() {
            n += 1;
        }
        tile += 1;
    }
    n
}

fn peak_of(counts: &[u32]) -> (peak: u32)
    ensures
        is_peak(counts@, peak),
{
    let mut peak: u32 = 0;
    let mut i: usize = 0;
    while i < counts.len()
        invariant
            i <= counts@.len(),
            forall|t: int| 0 <= t < i ==> #[trigger] counts@[t] <= peak,
            peak == 0 || exists|t: int| 0 <= t < i && #[trigger] counts@[t] == peak,
        decreases counts@.len() - i,
    {
        if counts[i] > peak {
            peak = counts[i];
            assert(counts@[i as int] == peak);
        }
        i += 1;
    }
    peak
}

/// The grid of a target.
pub open spec fn target_grid(width: u32, height: u32, tile_size: u32) -> (u32, u32) {
    (tiles_along(width, tile_size) as u32, tiles_along(height, tile_size) as u32)
}

/// The rooms a frame starts out with: those it found, or, when the grid is not
/// the one they were made for, those that were then prepared.
pub open spec fn rooms_at_start(
    rooms: (int, int, int, int),
    draws: Seq<DrawItem<'_>>,
    regrid: bool,
    grid: (u32, u32),
) -> (int, int, int) {
    if regrid {
        (
            num::imax(rooms.0, num::imax(bin::flat_vertices(draws).len() as int, 3)),
            num::imax(rooms.1, num::imax(bin::flat_indices(draws).len() as int, 3)),
            num::imax(
                rooms.2,
                num::imin(
                    entry_room(bin::flat_indices(draws).len() as int, table_size(grid)),
                    usize::MAX as int,
                ),
            ),
        )
    } else {
        (rooms.0, rooms.1, rooms.2)
    }
}

/// How often a table has to grow inside a frame that starts out with `rooms` and
/// ends up with `entries` entries.
pub open spec fn frame_growths(
    draws: Seq<DrawItem<'_>>,
    rooms: (int, int, int),
    entries: int,
) -> int {
    bin::vertex_growths(draws, rooms.0) + bin::index_growths(draws, rooms.1) + if rooms.2 < entries {
        1int
    } else {
        0int
    }
}

impl Rasterizer {
    /// The tables hold the bins of the frame.
    pub open spec fn holds_frame(
        &self,
        draws: Seq<DrawItem<'_>>,
        grid: (u32, u32),
        render: (u32, u32),
    ) -> bool {
        let bins = frame_bins(draws, render, grid, self.spec_config().tile_size);
        &&& self.grid() == grid
        &&& self.area() == render
        &&& self.vertices() == bin::flat_vertices(draws)
        &&& bin::holds(self.flat(), bin::flat_indices(draws))
        &&& bin::sizes_of(self.sizes(), bins)
        &&& bin::starts_follow(self.ranges(), self.sizes())
        &&& self.placed_entries().len() == bin::entries_for(self.sizes())
        &&& bin::stand(self.ranges(), self.placed_entries(), bins)
    }

    /// Nothing has to be asked of the allocator to render this frame.
    pub open spec fn ready_for(
        &self,
        draws: Seq<DrawItem<'_>>,
        grid: (u32, u32),
        render: (u32, u32),
    ) -> bool {
        let vertices = bin::flat_vertices(draws).len() as int;
        let indices = bin::flat_indices(draws).len() as int;
        let bins = frame_bins(draws, render, grid, self.spec_config().tile_size);
        &&& self.has_room(
            vertices,
            indices,
            bin::entries_for(bin::bin_sizes(bins)),
            grid.0 * grid.1,
        )
        &&& self.grid() == grid || self.has_room(
            num::imax(vertices, 3),
            num::imax(indices, 3),
            entry_room(indices, table_size(grid)),
            table_size(grid),
        )
    }

    /// What a frame counts.
    pub open spec fn counts_frame(
        &self,
        stats: RasterStats,
        draws: Seq<DrawItem<'_>>,
        grid: (u32, u32),
        render: (u32, u32),
    ) -> bool {
        let tris = bin::frame_triangles(draws, render);
        let tiles = grid.0 * grid.1;
        &&& stats.tiles_total == tiles
        &&& stats.tiles_rendered == tiles_with_pixels(
            tiles as nat,
            grid.0,
            self.spec_config().tile_size,
            render,
        )
        &&& stats.draws == draws.len()
        &&& stats.triangles_in == bin::total_triangles(draws)
        &&& stats.triangles_culled == bin::culled_of(tris)
        &&& stats.triangles_clipped == bin::clipped_of(tris)
        &&& stats.triangles_degenerate == bin::degenerate_of(tris)
        &&& stats.triangles_binned == bin::entries_for(self.sizes())
        &&& stats.bin_entries == bin::entries_for(self.sizes())
        &&& stats.pixels_tested == 0
        &&& stats.pixels_shaded == 0
        &&& stats.storage_bytes == num::imin(self.storage(), u64::MAX as int)
        &&& is_peak(self.sizes(), stats.peak_tile_entries)
    }

    /// Bins `draws` for a target of `width` by `height`, confined to `viewport`.
    ///
    /// The vertices are already mapped onto the area that
    /// [`crate::raster::rendered_viewport`] gives for the viewport; `(0, 0)`
    /// renders the whole target. The pixels are left to the tiles
    /// ([`Rasterizer::tile_steps`]), and are counted when those are done
    /// ([`Rasterizer::record_pixels`]).
    pub fn rasterize(
        &mut self,
        width: u32,
        height: u32,
        draws: &[DrawItem<'_>],
        viewport: (u32, u32),
    ) -> (r: Result<RasterStats, Error>)
        requires
            old(self).wf(),
            target_fits(width, height, old(self).spec_config().tile_size),
            bin::frame_fits(draws@),
            bin::triangles_fit(draws@),
        ensures
            final(self).wf(),
            final(self).spec_config() == old(self).spec_config(),
            width == 0 || height == 0 ==> {
                &&& r matches Err(e) && e.says(Code::InvalidArgument, "zero-sized target"@)
                &&& *final(self) == *old(self)
            },
            width > 0 && height > 0 ==> {
                let grid = target_grid(width, height, old(self).spec_config().tile_size);
                let render = frame_area(width, height, viewport);
                &&& old(self).ready_for(draws@, grid, render) ==> r is Ok
                &&& r matches Err(e) ==> e.code == Code::OutOfMemory
                &&& r matches Ok(stats) ==> {
                    &&& final(self).spec_stats() == stats
                    &&& final(self).holds_frame(draws@, grid, render)
                    &&& final(self).counts_frame(stats, draws@, grid, render)
                    &&& final(self).ready_for(draws@, grid, render)
                    &&& stats.allocations_in_frame == frame_growths(
                        draws@,
                        rooms_at_start(old(self).rooms(), draws@, old(self).grid() != grid, grid),
                        bin::entries_for(final(self).sizes()),
                    )
                }
            },
    {
        if width == 0 || height == 0 {
            return Err(Error::new(Code::InvalidArgument, "zero-sized target"));
        }
        let render: (u32, u32) = crate::raster::rendered_viewport(
            viewport,
            (width, height),
            (width, height),
        );
        let tile_size: u32 = self.config.tile_size;
        // The grid belongs to the target, not to the rasteriser: one that
        // renders into two sizes rebins for each. The reservations are kept, so
        // after the first frame this is a comparison.
        let (tiles_x, tiles_y): (u32, u32) = tile_grid(width, height, tile_size);
        let ghost grid = (tiles_x, tiles_y);
        let ghost regrid = self.grid() != grid;
        proof {
            lemma_grid_extent(width, tile_size);
            lemma_grid_extent(height, tile_size);
            lemma_area_in_grid(width, height, tile_size, render);
            num::lemma_product_is_nat(tiles_x as int, tiles_y as int);
            assert(tiles_x as int * 1 <= tiles_x * tiles_y) by (nonlinear_arith)
                requires
                    1 <= tiles_y,
                    0 <= tiles_x;
        }
        if self.tiles_x != tiles_x || self.tiles_y != tiles_y {
            let (vertices, indices): (usize, usize) = flat_sizes(draws);
            match self.prepare(width, height, vertices, indices) {
                Ok(()) => {},
                Err(e) => return Err(e),
            }
        }
        self.bin_frame(draws, render)
    }

    /// Sizes the tables for `tiles` tiles and zeroes the counts.
    fn size_tables(&mut self, tiles: usize) -> (r: Result<(), Error>)
        requires
            old(self).wf(),
        ensures
            final(self).wf(),
            final(self).config == old(self).config,
            final(self).stats == old(self).stats,
            final(self).tiles_x == old(self).tiles_x,
            final(self).tiles_y == old(self).tiles_y,
            final(self).render == old(self).render,
            final(self).xform == old(self).xform,
            final(self).indices == old(self).indices,
            final(self).entries == old(self).entries,
            tiles <= old(self).rooms().3 ==> r is Ok,
            r is Ok ==> {
                &&& final(self).counts@.len() == tiles
                &&& final(self).starts@.len() == tiles
                &&& final(self).cursors@.len() == tiles
                &&& forall|t: int| 0 <= t < tiles ==> #[trigger] final(self).counts@[t] == 0
                &&& tiles <= final(self).rooms().3
            },
            r matches Err(e) ==> e.code == Code::OutOfMemory,
    {
        // Zeroed, not merely sized: a count left behind by the previous frame
        // would place that frame's triangles again.
        match self.counts.resize(tiles, 0) {
            Ok(()) => {},
            Err(e) => return Err(e),
        }
        zero(&mut self.counts);
        match self.starts.resize(tiles, 0) {
            Ok(()) => {},
            Err(e) => return Err(e),
        }
        match self.cursors.resize(tiles, 0) {
            Ok(()) => {},
            Err(e) => return Err(e),
        }
        Ok(())
    }

    /// Makes the entry table hold `total` entries. Returns whether that was
    /// counted as a growth.
    fn size_entries(&mut self, total: u32) -> (r: Result<bool, Error>)
        requires
            old(self).wf(),
        ensures
            final(self).wf(),
            final(self).config == old(self).config,
            final(self).stats == old(self).stats,
            final(self).tiles_x == old(self).tiles_x,
            final(self).tiles_y == old(self).tiles_y,
            final(self).render == old(self).render,
            final(self).xform == old(self).xform,
            final(self).indices == old(self).indices,
            final(self).counts == old(self).counts,
            final(self).starts == old(self).starts,
            final(self).cursors == old(self).cursors,
            total <= old(self).entries.room() ==> r is Ok,
            r matches Ok(grew) ==> {
                &&& grew == (old(self).entries.room() < total)
                &&& final(self).entries@.len() == total
                &&& final(self).entries.room() == num::imax(old(self).entries.room(), total as int)
            },
            r matches Err(e) ==> e.code == Code::OutOfMemory,
    {
        let grew = self.entries.capacity() < total as usize;
        if grew {
            match self.entries.try_reserve(total as usize - self.entries.capacity()) {
                Ok(()) => {},
                Err(e) => return Err(e),
            }
        }
        match self.entries.resize(total as usize, Entry { draw: 0, first_index: 0 }) {
            Ok(()) => {},
            Err(e) => return Err(e),
        }
        Ok(grew)
    }

    /// The two passes, into tables that have been sized.
    fn fill_bins(&mut self, draws: &[DrawItem<'_>], render: (u32, u32)) -> (r: Result<
        (bin::Tally, u32, bool),
        Error,
    >)
        requires
            old(self).wf(),
            bin::tables_hold(draws@, old(self).xform@, old(self).indices@),
            old(self).counts@.len() == old(self).tiles_x * old(self).tiles_y,
            old(self).starts@.len() == old(self).counts@.len(),
            old(self).cursors@.len() == old(self).counts@.len(),
            bin::grid_covers(
                render,
                old(self).counts@.len(),
                old(self).tiles_x,
                old(self).config.tile_size,
            ),
            forall|t: int|
                0 <= t < old(self).counts@.len() ==> #[trigger] old(self).counts@[t] == 0,
        ensures
            final(self).wf(),
            final(self).config == old(self).config,
            final(self).stats == old(self).stats,
            final(self).tiles_x == old(self).tiles_x,
            final(self).tiles_y == old(self).tiles_y,
            final(self).render == old(self).render,
            final(self).xform == old(self).xform,
            final(self).indices == old(self).indices,
            final(self).counts.room() == old(self).counts.room(),
            final(self).starts.room() == old(self).starts.room(),
            final(self).cursors.room() == old(self).cursors.room(),
            ({
                let bins = frame_bins(
                    draws@,
                    render,
                    (old(self).tiles_x, old(self).tiles_y),
                    old(self).config.tile_size,
                );
                let need = bin::entries_for(bin::bin_sizes(bins));
                &&& need <= old(self).entries.room() ==> r is Ok
                &&& r matches Ok((tally, total, grew)) ==> {
                    &&& tally.counts(bin::frame_triangles(draws@, render))
                    &&& total == need
                    &&& grew == (old(self).entries.room() < need)
                    &&& final(self).entries.room() == num::imax(old(self).entries.room(), need)
                    &&& bin::sizes_of(final(self).counts@, bins)
                    &&& final(self).counts@ == bin::bin_sizes(bins)
                    &&& bin::starts_follow(final(self).starts@, final(self).counts@)
                    &&& final(self).entries@.len() == total
                    &&& bin::stand(final(self).starts@, final(self).entries@, bins)
                }
            }),
            r matches Err(e) ==> e.code == Code::OutOfMemory,
    {
        let (tiles_x, tile_size): (u32, u32) = (self.tiles_x, self.config.tile_size);
        let tally = bin::count_bins(
            draws,
            self.xform.as_slice(),
            self.indices.as_slice(),
            render,
            tiles_x,
            tile_size,
            &mut self.counts,
        );
        let ghost bins = frame_bins(draws@, render, (self.tiles_x, self.tiles_y), tile_size);
        assert(self.counts@ =~= bin::bin_sizes(bins));
        let total: u32 = bin::prefix_sum(&self.counts, &mut self.starts, &mut self.cursors);
        let grew = match self.size_entries(total) {
            Ok(grew) => grew,
            Err(e) => return Err(e),
        };
        bin::place_bins(
            draws,
            self.xform.as_slice(),
            self.indices.as_slice(),
            render,
            tiles_x,
            tile_size,
            self.starts.as_slice(),
            self.counts.as_slice(),
            &mut self.cursors,
            &mut self.entries,
        );
        Ok((tally, total, grew))
    }

    /// Bins the draws on the grid that is set up.
    fn bin_frame(&mut self, draws: &[DrawItem<'_>], render: (u32, u32)) -> (r: Result<
        RasterStats,
        Error,
    >)
        requires
            old(self).wf(),
            bin::frame_fits(draws@),
            bin::triangles_fit(draws@),
            old(self).grid().0 * old(self).grid().1 <= u32::MAX,
            old(self).grid().0 * old(self).spec_config().tile_size <= u32::MAX,
            old(self).grid().1 * old(self).spec_config().tile_size <= u32::MAX,
            bin::grid_covers(
                render,
                (old(self).grid().0 * old(self).grid().1) as nat,
                old(self).grid().0,
                old(self).spec_config().tile_size,
            ),
        ensures
            final(self).wf(),
            final(self).spec_config() == old(self).spec_config(),
            old(self).ready_for(draws@, old(self).grid(), render) ==> r is Ok,
            r matches Err(e) ==> e.code == Code::OutOfMemory,
            r matches Ok(stats) ==> {
                &&& final(self).spec_stats() == stats
                &&& final(self).holds_frame(draws@, old(self).grid(), render)
                &&& final(self).counts_frame(stats, draws@, old(self).grid(), render)
                &&& final(self).ready_for(draws@, old(self).grid(), render)
                &&& stats.allocations_in_frame == frame_growths(
                    draws@,
                    (old(self).rooms().0, old(self).rooms().1, old(self).rooms().2),
                    bin::entries_for(final(self).sizes()),
                )
            },
    {
        let (tiles_x, tiles_y): (u32, u32) = (self.tiles_x, self.tiles_y);
        let tile_size: u32 = self.config.tile_size;
        let ghost rooms = self.rooms();
        proof {
            num::lemma_product_is_nat(tiles_x as int, tiles_y as int);
        }
        let tiles: usize = (tiles_x as usize) * (tiles_y as usize);
        let (growths, triangles_in): (u32, u32) = match self.gather(draws) {
            Ok(counted) => counted,
            Err(e) => return Err(e),
        };
        match self.size_tables(tiles) {
            Ok(()) => {},
            Err(e) => return Err(e),
        }
        let (tally, total, grew): (bin::Tally, u32, bool) = match self.fill_bins(draws, render) {
            Ok(filled) => filled,
            Err(e) => return Err(e),
        };
        self.render = render;
        proof {
            bin::lemma_growths_bounded(draws@, rooms.0);
            bin::lemma_growths_bounded(draws@, rooms.1);
        }
        let stats = RasterStats {
            tiles_total: tiles as u32,
            tiles_rendered: count_tiles_with_pixels(
                tiles as u32,
                (tiles_x, tiles_y),
                tile_size,
                render,
            ),
            draws: draws.len() as u32,
            triangles_in,
            triangles_binned: total,
            triangles_culled: tally.culled,
            triangles_clipped: tally.clipped,
            triangles_degenerate: tally.degenerate,
            bin_entries: total,
            pixels_tested: 0,
            pixels_shaded: 0,
            allocations_in_frame: if grew {
                growths + 1
            } else {
                growths
            },
            storage_bytes: self.storage_bytes(),
            peak_tile_entries: peak_of(self.counts.as_slice()),
        };
        self.stats = stats;
        Ok(stats)
    }
}

/// Sets every count to zero.
fn zero(counts: &mut HostVec<u32>)
    requires
        old(counts).wf(),
    ensures
        final(counts).wf(),
        final(counts).room() == old(counts).room(),
        final(counts)@.len() == old(counts)@.len(),
        forall|t: int| 0 <= t < final(counts)@.len() ==> #[trigger] final(counts)@[t] == 0,
{
    let n: usize = counts.len();
    let mut i: usize = 0;
    while i < n
        invariant
            i <= n == counts@.len(),
            n == old(counts)@.len(),
            counts.wf(),
            counts.room() == old(counts).room(),
            forall|t: int| 0 <= t < i ==> #[trigger] counts@[t] == 0,
        decreases n - i,
    {
        counts.set(i, 0);
        i += 1;
    }
}

/// How many vertices and how many indices the draws have.
fn flat_sizes(draws: &[DrawItem<'_>]) -> (r: (usize, usize))
    requires
        bin::frame_fits(draws@),
    ensures
        r.0 == bin::flat_vertices(draws@).len(),
        r.1 == bin::flat_indices(draws@).len(),
{
    let mut vertices: usize = 0;
    let mut indices: usize = 0;
    let mut d: usize = 0;
    assert(draws@.take(0) =~= Seq::empty());
    while d < draws.len()
        invariant
            d <= draws@.len(),
            bin::frame_fits(draws@),
            vertices == bin::flat_vertices(draws@.take(d as int)).len(),
            indices == bin::flat_indices(draws@.take(d as int)).len(),
        decreases draws@.len() - d,
    {
        proof {
            bin::lemma_flat_step(draws@, d as int);
        }
        vertices = vertices + draws[d].vertices.len();
        indices = indices + bin::index_len(&draws[d]);
        d += 1;
    }
    assert(draws@.take(d as int) =~= draws@);
    (vertices, indices)
}

/// The grid of the target has a tile for every pixel of the rendered area.
proof fn lemma_area_in_grid(width: u32, height: u32, tile_size: u32, render: (u32, u32))
    requires
        tile_size >= 8,
        width > 0,
        height > 0,
        target_fits(width, height, tile_size),
        render.0 <= width,
        render.1 <= height,
    ensures
        ({
            let grid = target_grid(width, height, tile_size);
            bin::grid_covers(render, (grid.0 * grid.1) as nat, grid.0, tile_size)
        }),
{
    let ts = tile_size as int;
    lemma_grid_extent(width, tile_size);
    lemma_grid_extent(height, tile_size);
    vstd::arithmetic::div_mod::lemma_div_is_ordered(render.0 + ts - 1, width + ts - 1, ts);
    vstd::arithmetic::div_mod::lemma_div_is_ordered(render.1 + ts - 1, height + ts - 1, ts);
    let (gx, gy) = (tiles_along(width, tile_size), tiles_along(height, tile_size));
    let rows = (render.1 + ts - 1) / ts;
    vstd::arithmetic::div_mod::lemma_div_nonincreasing(width + ts - 1, ts);
    vstd::arithmetic::div_mod::lemma_div_nonincreasing(height + ts - 1, ts);
    assert(rows * gx <= gx * gy) by (nonlinear_arith)
        requires
            rows <= gy,
            0 <= gx;
}

/// The triangles of a tile's bin.
pub open spec fn tile_triangles(
    draws: Seq<DrawItem<'_>>,
    render: (u32, u32),
    tile: int,
    tiles_x: u32,
    tile_size: u32,
) -> Seq<Tri> {
    bin::frame_triangles(draws, render).filter(
        |tri: Tri| bin::belongs(tri.info, tile, tiles_x, tile_size),
    )
}

/// What is left to do for one triangle of a tile.
#[derive(Clone, Copy, Debug)]
pub enum TileStep {
    /// Clip the triangle, and build a job for each piece.
    Clip(Entry),
    /// Rasterise the triangle.
    Raster(Entry, TriJob),
}

/// The triangle leaves something to do in `rect`.
pub open spec fn has_step(
    draws: Seq<DrawItem<'_>>,
    tri: Tri,
    rect: (u32, u32, u32, u32),
    render: (u32, u32),
) -> bool {
    bin::any_needs_clip(tri.vertices) || job::job_rect(
        bin::xs(tri.vertices),
        bin::ys(tri.vertices),
        draws[tri.entry.draw as int].pipeline.cull,
        rect,
        render,
    ) is Some
}

/// `step` is what is left to do for the triangle in `rect`.
pub open spec fn is_step(
    step: TileStep,
    draws: Seq<DrawItem<'_>>,
    tri: Tri,
    rect: (u32, u32, u32, u32),
    render: (u32, u32),
) -> bool {
    let (x, y) = (bin::xs(tri.vertices), bin::ys(tri.vertices));
    let pipeline = draws[tri.entry.draw as int].pipeline;
    match step {
        TileStep::Clip(entry) => entry == tri.entry && bin::any_needs_clip(tri.vertices),
        TileStep::Raster(entry, work) => {
            &&& entry == tri.entry
            &&& !bin::any_needs_clip(tri.vertices)
            &&& work.wf()
            &&& Some(work.rect) == job::job_rect(x, y, pipeline.cull, rect, render)
            &&& work.flip == (fixed::signed_area2(x, y) < 0)
            &&& work.setup.x@ == job::wound(x, work.flip)@
            &&& work.setup.y@ == job::wound(y, work.flip)@
            &&& work.flip_normal == (work.flip && pipeline.two_sided)
        },
    }
}

/// `steps` is what is left to do for the triangles in `rect`, in their order.
pub open spec fn are_steps(
    steps: Seq<TileStep>,
    draws: Seq<DrawItem<'_>>,
    tris: Seq<Tri>,
    rect: (u32, u32, u32, u32),
    render: (u32, u32),
) -> bool {
    let kept = tris.filter(|tri: Tri| has_step(draws, tri, rect, render));
    &&& steps.len() == kept.len()
    &&& forall|k: int|
        0 <= k < steps.len() ==> is_step(#[trigger] steps[k], draws, kept[k], rect, render)
}

impl Rasterizer {
    /// How many entries of the tile's bin found room.
    pub open spec fn bin_room(&self, tile: int) -> int {
        num::imin(
            self.sizes()[tile] as int,
            self.placed_entries().len() - self.ranges()[tile],
        )
    }

    /// What there is to do in a tile, triangle by triangle in draw order.
    pub fn tile_steps(&self, draws: &[DrawItem<'_>], tile: u32) -> (steps: Vec<TileStep>)
        requires
            self.wf(),
            bin::frame_fits(draws@),
            bin::triangles_fit(draws@),
            self.holds_frame(draws@, self.grid(), self.area()),
            self.grid().0 * self.spec_config().tile_size <= u32::MAX,
            self.grid().1 * self.spec_config().tile_size <= u32::MAX,
            tile < self.grid().0 * self.grid().1,
        ensures
            match tile_rect(
                tile as int,
                self.grid().0,
                self.spec_config().tile_size,
                self.area(),
            ) {
                None => steps@.len() == 0,
                Some(rect) => are_steps(
                    steps@,
                    draws@,
                    tile_triangles(
                        draws@,
                        self.area(),
                        tile as int,
                        self.grid().0,
                        self.spec_config().tile_size,
                    ).take(self.bin_room(tile as int)),
                    rect,
                    self.area(),
                ),
            },
    {
        let tile_size: u32 = self.config.tile_size;
        let grid: (u32, u32) = (self.tiles_x, self.tiles_y);
        let mut steps: Vec<TileStep> = Vec::new();
        let rect = match tile_pixels(tile, grid, tile_size, self.render) {
            Some(rect) => rect,
            None => return steps,
        };
        let ghost bins = frame_bins(draws@, self.render, grid, tile_size);
        let ghost tris = tile_triangles(draws@, self.render, tile as int, grid.0, tile_size);
        let ghost keep = |tri: Tri| has_step(draws@, tri, rect, self.render);
        assert(bins[tile as int] == tris.map_values(|tri: Tri| tri.entry));
        assert(self.counts@[tile as int] == bins[tile as int].len());
        proof {
            bin::lemma_ranges_apart(self.starts@, self.counts@);
            assert(self.starts@[tile as int] <= self.entries@.len());
        }
        let start: usize = self.starts.get(tile as usize) as usize;
        let count: usize = self.counts.get(tile as usize) as usize;
        let room: usize = self.entries.len() - start;
        let n: usize = if count < room {
            count
        } else {
            room
        };
        assert(tris.take(0).filter(keep) =~= Seq::empty()) by {
            reveal(Seq::filter);
        }
        let mut k: usize = 0;
        while k < n
            invariant
                k <= n,
                self.wf(),
                bin::frame_fits(draws@),
                bin::triangles_fit(draws@),
                self.holds_frame(draws@, self.grid(), self.area()),
                grid == self.grid(),
                tile < self.counts@.len(),
                tile_size == self.spec_config().tile_size,
                bins == frame_bins(draws@, self.render, grid, tile_size),
                tris == tile_triangles(draws@, self.render, tile as int, grid.0, tile_size),
                bins[tile as int] == tris.map_values(|tri: Tri| tri.entry),
                keep == |tri: Tri| has_step(draws@, tri, rect, self.render),
                n <= tris.len(),
                start == self.starts@[tile as int],
                start + n <= self.entries@.len(),
                are_steps(steps@, draws@, tris.take(k as int), rect, self.render),
            decreases n - k,
        {
            let entry: Entry = self.entries.get(start + k);
            let ghost tri = tris[k as int];
            proof {
                assert(bins[tile as int][k as int] == tri.entry);
                let i = crate::seqs::lemma_filter_member(
                    bin::frame_triangles(draws@, self.render),
                    |tri: Tri| bin::belongs(tri.info, tile as int, grid.0, tile_size),
                    k as int,
                );
                let (d, t) = bin::lemma_frame_triangle(draws@, self.render, i);
                assert(bin::corners(draws@, bin::first_index(draws@, d) + 3 * t) == Some(
                    tri.vertices,
                ));
                crate::seqs::lemma_filter_take(tris, k as int, keep);
            }
            match bin::fetch(
                self.xform.as_slice(),
                self.indices.as_slice(),
                entry.first_index as usize,
            ) {
                Some(v) => {
                    assert(v@ =~= tri.vertices@);
                    if v[0].needs_clip || v[1].needs_clip || v[2].needs_clip {
                        steps.push(TileStep::Clip(entry));
                    } else {
                        match TriJob::build(
                            [v[0].x, v[1].x, v[2].x],
                            [v[0].y, v[1].y, v[2].y],
                            &draws[entry.draw as usize].pipeline,
                            rect,
                            self.render,
                        ) {
                            Some(job) => steps.push(TileStep::Raster(entry, job)),
                            None => {},
                        }
                    }
                },
                None => {},
            }
            k += 1;
        }
        steps
    }

    /// Adds the pixel counts of the tiles to the frame's.
    pub fn record_pixels(&mut self, tested: u64, shaded: u64) -> (stats: RasterStats)
        requires
            old(self).wf(),
            old(self).spec_stats().pixels_tested + tested <= u64::MAX,
            old(self).spec_stats().pixels_shaded + shaded <= u64::MAX,
        ensures
            final(self).wf(),
            final(self).spec_stats() == stats,
            stats == (RasterStats {
                pixels_tested: (old(self).spec_stats().pixels_tested + tested) as u64,
                pixels_shaded: (old(self).spec_stats().pixels_shaded + shaded) as u64,
                ..old(self).spec_stats()
            }),
            final(self).spec_config() == old(self).spec_config(),
            final(self).grid() == old(self).grid(),
            final(self).area() == old(self).area(),
            final(self).rooms() == old(self).rooms(),
            final(self).vertices() == old(self).vertices(),
            final(self).flat() == old(self).flat(),
            final(self).sizes() == old(self).sizes(),
            final(self).ranges() == old(self).ranges(),
            final(self).placed_entries() == old(self).placed_entries(),
    {
        self.stats.pixels_tested = self.stats.pixels_tested + tested;
        self.stats.pixels_shaded = self.stats.pixels_shaded + shaded;
        self.stats
    }
}

/// No allocation inside a frame: one the tables are ready for grows none of them.
/// Since a rendered frame leaves the tables ready for itself, only a first frame,
/// or a larger one, can.
pub proof fn law_a_ready_frame_allocates_nothing(
    raster: Rasterizer,
    draws: Seq<DrawItem<'_>>,
    grid: (u32, u32),
    render: (u32, u32),
)
    requires
        raster.ready_for(draws, grid, render),
    ensures
        frame_growths(
            draws,
            rooms_at_start(raster.rooms(), draws, raster.grid() != grid, grid),
            bin::entries_for(
                bin::bin_sizes(
                    frame_bins(draws, render, grid, raster.spec_config().tile_size),
                ),
            ),
        ) == 0,
{
    let rooms = rooms_at_start(raster.rooms(), draws, raster.grid() != grid, grid);
    bin::lemma_growths_bounded(draws, rooms.0);
    bin::lemma_growths_bounded(draws, rooms.1);
}

} // verus!
