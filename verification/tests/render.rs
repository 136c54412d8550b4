use reconl::raster::bin::{DrawItem, ScreenVertex};
use reconl::raster::clip::{clip_polygon, fan, Cut};
use reconl::raster::job::TriJob;
use reconl::raster::shade::depth_test;
use reconl::raster::single::to_fixed;
use reconl::raster::target::{Rgba, Target};
use reconl::raster::tile::{tile_grid, RasterConfig, RasterStats, Rasterizer, TileStep};
use reconl::raster::{checksum_f32, PipelineState, ShaderRef, CULL_NONE};

const WIDTH: u32 = 64;
const HEIGHT: u32 = 64;

/// The test triangle, in a box of two units around the origin.
const TRI: [[f32; 2]; 3] = [[-0.75, -0.5], [0.75, -0.5], [-0.75, 0.6]];

struct Render {
    target: Target,
    stats: RasterStats,
}

/// A triangle: its corners in the box, its depth, and its colour.
#[derive(Clone, Copy)]
struct Shape {
    at: [[f32; 2]; 3],
    depth: f32,
    color: [f32; 4],
    cull: Option<u32>,
}

fn red(at: &[[f32; 2]; 3]) -> Shape {
    Shape { at: *at, depth: 0.9, color: [1.0, 0.0, 0.0, 1.0], cull: None }
}

fn outside(p: [f32; 2]) -> bool {
    p.iter().any(|c| *c < -1.0 - 1.0e-5 || *c > 1.0 + 1.0e-5)
}

fn screen(p: [f32; 2], width: u32, height: u32) -> (i32, i32) {
    let x = (p[0] * 0.5 + 0.5) * width as f32;
    let y = (1.0 - (p[1] * 0.5 + 0.5)) * height as f32;
    (to_fixed(x.to_bits()), to_fixed(y.to_bits()))
}

/// Clips a triangle to the box, side by side.
fn pieces(at: &[[f32; 2]; 3]) -> Vec<[[f32; 2]; 3]> {
    let sides: [fn([f32; 2]) -> f32; 4] = [|p| p[0] + 1.0, |p| 1.0 - p[0], |p| p[1] + 1.0, |p| 1.0 - p[1]];
    let mut poly: Vec<[f32; 2]> = at.to_vec();
    for side in sides {
        let inside: Vec<bool> = poly.iter().map(|p| side(*p) >= 0.0).collect();
        poly = clip_polygon(&inside)
            .into_iter()
            .map(|cut| match cut {
                Cut::Keep(i) => poly[i],
                Cut::Cross { from, to } => {
                    let (a, b) = (poly[from], poly[to]);
                    let t = side(a) / (side(a) - side(b));
                    [a[0] + (b[0] - a[0]) * t, a[1] + (b[1] - a[1]) * t]
                }
            })
            .collect();
    }
    fan(poly.len()).into_iter().map(|(a, b, c)| [poly[a], poly[b], poly[c]]).collect()
}

fn draw(width: u32, height: u32, threads: u32, tile_size: u32, shapes: &[Shape], indices: Option<&[u32]>) -> Render {
    let mut raster = Rasterizer::new(RasterConfig { tile_size, worker_threads: threads, ..Default::default() });
    raster.prepare(width, height, 12, 12).unwrap();
    let mut target = Target::new_color(width, height).unwrap().with_depth().unwrap();
    target.clear_color(Rgba { r: 0, g: 0, b: 0, a: 1.0f32.to_bits() });
    target.clear_depth(0);
    let vertices: Vec<Vec<ScreenVertex>> = shapes
        .iter()
        .map(|s| {
            s.at.iter()
                .map(|p| {
                    let needs_clip = outside(*p);
                    let (x, y) = if needs_clip { (0, 0) } else { screen(*p, width, height) };
                    ScreenVertex { needs_clip, x, y }
                })
                .collect()
        })
        .collect();
    let draws: Vec<DrawItem> = shapes
        .iter()
        .zip(&vertices)
        .map(|(s, v)| DrawItem {
            vertices: v,
            indices,
            pipeline: PipelineState { cull: s.cull.unwrap_or(PipelineState::default().cull), ..Default::default() },
            shader: ShaderRef::Surface(0),
            dynamic: false,
            casts_shadow: true,
        })
        .collect();
    raster.rasterize(width, height, &draws, (0, 0)).unwrap();
    let (across, down) = tile_grid(width, height, raster.tile_size());
    let mut color: Vec<u32> = target.color_slice().unwrap().to_vec();
    let mut depth: Vec<u32> = target.depth_slice().unwrap().to_vec();
    let (mut tested, mut shaded) = (0u64, 0u64);
    // Each worker takes every n-th tile, the last worker first.
    for worker in (0..raster.worker_threads()).rev() {
        for tile in (0..across * down).filter(|t| t % raster.worker_threads() == worker) {
            let size = raster.tile_size();
            let (tx, ty) = (tile % across * size, tile / across * size);
            let rect = (tx, ty, (tx + size).min(width), (ty + size).min(height));
            for step in raster.tile_steps(&draws, tile) {
                let (entry, jobs) = match step {
                    TileStep::Raster(entry, job) => (entry, vec![job]),
                    TileStep::Clip(entry) => {
                        let s = &shapes[entry.draw as usize];
                        let jobs = pieces(&s.at)
                            .iter()
                            .filter_map(|t| {
                                let p = t.map(|c| screen(c, width, height));
                                let pipeline = &draws[entry.draw as usize].pipeline;
                                TriJob::build(p.map(|c| c.0), p.map(|c| c.1), pipeline, rect, (width, height))
                            })
                            .collect();
                        (entry, jobs)
                    }
                };
                let s = &shapes[entry.draw as usize];
                for job in jobs {
                    for f in job.raster() {
                        let pixel = (f.y * width + f.x) as usize;
                        tested += 1;
                        if depth_test(&draws[entry.draw as usize].pipeline, s.depth.to_bits(), Some(depth[pixel])) {
                            shaded += 1;
                            depth[pixel] = s.depth.to_bits();
                            for k in 0..4 {
                                color[pixel * 4 + k] = s.color[k].to_bits();
                            }
                        }
                    }
                }
            }
        }
    }
    for (i, bits) in color.iter().enumerate() {
        target.set_color(i, *bits);
    }
    let mut kept = Target::new_depth(width, height).unwrap();
    kept.clear_depth(0);
    let stats = raster.record_pixels(tested, shaded);
    let mut out = Render { target, stats };
    if let Some(d) = out.target.depth.as_mut() {
        for (i, bits) in depth.iter().enumerate() {
            d.set(i, *bits);
        }
    }
    out
}

fn render(threads: u32, tile_size: u32, at: &[[f32; 2]; 3]) -> Render {
    draw(WIDTH, HEIGHT, threads, tile_size, &[red(at)], None)
}

fn floats(bits: &[u32]) -> Vec<f32> {
    bits.iter().map(|b| f32::from_bits(*b)).collect()
}

#[test]
fn triangle_covers_its_interior_and_nothing_else() {
    let r = render(1, 64, &TRI);
    let color = floats(r.target.color_slice().unwrap());
    let depth = floats(r.target.depth_slice().unwrap());

    let covered = |x: usize, y: usize| color[(y * WIDTH as usize + x) * 4] > 0.5;
    // Centroid of the triangle in screen space.
    let centroid_world = [
        (TRI[0][0] + TRI[1][0] + TRI[2][0]) / 3.0,
        (TRI[0][1] + TRI[1][1] + TRI[2][1]) / 3.0,
    ];
    let cx = ((centroid_world[0] * 0.5 + 0.5) * WIDTH as f32) as usize;
    let cy = ((1.0 - (centroid_world[1] * 0.5 + 0.5)) * HEIGHT as f32) as usize;
    assert!(covered(cx, cy), "centroid pixel ({cx},{cy}) was not drawn");

    // A corner far outside the triangle stays at the clear colour.
    assert!(!covered(62, 1) && !covered(1, 62));

    // Reversed-Z: drawn pixels are strictly in front of the cleared depth.
    let idx = cy * WIDTH as usize + cx;
    assert!(depth[idx] > 0.0 && depth[idx] < 1.0, "depth {}", depth[idx]);
    assert_eq!(depth[0], 0.0, "untouched pixels keep the clear value");

    // Coverage must match the analytic area within the rasterisation bound:
    // one pixel of perimeter error per edge, plus the top-left rule's share.
    let analytic = triangle_area();
    let drawn = (0..WIDTH as usize * HEIGHT as usize).filter(|p| covered(p % WIDTH as usize, p / WIDTH as usize)).count() as f32;
    let perimeter = triangle_perimeter();
    let bound = perimeter * 0.5 + 3.0;
    assert!(
        (drawn - analytic).abs() <= bound,
        "drawn {drawn} px, analytic {analytic} px, bound {bound}"
    );
}

#[test]
fn the_pixel_counters_total_exactly_the_pixels_covered() {
    let full_screen = [[-1.0, -1.0], [3.0, -1.0], [-1.0, 3.0]];
    let pixels = WIDTH as u64 * HEIGHT as u64;
    for (threads, tile) in [(1, 64), (8, 64), (4, 16), (8, 32)] {
        let r = render(threads, tile, &full_screen);
        assert_eq!(
            r.stats.pixels_shaded, pixels,
            "{threads} workers, {tile}px tiles: shaded {} of {pixels} covered pixels",
            r.stats.pixels_shaded
        );
        assert_eq!(
            r.stats.pixels_tested, pixels,
            "{threads} workers, {tile}px tiles: tested {} of {pixels} covered pixels",
            r.stats.pixels_tested
        );
        assert_eq!(
            r.stats.tiles_rendered, r.stats.tiles_total,
            "{threads} workers, {tile}px tiles: every tile must publish its work"
        );
    }
}

fn triangle_area() -> f32 {
    // World units to pixels: the ortho box is 2 units wide over WIDTH pixels.
    let scale_x = WIDTH as f32 / 2.0;
    let scale_y = HEIGHT as f32 / 2.0;
    let a = [TRI[0][0] * scale_x, TRI[0][1] * scale_y];
    let b = [TRI[1][0] * scale_x, TRI[1][1] * scale_y];
    let c = [TRI[2][0] * scale_x, TRI[2][1] * scale_y];
    ((b[0] - a[0]) * (c[1] - a[1]) - (b[1] - a[1]) * (c[0] - a[0])).abs() * 0.5
}

fn triangle_perimeter() -> f32 {
    let scale_x = WIDTH as f32 / 2.0;
    let scale_y = HEIGHT as f32 / 2.0;
    let p = |i: usize| [TRI[i][0] * scale_x, TRI[i][1] * scale_y];
    let d = |a: [f32; 2], b: [f32; 2]| ((a[0] - b[0]).powi(2) + (a[1] - b[1]).powi(2)).sqrt();
    d(p(0), p(1)) + d(p(1), p(2)) + d(p(2), p(0))
}

#[test]
fn frame_is_bit_identical_for_1_2_4_and_8_workers() {
    let reference_color = render(1, 64, &TRI).target.color_slice().unwrap().to_vec();
    let reference_depth = render(1, 64, &TRI).target.depth_slice().unwrap().to_vec();
    let reference_hash = checksum_f32(&reference_color);

    for threads in [2u32, 4, 8] {
        let r = render(threads, 64, &TRI);
        assert_eq!(
            checksum_f32(r.target.color_slice().unwrap()),
            reference_hash,
            "colour differs with {threads} workers"
        );
        assert_eq!(r.target.color_slice().unwrap(), reference_color.as_slice(), "colour buffer differs with {threads} workers");
        assert_eq!(r.target.depth_slice().unwrap(), reference_depth.as_slice(), "depth buffer differs with {threads} workers");
    }
}

#[test]
fn tile_size_does_not_change_the_frame() {
    // A tile boundary must not be visible: the same scene at three tile sizes
    // produces the same picture.
    let reference = render(1, 64, &TRI).target.color_slice().unwrap().to_vec();
    for tile in [16u32, 32, 128] {
        let got = render(1, tile, &TRI).target.color_slice().unwrap().to_vec();
        assert_eq!(got, reference, "tile size {tile} changed the frame");
    }
}

#[test]
fn degenerate_and_offscreen_triangles_draw_nothing() {
    let degenerate = render(1, 64, &[[0.0, 0.0], [0.0, 0.0], [0.0, 0.0]]);
    assert_eq!(degenerate.stats.triangles_degenerate, 1);
    assert!(floats(degenerate.target.color_slice().unwrap()).iter().all(|c| *c == 0.0 || *c == 1.0));
    assert_eq!(degenerate.stats.pixels_shaded, 0);

    let offscreen = render(1, 64, &[[-3.0, -3.0], [-2.5, -3.0], [-3.0, -2.5]]);
    assert_eq!(offscreen.stats.pixels_shaded, 0);
}

#[test]
fn back_faces_are_culled_and_two_sided_draws_them_flipped() {
    let clockwise = [[-0.75, -0.5], [0.75, -0.5], [-0.75, 0.6]];
    let flipped = [clockwise[0], clockwise[2], clockwise[1]];
    let front = render(1, 64, &clockwise);
    let back = render(1, 64, &flipped);
    assert!(front.stats.pixels_shaded > 0, "front face drew nothing");
    assert_eq!(back.stats.pixels_shaded, 0, "back face should be culled");
    assert_eq!(back.stats.triangles_culled, 1);

    // With culling off, the same triangle draws the same pixels.
    let both = draw(WIDTH, HEIGHT, 1, 64, &[Shape { cull: Some(CULL_NONE), ..red(&flipped) }], None);
    assert_eq!(both.stats.pixels_shaded, front.stats.pixels_shaded, "two-sided coverage differs");
    assert_eq!(both.target.color_slice().unwrap(), front.target.color_slice().unwrap());
}

#[test]
fn depth_prefers_the_nearer_triangle_in_either_draw_order() {
    // Two overlapping triangles at different depths: the nearer one must win, and
    // the order they are submitted in must not matter.
    let at = [[-0.5, -0.5], [0.5, -0.5], [0.0, 0.5]];
    let near = Shape { at, depth: 0.98, color: [0.0, 1.0, 0.0, 1.0], cull: None };
    let far = Shape { at, depth: 0.88, color: [0.0, 0.0, 1.0, 1.0], cull: None };
    for order in [[near, far], [far, near]] {
        let r = draw(WIDTH, HEIGHT, 1, 64, &order, None);
        let color = floats(r.target.color_slice().unwrap());
        let mid = (32 * WIDTH as usize + 32) * 4;
        assert_eq!(&color[mid..mid + 3], &[0.0, 1.0, 0.0], "nearer triangle lost");
    }
}

#[test]
fn indexed_draws_match_the_unindexed_ones() {
    let indexed = draw(WIDTH, HEIGHT, 1, 64, &[red(&TRI)], Some(&[0, 1, 2]));
    let direct = render(1, 64, &TRI);
    assert_eq!(indexed.stats.pixels_shaded, direct.stats.pixels_shaded);
    assert_eq!(indexed.target.color_slice().unwrap(), direct.target.color_slice().unwrap());
}

#[test]
fn prepare_then_rasterize_allocates_nothing_in_the_frame() {
    let mut raster = Rasterizer::new(RasterConfig { tile_size: 32, worker_threads: 2, ..Default::default() });
    let vertices: Vec<ScreenVertex> = TRI
        .iter()
        .map(|p| {
            let (x, y) = screen(*p, WIDTH, HEIGHT);
            ScreenVertex { needs_clip: false, x, y }
        })
        .collect();
    raster.prepare(WIDTH, HEIGHT, 3, 3).unwrap();
    let draws = [DrawItem {
        vertices: &vertices,
        indices: None,
        pipeline: PipelineState::default(),
        shader: ShaderRef::Surface(0),
        dynamic: false,
        casts_shadow: true,
    }];
    for frame in 0..4 {
        let stats = raster.rasterize(WIDTH, HEIGHT, &draws, (0, 0)).unwrap();
        assert_eq!(stats.allocations_in_frame, 0, "frame {frame} allocated");
    }
}

#[test]
fn identity_transform_puts_geometry_where_the_maths_says() {
    // A triangle covering the whole box fills the whole 2x2 target.
    let shape = Shape {
        at: [[-1.0, -1.0], [3.0, -1.0], [-1.0, 3.0]],
        depth: 0.5,
        color: [1.0, 1.0, 1.0, 1.0],
        cull: Some(CULL_NONE),
    };
    let r = draw(2, 2, 1, 8, &[shape], None);
    assert_eq!(r.stats.pixels_shaded, 4, "the 2x2 target should be fully covered");
    for px in floats(r.target.color_slice().unwrap()).chunks_exact(4) {
        assert_eq!(px, [1.0, 1.0, 1.0, 1.0]);
    }
}

#[test]
fn a_target_without_pixels_is_refused() {
    let mut raster = Rasterizer::new(RasterConfig::default());
    let e = raster.rasterize(0, 4, &[], (0, 0)).unwrap_err();
    assert_eq!(e.message, "zero-sized target");
}
