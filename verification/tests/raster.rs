use reconl::raster::fixed::Setup;
use reconl::raster::single::to_fixed;
use reconl::raster::tile::{tile_count, tile_grid};
use reconl::raster::{checksum_bytes, checksum_f32, rendered_viewport, ShaderRef};

fn setup(v: [[f32; 2]; 3]) -> Option<Setup> {
    let at = |i: usize, k: usize| to_fixed(v[i][k].to_bits());
    Setup::new([at(0, 0), at(1, 0), at(2, 0)], [at(0, 1), at(1, 1), at(2, 1)])
}

#[test]
fn subpixel_snap_is_symmetric() {
    let snap = |v: f32| to_fixed(v.to_bits());
    assert_eq!(snap(1.0), 256);
    assert_eq!(snap(-1.0), -256);
    assert_eq!(snap(0.5), 128);
    assert_eq!(snap(-0.5), -128);
    assert_eq!(snap(1.0 / 1024.0), 0, "half a subpixel rounds to zero");
}

/// Snapping agrees with scaling, rounding and saturating in single precision.
#[test]
fn snapping_agrees_with_the_arithmetic_of_singles() {
    let mut x = 0x1234_5678u32;
    for _ in 0..20_000 {
        x = x.wrapping_mul(1_664_525).wrapping_add(1_013_904_223);
        let v = f32::from_bits(x);
        let scaled = v * 256.0;
        let expected = if !scaled.is_finite() {
            if scaled > 0.0 { i32::MAX } else { i32::MIN }
        } else {
            scaled.round() as i32
        };
        assert_eq!(to_fixed(x), expected, "{v} ({x:#x})");
    }
    assert_eq!(to_fixed(f32::NAN.to_bits()), i32::MIN);
    assert_eq!(to_fixed(f32::INFINITY.to_bits()), i32::MAX);
    assert_eq!(to_fixed(f32::NEG_INFINITY.to_bits()), i32::MIN);
    assert_eq!(to_fixed((1.0f32 / 512.0).to_bits()), 1);
    assert_eq!(to_fixed((-1.0f32 / 512.0).to_bits()), -1);
}

#[test]
fn interior_is_positive_for_a_screen_clockwise_triangle() {
    // v0 top-left, v1 bottom-left, v2 top-right: clockwise on a y-down screen.
    let s = setup([[0.0, 0.0], [0.0, 10.0], [10.0, 0.0]]).unwrap();
    assert!(s.front_facing());
    let e = s.eval_at_pixel(1, 1);
    assert!(e.iter().all(|v| *v > 0), "interior sample failed: {e:?}");
    // Pixel centre (8.5, 8.5) is past the hypotenuse x + y = 10.
    let outside = s.eval_at_pixel(8, 8);
    assert!(outside.iter().any(|v| *v < 0), "outside sample passed every edge: {outside:?}");
}

#[test]
fn winding_flips_the_area_sign() {
    let a = setup([[0.0, 0.0], [0.0, 10.0], [10.0, 0.0]]).unwrap();
    let b = setup([[0.0, 0.0], [10.0, 0.0], [0.0, 10.0]]).unwrap();
    assert!(a.area2 > 0 && b.area2 < 0);
    assert!(a.area2 == -b.area2);
}

#[test]
fn degenerate_triangles_are_rejected() {
    assert!(setup([[0.0, 0.0], [1.0, 0.0], [2.0, 0.0]]).is_none());
    assert!(setup([[0.0, 0.0], [0.0, 0.0], [0.0, 0.0]]).is_none());
}

#[test]
fn bounds_clamp_to_the_target() {
    let s = setup([[-5.0, -5.0], [-5.0, 40.0], [40.0, -5.0]]).unwrap();
    let (x0, y0, x1, y1) = s.bounds(16, 16).unwrap();
    assert_eq!((x0, y0, x1, y1), (0, 0, 16, 16));
    let s = setup([[100.0, 100.0], [100.0, 120.0], [120.0, 100.0]]).unwrap();
    assert!(s.bounds(16, 16).is_none());
}

#[test]
fn top_left_rule_covers_a_shared_edge_exactly_once() {
    // Two triangles filling the square [0,4)x[0,4), sharing the diagonal
    // (0,0)-(4,4). Every pixel centre must be covered exactly once.
    let a = setup([[0.0, 0.0], [0.0, 4.0], [4.0, 4.0]]).unwrap();
    let b = setup([[0.0, 0.0], [4.0, 4.0], [4.0, 0.0]]).unwrap();
    let mut coverage = [[0u32; 4]; 4];
    for t in [&a, &b] {
        for py in 0..4 {
            for px in 0..4 {
                let e = t.eval_at_pixel(px, py);
                if e.iter().all(|v| *v > 0) {
                    coverage[py as usize][px as usize] += 1;
                }
            }
        }
    }
    for row in coverage {
        assert_eq!(row, [1, 1, 1, 1], "coverage: {coverage:?}");
    }
}

/// The viewport rule, which both tiers and both grid sizes go through, so a
/// mistake here is a cross-tier difference rather than a rounding detail.
#[test]
fn the_viewport_resolves_to_a_sub_rect_of_the_target() {
    // Unset means the whole target, in either axis.
    assert_eq!(rendered_viewport((0, 0), (64, 64), (64, 64)), (64, 64));
    assert_eq!(rendered_viewport((0, 48), (64, 64), (64, 64)), (64, 48));
    // The whole frame, asked for explicitly, is the whole target to the byte.
    assert_eq!(rendered_viewport((64, 64), (64, 64), (64, 64)), (64, 64));
    assert_eq!(rendered_viewport((1920, 1080), (1920, 1080), (1920, 1080)), (1920, 1080));
    // A tier that renders at half the frame confines the same fraction.
    assert_eq!(rendered_viewport((32, 32), (64, 64), (32, 32)), (16, 16));
    assert_eq!(rendered_viewport((0, 0), (64, 64), (32, 32)), (32, 32));
    // Rounding: half of an odd frame goes to the nearer target pixel, never
    // to zero and never past the target.
    assert_eq!(rendered_viewport((33, 33), (64, 64), (32, 32)), (17, 17));
    assert_eq!(rendered_viewport((1, 1), (64, 64), (32, 32)), (1, 1));
    assert_eq!(rendered_viewport((1, 1), (1920, 1080), (960, 540)), (1, 1));
    // An oversized viewport is clamped to the target, not refused and not
    // allowed to bin tiles that do not exist.
    assert_eq!(rendered_viewport((128, 128), (64, 64), (64, 64)), (64, 64));
    assert_eq!(rendered_viewport((u32::MAX, u32::MAX), (1920, 1080), (960, 540)), (960, 540));
}

#[test]
fn checksum_is_stable_and_sensitive() {
    let bits = |v: &[f32]| -> Vec<u32> { v.iter().map(|x| x.to_bits()).collect() };
    let a = [0.1f32, 0.2, 0.3];
    let mut b = a;
    assert_eq!(checksum_f32(&bits(&a)), checksum_f32(&bits(&b)));
    b[1] += 1.0e-6;
    assert_ne!(checksum_f32(&bits(&a)), checksum_f32(&bits(&b)));
    assert_eq!(checksum_bytes(b"reconl"), checksum_bytes(b"reconl"));
}

#[test]
fn the_checksum_is_fnv1a() {
    assert_eq!(checksum_bytes(b""), 0xcbf2_9ce4_8422_2325);
    assert_eq!(checksum_bytes(b"a"), 0xaf63_dc4c_8601_ec8c);
    assert_eq!(checksum_bytes(b"foobar"), 0x8594_4171_f739_67e8);
    assert_eq!(checksum_f32(&[0x6f6f_6662]), checksum_bytes(&[0x62, 0x66, 0x6f, 0x6f]));
}

#[test]
fn tiles_cover_a_target_with_no_row_to_spare() {
    assert_eq!(tile_grid(130, 64, 64), (3, 1));
    assert_eq!(tile_count(130, 64, 64), 3);
    assert_eq!(tile_count(128, 65, 64), 4);
}

#[test]
fn only_a_depth_pass_shades_nothing() {
    assert!(ShaderRef::DepthOnly.is_depth_only());
    assert!(!ShaderRef::Surface(0).is_depth_only());
}
