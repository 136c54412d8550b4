use reconl::error::Code;
use reconl::host::abi;
use reconl::host::scene::Bits3;
use reconl::raster::clip::{clip_polygon, fan, Cut, MAX_OUTPUT_TRIANGLES, MAX_POLY};
use reconl::raster::framegen::{check_ahead, generate, next_inside, History, Moved};
use reconl::raster::shade::{Light, LightSet, MAX_LIGHTS};
use reconl::raster::simd::{
    cap_mask, copy_or_fill, detect, fill_f32, fill_f32_scalar, rgba_f32_to_unorm8, Arch,
};
use reconl::raster::single::{at_most, less, to_u8};
use reconl::raster::target::{Rgba, Target};
use reconl::raster::texture::{
    bilinear_taps, nearest_texel, pick_levels, wrap_texel, Pick, Sampler, Texel, TextureLevel,
    FILTER_LINEAR, FILTER_LINEAR_MIP_LINEAR, FILTER_NEAREST, FILTER_NEAREST_MIP_LINEAR, WRAP_CLAMP,
    WRAP_MIRROR, WRAP_REPEAT,
};
use reconl::raster::{Vertex, ATTR_COLOR, ATTR_COUNT, ATTR_NORMAL, ATTR_POSITION, ATTR_UV};

fn bits(v: &[f32]) -> Vec<u32> {
    v.iter().map(|x| x.to_bits()).collect()
}

#[test]
fn vertex_attr_layout_matches_the_abi_offsets() {
    let b = |v: f32| v.to_bits();
    let v = Vertex {
        position: [1.0, 2.0, 3.0].map(b),
        normal: [0.0, 1.0, 0.0].map(b),
        uv: [0.25, 0.75].map(b),
        color: [0.1, 0.2, 0.3, 0.4].map(b),
    };
    let a = v.attrs();
    assert_eq!(&a[ATTR_POSITION..ATTR_POSITION + 3], &[1.0, 2.0, 3.0].map(b));
    assert_eq!(&a[ATTR_NORMAL..ATTR_NORMAL + 3], &[0.0, 1.0, 0.0].map(b));
    assert_eq!(&a[ATTR_UV..ATTR_UV + 2], &[0.25, 0.75].map(b));
    assert_eq!(&a[ATTR_COLOR..ATTR_COLOR + 4], &[0.1, 0.2, 0.3, 0.4].map(b));
    assert_eq!(a.len(), ATTR_COUNT);
    assert_eq!(Vertex::plain([0, 0, 0], [0, 0, 0, 0]).normal, [0.0, 1.0, 0.0].map(b));
}

#[test]
fn unorm8_conversion_rounds_and_clamps() {
    let to_u8 = |v: f32| to_u8(v.to_bits());
    assert_eq!(to_u8(0.0), 0);
    assert_eq!(to_u8(1.0), 255);
    assert_eq!(to_u8(0.5), 128);
    assert_eq!(to_u8(-3.0), 0);
    assert_eq!(to_u8(9.0), 255);
    assert_eq!(to_u8(f32::NAN), 0);
    assert_eq!(to_u8(1.0 / 255.0), 1);
}

/// The nearest byte, as exact arithmetic has it.
#[test]
fn the_byte_is_the_nearest_one() {
    let mut x = 0x1234_5678u32;
    for _ in 0..20_000 {
        x = x.wrapping_mul(1_664_525).wrapping_add(1_013_904_223);
        let v = f32::from_bits(0x3a00_0000 + x % (0x3f80_0000 - 0x3a00_0000));
        let exact = (v as f64 * 255.0 + 0.5).floor() as u8;
        assert_eq!(to_u8(v.to_bits()), exact, "{v}");
    }
}

#[test]
fn target_clear_and_readback() {
    let mut t = Target::new_color(4, 4).unwrap().with_depth().unwrap();
    let c = bits(&[0.0, 0.5, 1.0, 1.0]);
    t.clear_color(Rgba { r: c[0], g: c[1], b: c[2], a: c[3] });
    t.clear_depth(0);
    let mut out = vec![0u8; 4 * 4 * 4];
    t.to_rgba8(&mut out).unwrap();
    assert_eq!(&out[0..4], &[0, 128, 255, 255]);
    assert!(t.depth_slice().unwrap().iter().all(|d| *d == 0));
    assert_eq!(t.pixels(), 16);
}

#[test]
fn readback_rows_honour_the_pitch_and_the_flip() {
    let mut t = Target::new_color(2, 2).unwrap();
    // Two rows, distinguishable per row: row 0 red, row 1 blue.
    let one = 1.0f32.to_bits();
    for i in 0..4 {
        let red = i < 2;
        t.set_color(i * 4, if red { one } else { 0 });
        t.set_color(i * 4 + 2, if red { 0 } else { one });
        t.set_color(i * 4 + 3, one);
    }

    let row_bytes = 2 * 4;
    let pitch = row_bytes + 8;
    let mut out = vec![0xABu8; pitch * 2];
    t.to_rgba8_rows(&mut out, pitch, true).unwrap();
    // Flipped: the buffer's first row is the image's last - blue, then red.
    assert_eq!(&out[0..4], &[0, 0, 255, 255], "row 0 is the image's last row");
    assert_eq!(&out[pitch..pitch + 4], &[255, 0, 0, 255]);
    assert!(
        out[row_bytes..pitch].iter().all(|b| *b == 0xAB)
            && out[pitch + row_bytes..].iter().all(|b| *b == 0xAB),
        "the pitch is the host's, not ours to write"
    );

    // The same frame unflipped, tight: the two must be row-reversals of each
    // other, which is the whole of what `flip` means.
    let mut tight = vec![0u8; row_bytes * 2];
    t.to_rgba8_rows(&mut tight, row_bytes, false).unwrap();
    assert_eq!(&tight[0..4], &[255, 0, 0, 255]);
    assert_eq!(&tight[row_bytes..row_bytes + 4], &[0, 0, 255, 255]);
    assert_eq!(&out[0..row_bytes], &tight[row_bytes..row_bytes * 2]);

    // A single row: a flip is a no-op, not an underflow.
    let mut single = Target::new_color(2, 1).unwrap();
    let quarter = 0.25f32.to_bits();
    single.clear_color(Rgba { r: quarter, g: quarter, b: quarter, a: one });
    let mut buf = vec![0u8; row_bytes];
    single.to_rgba8_rows(&mut buf, row_bytes, true).unwrap();
    assert_eq!(&buf[0..4], &[64, 64, 64, 255]);

    // Refusals, not panics: a destination too small for the last row, and a
    // pitch narrower than a row (which would make rows overlap).
    let too_small = vec![0u8; row_bytes * 2 - 1];
    assert_eq!(
        t.to_rgba8_rows(&mut too_small.clone(), row_bytes, false).unwrap_err().code,
        Code::InvalidArgument
    );
    let mut narrow = vec![0u8; row_bytes * 2];
    assert_eq!(
        t.to_rgba8_rows(&mut narrow, row_bytes - 1, false).unwrap_err().code,
        Code::InvalidArgument
    );
    let depth_only = Target::new_depth(2, 2).unwrap();
    let e = depth_only.to_rgba8(&mut narrow).unwrap_err();
    assert_eq!((e.code, e.message.as_str()), (Code::NotReady, "target has no colour buffer"));
}

#[test]
fn detection_is_at_least_scalar() {
    let caps = detect(Arch::X86 { sse2: true, avx2: false });
    assert!(caps.scalar);
    assert!(caps.sse2, "x86_64 baselines sse2");
    assert!(detect(Arch::Other).scalar);
    assert!(detect(Arch::Aarch64).neon);
    assert!(detect(Arch::Wasm32 { simd128: true }).wasm_simd128);
}

#[test]
fn cap_mask_matches_the_detected_set() {
    for arch in [
        Arch::X86 { sse2: true, avx2: true },
        Arch::X86 { sse2: true, avx2: false },
        Arch::Aarch64,
        Arch::Wasm32 { simd128: true },
        Arch::Other,
    ] {
        let caps = detect(arch);
        let mask = cap_mask(&caps);
        assert_eq!(mask & abi::CAP_SIMD_SSE2 != 0, caps.sse2);
        assert_eq!(mask & abi::CAP_SIMD_AVX2 != 0, caps.avx2);
        assert_eq!(mask & abi::CAP_SIMD_NEON != 0, caps.neon);
        assert_eq!(mask & abi::CAP_SIMD_WASM128 != 0, caps.wasm_simd128);
    }
}

#[test]
fn fill_matches_the_scalar_definition_exactly() {
    let mut a = vec![0.0f32; 1000];
    let mut b = vec![0.0f32; 1000];
    fill_f32(&mut a, -1.5);
    fill_f32_scalar(&mut b, -1.5);
    assert_eq!(a, b);
    // Bit patterns, not just values: -0.0 must survive as -0.0.
    fill_f32(&mut a, -0.0);
    assert!(a.iter().all(|v| v.to_bits() == (-0.0f32).to_bits()));
}

#[test]
fn the_vector_path_agrees_with_the_scalar_definition() {
    let values = [
        f32::NAN, -f32::NAN, f32::INFINITY, f32::NEG_INFINITY, 0.0, -0.0, 1.0, -1.0, 2.0, -2.0, 1.0e-45,
        -1.0e-45, 0.5, 0.5 - 1.0e-7, 0.5 + 1.0e-7, 1.0 / 255.0, 1.0 / 510.0, 254.0 / 255.0,
        1.0 - f32::EPSILON, f32::MIN_POSITIVE,
    ];
    for count in [0usize, 1, 3, 4, 5, 7, 8, 15, 16, 17, 64] {
        let src: Vec<u32> = (0..count * 4).map(|i| values[i % values.len()].to_bits()).collect();
        let mut fast = vec![0u8; count * 4];
        rgba_f32_to_unorm8(&src, &mut fast);
        let defined: Vec<u8> = src.iter().map(|b| to_u8(*b)).collect();
        assert_eq!(fast, defined, "{count} pixels");
    }
}

#[test]
fn the_conversion_matches_the_documented_rule() {
    let src = bits(&[0.0f32, 0.5, 1.0, -0.25, f32::NAN, 2.0, f32::NEG_INFINITY, 0.0]);
    let mut out = vec![0u8; 8];
    rgba_f32_to_unorm8(&src, &mut out);
    assert_eq!(out, vec![0, 128, 255, 0, 0, 255, 0, 0]);
}

#[test]
fn a_partial_pixel_is_ignored_rather_than_written_past_the_end() {
    let src = bits(&[0.25f32; 6]);
    let mut out = vec![7u8; 4];
    rgba_f32_to_unorm8(&src, &mut out);
    assert_eq!(out, vec![64, 64, 64, 64]);
    let src = bits(&[0.25f32; 3]);
    let mut out = vec![7u8; 4];
    rgba_f32_to_unorm8(&src, &mut out);
    assert_eq!(out, vec![7u8; 4], "no whole pixel, nothing written");
}

#[test]
fn copy_or_fill_pads_the_tail() {
    let mut dst = vec![1.0f32; 6];
    copy_or_fill(&mut dst, Some(&[2.0, 3.0]), 9.0);
    assert_eq!(dst, vec![2.0, 3.0, 9.0, 9.0, 9.0, 9.0]);
    copy_or_fill(&mut dst, None, 4.0);
    assert!(dst.iter().all(|v| *v == 4.0));
}

#[test]
fn light_set_refuses_to_overflow_silently() {
    let one = 1.0f32.to_bits();
    let down = Bits3 { x: 0, y: (-1.0f32).to_bits(), z: 0 };
    let white = Bits3 { x: one, y: one, z: one };
    let mut ls = LightSet::new();
    for _ in 0..MAX_LIGHTS {
        assert!(ls.push(Light::directional(down, white, one)));
    }
    assert!(!ls.push(Light::directional(down, white, one)));
    assert_eq!(ls.count(), MAX_LIGHTS as u32);
}

#[test]
fn a_light_set_keeps_its_ambient_term() {
    let mut ls = LightSet::new();
    let Bits3 { x, y, z } = ls.ambient;
    assert_eq!([x, y, z].map(f32::from_bits), [0.06, 0.07, 0.075]);
    let dark = Bits3 { x: 0, y: 0, z: 0 };
    ls.ambient = dark;
    let one = 1.0f32.to_bits();
    assert!(ls.push(Light::directional(dark, dark, one)));
    assert_eq!(ls.ambient, dark);
    assert_eq!(LightSet::default().ambient, LightSet::new().ambient);
}

fn checker() -> Vec<u8> {
    // 2x2: red, green / blue, white
    vec![255, 0, 0, 255, 0, 255, 0, 255, 0, 0, 255, 255, 255, 255, 255, 255]
}

#[test]
fn nearest_picks_the_expected_texel() {
    let data = checker();
    let level = TextureLevel { width: 2, height: 2, data: &data };
    let at = |u: f32, v: f32| nearest_texel(&level, (u * 2.0) as i64, (v * 2.0) as i64);
    assert_eq!(at(0.25, 0.25), Texel { r: 255, g: 0, b: 0, a: 255 });
    assert_eq!(at(0.75, 0.25), Texel { r: 0, g: 255, b: 0, a: 255 });
    assert_eq!(at(0.25, 0.75), Texel { r: 0, g: 0, b: 255, a: 255 });
    assert_eq!(at(1.0, 1.0), Texel { r: 255, g: 255, b: 255, a: 255 });
    assert_eq!(level.texel(0, 2), Texel { r: 0, g: 0, b: 0, a: 255 });
}

#[test]
fn repeat_wrap_is_periodic_and_clamp_is_not() {
    for i in -20i64..20 {
        assert_eq!(wrap_texel(i, 7, WRAP_REPEAT), wrap_texel(i + 7, 7, WRAP_REPEAT), "repeat must wrap");
        assert_eq!(wrap_texel(i, 7, WRAP_REPEAT), i.rem_euclid(7));
        assert_eq!(wrap_texel(i, 7, WRAP_CLAMP), i.clamp(0, 6));
    }
    assert_ne!(wrap_texel(-1, 7, WRAP_CLAMP), wrap_texel(6, 7, WRAP_CLAMP));
    assert_eq!(wrap_texel(i64::MIN, 5, WRAP_REPEAT), i64::MIN.rem_euclid(5));
    assert_eq!(wrap_texel(3, 0, WRAP_REPEAT), 0);
}

#[test]
fn mirror_wrap_folds_back() {
    for i in 0i64..7 {
        assert_eq!(wrap_texel(i, 7, WRAP_MIRROR), i);
        assert_eq!(wrap_texel(-1 - i, 7, WRAP_MIRROR), i);
        assert_eq!(wrap_texel(13 - i, 7, WRAP_MIRROR), i);
    }
}

#[test]
fn bilinear_taps_wrap_each_neighbour() {
    let data = checker();
    let level = TextureLevel { width: 2, height: 2, data: &data };
    let s = Sampler { filter: FILTER_LINEAR, wrap_u: WRAP_REPEAT, wrap_v: WRAP_CLAMP };
    let t = bilinear_taps(&level, &s, -1, -1);
    assert_eq!(t.c00, level.texel(1, 0));
    assert_eq!(t.c10, level.texel(0, 0));
    assert_eq!(t.c01, level.texel(1, 0));
    assert_eq!(t.c11, level.texel(0, 0));
}

#[test]
fn the_lod_cap_clamps_trilinear_selection() {
    assert_eq!(pick_levels(FILTER_LINEAR_MIP_LINEAR, 5, 9, 2), Pick::Bilinear(2));
    assert_eq!(pick_levels(FILTER_LINEAR_MIP_LINEAR, 5, 1, 2), Pick::Trilinear(1));
    assert_eq!(pick_levels(FILTER_LINEAR_MIP_LINEAR, 5, -4, 2), Pick::Trilinear(0));
    assert_eq!(pick_levels(FILTER_NEAREST_MIP_LINEAR, 5, 1, 4), Pick::Nearest(1));
    assert_eq!(pick_levels(FILTER_NEAREST, 5, 3, 4), Pick::Nearest(0));
    assert_eq!(pick_levels(FILTER_LINEAR, 5, 3, 4), Pick::Bilinear(0));
}

#[test]
fn empty_texture_samples_transparent_black() {
    assert_eq!(pick_levels(FILTER_LINEAR, 0, 0, 0), Pick::Nothing);
}

#[test]
fn fully_behind_the_camera_produces_nothing() {
    assert!(clip_polygon(&[false, false, false]).is_empty());
    assert!(fan(0).is_empty());
}

#[test]
fn straddling_the_near_plane_yields_a_quad_inside_the_frustum() {
    let cuts = clip_polygon(&[true, true, false]);
    assert_eq!(
        cuts,
        vec![
            Cut::Cross { from: 2, to: 0 },
            Cut::Keep(0),
            Cut::Keep(1),
            Cut::Cross { from: 1, to: 2 },
        ]
    );
    assert_eq!(fan(cuts.len()), vec![(0, 1, 2), (0, 2, 3)]);
}

#[test]
fn a_polygon_keeps_within_its_limits() {
    assert_eq!(clip_polygon(&[true; 5]).len(), 5);
    assert!(clip_polygon(&[true, true]).is_empty());
    let zigzag: Vec<bool> = (0..12).map(|i| i % 2 == 0).collect();
    assert_eq!(clip_polygon(&zigzag).len(), MAX_POLY);
    assert_eq!(fan(9).len(), 7);
    assert_eq!(fan(20).len(), MAX_OUTPUT_TRIANGLES);
}

#[test]
fn a_still_camera_generates_the_frame_itself() {
    let color: Vec<u8> = (0..64).collect();
    let depth = bits(&[0.5; 16]);
    let source = History { color: &color, depth: &depth, width: 4, height: 4 };
    let mut out = vec![0u8; 64];
    generate(&source, true, &[], 0.5f32.to_bits(), "0.5", &mut out).unwrap();
    assert_eq!(out, color);
}

#[test]
fn generation_is_deterministic_and_bounded() {
    let color = vec![7u8; 64];
    let depth = bits(&[0.5; 16]);
    let ahead = 0.5f32.to_bits();
    let source = History { color: &color, depth: &depth, width: 4, height: 4 };
    let moved = vec![Moved::Sampled(1, 2, 3, 4); 16];
    let mut a = vec![9u8; 70];
    let mut b = vec![9u8; 70];
    generate(&source, false, &moved, ahead, "0.5", &mut a).unwrap();
    generate(&source, false, &moved, ahead, "0.5", &mut b).unwrap();
    assert_eq!(a, b);
    assert_eq!(&a[..8], &[1, 2, 3, 4, 1, 2, 3, 4]);
    assert_eq!(&a[64..], &[9; 6], "nothing past the frame is written");

    let code = |source: &History, ahead: f32, out: usize| {
        let mut out = vec![0u8; out];
        generate(source, true, &[], ahead.to_bits(), &format!("{ahead}"), &mut out).unwrap_err()
    };
    for bad in [0.0f32, -0.5, 1.5, f32::NAN, f32::INFINITY, -0.0] {
        let e = code(&source, bad, 64);
        assert_eq!(e.code, Code::InvalidArgument);
        assert_eq!(e.message, format!("the look-ahead is {bad}; it must be in (0, 1] frame intervals"));
        assert!(check_ahead(bad.to_bits(), "x").is_err());
    }
    assert!(check_ahead(1.0f32.to_bits(), "1").is_ok());
    assert_eq!(code(&source, 0.5, 63).message, "the present buffer is too small for the generated frame");
    let none = History { color: &color, depth: &depth, width: 0, height: 4 };
    assert_eq!(code(&none, 0.5, 64).message, "no frame to generate from");
    let short = History { color: &color[..8], depth: &depth, width: 4, height: 4 };
    assert_eq!(code(&short, 0.5, 64).message, "the retained frame is smaller than its own size");
    let flat = History { color: &color, depth: &[], width: 4, height: 4 };
    assert_eq!(code(&flat, 0.5, 64).code, Code::NotSupported);
}

#[test]
fn background_and_what_was_behind_do_not_move() {
    let color: Vec<u8> = (0..16).collect();
    let depth = bits(&[0.0, f32::NAN, f32::INFINITY, 0.25]);
    let source = History { color: &color, depth: &depth, width: 2, height: 2 };
    let mut out = vec![0u8; 16];
    generate(&source, false, &[Moved::Sampled(90, 91, 92, 93); 4], 1.0f32.to_bits(), "1", &mut out).unwrap();
    assert_eq!(&out[..12], &color[..12]);
    assert_eq!(&out[12..], &[90, 91, 92, 93]);
    generate(&source, false, &[Moved::Behind; 4], 1.0f32.to_bits(), "1", &mut out).unwrap();
    assert_eq!(out, color);
    assert_eq!(next_inside(0, 2), 1);
    assert_eq!(next_inside(1, 2), 1);
}

#[test]
fn bit_patterns_compare_like_the_numbers() {
    let v = [f32::NAN, f32::NEG_INFINITY, -2.0, -1.0e-45, -0.0, 0.0, 1.0e-45, 0.5, 1.0, f32::INFINITY];
    for a in v {
        for b in v {
            assert_eq!(less(a.to_bits(), b.to_bits()), a < b, "{a} {b}");
            assert_eq!(at_most(a.to_bits(), b.to_bits()), a <= b, "{a} {b}");
        }
    }
}
