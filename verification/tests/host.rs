use reconl::host::abi;
use reconl::host::device::{check_spill_dir, failed, last_error, probed_entries, Config};
use reconl::host::frame;
use reconl::host::frame::{Command, FrameCost, Handle, Options};
use reconl::host::ledger;
use reconl::host::ledger::Counters;
use reconl::host::names::{cap, caps, caps_list, field, filter, ladder, shading, CAP_COUNT};
use reconl::host::scene::{Chunk, Scene, ShadowMode};
use reconl::host::units;
use reconl::host::units::{bytes, fps, mpix_per_sec, ns, parse_size, reject_unknown};

#[test]
fn fixed_size_fields_stop_at_the_nul() {
    let mut buf = [0u8; 8];
    buf[..3].copy_from_slice(b"gpu");
    assert_eq!(field(&buf), "gpu");
    assert_eq!(field(b"no terminator"), "no terminator");
    assert_eq!(field(&[]), "");
}

#[test]
fn a_field_that_is_no_utf8_is_still_read() {
    assert_eq!(field(&[0x41, 0xFF, 0x42, 0, 0x43]), "A\u{FFFD}B");
    assert_eq!(field("caf\u{e9}".as_bytes()), "caf\u{e9}");
}

#[test]
fn filter_and_shading_names_match_the_header() {
    assert_eq!(filter(0), "hard");
    assert_eq!(filter(1), "pcf3x3");
    assert_eq!(filter(2), "pcf5x5");
    assert_eq!(filter(3), "pcss-lite");
    assert_eq!(filter(9), "pcss-lite", "out of range clamps like the ABI's from_u32");
    assert_eq!(shading(1), "lambert");
    assert_eq!(shading(3), "textured-lambert");
}

#[test]
fn every_capability_bit_is_named_and_none_is_dropped() {
    let all = (0..CAP_COUNT).map(cap).fold(0u32, |acc, (bit, _)| acc | bit);
    assert_eq!(caps_list(all).len(), CAP_COUNT);
    assert_eq!(caps(0), "none");
    assert_eq!(caps(abi::CAP_SHADOWS | abi::CAP_MULTITHREAD), "shadows, multithread");
    // A bit the ABI gains before this tool knows about it still shows up.
    assert!(caps(all | (1 << 31)).contains("unknown:0x80000000"));
}

#[test]
fn unnamed_bits_are_reported_together() {
    assert_eq!(caps(0x8000), "unknown:0x8000");
    assert_eq!(caps(0x1_8001), "textures, unknown:0x18000");
    assert_eq!(shading(0), "unlit");
    assert_eq!(shading(7), "unknown");
    assert_eq!(ladder(2), (2, "T2"));
}

#[test]
fn shadow_mode_names_round_trip() {
    for mode in [ShadowMode::Off, ShadowMode::On, ShadowMode::Cached] {
        assert_eq!(ShadowMode::from_name(mode.name()), Some(mode));
    }
    assert_eq!(ShadowMode::from_name("sometimes"), None);
}

#[test]
fn sizes_round_trip_through_their_own_units() {
    assert_eq!(bytes(0), "0 B");
    assert_eq!(bytes(512), "512 B");
    assert_eq!(bytes(64 << 20), "64.0 MiB");
    assert_eq!(parse_size("64MB").unwrap(), 64 << 20);
    assert_eq!(parse_size("64MiB").unwrap(), 64 << 20);
    assert_eq!(parse_size("64M").unwrap(), 64 << 20);
    assert_eq!(parse_size("1024").unwrap(), 1024);
    assert_eq!(parse_size("1.5G").unwrap(), (1.5 * (1u64 << 30) as f64) as u64);
    assert_eq!(bytes(parse_size("8MiB").unwrap()), "8.0 MiB");
}

/// Every whole number of a unit reads back as the size it was printed from.
#[test]
fn whole_units_read_back() {
    for unit in 0..5u32 {
        for m in [1u64, 2, 7, 10, 100, 512, 1000, 1023] {
            let n = m << (10 * unit);
            assert_eq!(parse_size(&bytes(n)), Ok(n));
        }
    }
    assert_eq!(bytes(1 << 50), "1.0 PiB");
    assert!(parse_size("1.0 PiB").is_err(), "a petabyte has no suffix");
}

/// Sizes are divided and rounded as doubles are.
#[test]
fn sizes_print_like_doubles() {
    let mut x = 0x9E37_79B9_7F4A_7C15u64;
    for shift in 0..64u32 {
        for _ in 0..20 {
            x = x.wrapping_mul(0xD129_0D3D_8D2A_6F35).wrapping_add(0x1357_9BDF);
            let n = x >> shift;
            let mut value = n as f64;
            let mut unit = 0;
            while value >= 1024.0 && unit < 5 {
                value /= 1024.0;
                unit += 1;
            }
            let expected = if n < 1024 {
                format!("{n} B")
            } else {
                format!("{value:.1} {}", ["B", "KiB", "MiB", "GiB", "TiB", "PiB"][unit])
            };
            assert_eq!(bytes(n), expected, "{n}");
        }
    }
    assert_eq!(bytes(u64::MAX), "16384.0 PiB");
    assert_eq!(bytes((1 << 20) - 1), "1024.0 KiB");
}

/// Times and rates are divided and rounded as doubles are.
#[test]
fn times_and_rates_print_like_doubles() {
    let mut x = 0x2545_F491_4F6C_DD1Du64;
    for shift in 0..64u32 {
        for _ in 0..20 {
            x = x.wrapping_mul(0x5851_F42D_4C95_7F2D).wrapping_add(0x1405_7B7E);
            let n = (x >> shift).max(1);
            let p = x.rotate_left(17) >> (63 - shift);
            let time = if n < 1_000 {
                format!("{n} ns")
            } else if n < 1_000_000 {
                format!("{:.1} us", n as f64 / 1e3)
            } else if n < 1_000_000_000 {
                format!("{:.3} ms", n as f64 / 1e6)
            } else {
                format!("{:.3} s", n as f64 / 1e9)
            };
            assert_eq!(ns(n), time, "{n}");
            assert_eq!(fps(n), format!("{:.1}", 1e9 / n as f64), "{n}");
            assert_eq!(
                mpix_per_sec(p, n),
                format!("{:.2} Mpix/s", p as f64 / (n as f64 / 1e9) / 1e6),
                "{p} {n}"
            );
        }
    }
    assert_eq!(mpix_per_sec(0, 5), "0.00 Mpix/s");
    assert_eq!(mpix_per_sec(u64::MAX, 1), format!("{:.2} Mpix/s", u64::MAX as f64 / (1.0 / 1e9) / 1e6));
}

/// A fraction is read, multiplied and cut off as a double is.
#[test]
fn fractions_read_like_doubles() {
    let texts = [
        "0.1", "0.3", ".5", "5.", "1.7", "2.999999999999999999", "1023.9999", "0.0000000000009",
        "0.00000000000090949470177292823791503906250000001", "18446744073709551615.9",
        "18446744073709551616.0", "99999999999999999999999.25", "0.00000000000000000000000001",
        "9007199254740993.0", "9007199254740992.99999", "4503599627370497.5", "0.333333333333333333333",
        "123456789.123456789123456789", "00000000000000000000000012.50000000000000000000000000000",
        "1.000000000000000111022302462515654042363166809082031250",
        "1.000000000000000111022302462515654042363166809082031251",
        "1.000000000000000111022302462515654042363166809082031249", "0.0", ".0",
    ];
    for text in texts {
        let value: f64 = text.parse().unwrap();
        for (suffix, m) in [("", 1u64), ("B", 1), ("K", 1 << 10), ("MB", 1 << 20), ("GiB", 1 << 30), ("T", 1 << 40)] {
            let given = format!("{text}{suffix}");
            assert_eq!(parse_size(&given), Ok((value * m as f64) as u64), "{given}");
        }
    }
}

#[test]
fn bad_sizes_are_refused_with_the_offending_text() {
    for bad in ["", "MB", "12X", "1.2.3", "-4"] {
        let e = parse_size(bad).unwrap_err();
        assert!(e.contains(bad) || bad.is_empty(), "`{bad}` produced `{e}`");
    }
}

#[test]
fn each_bad_size_says_what_is_wrong() {
    assert_eq!(
        parse_size("x").unwrap_err(),
        "`x` is not a size: expected a number, optionally followed by K/M/G/T"
    );
    assert_eq!(
        parse_size("12 q").unwrap_err(),
        "`12 q`: `Q` is not a size suffix (use B, K, M, G or T)"
    );
    assert_eq!(parse_size("1.2.3").unwrap_err(), "`1.2.3` is not a number");
    assert_eq!(parse_size(".").unwrap_err(), "`.` is not a number");
    assert_eq!(parse_size("18446744073709551616").unwrap_err(), "`18446744073709551616` is not a number");
    assert_eq!(parse_size("99999999T").unwrap_err(), "`99999999T` overflows");
    assert_eq!(parse_size("  7 kib\t"), Ok(7 << 10));
    assert_eq!(parse_size("\u{3000}7\u{a0}m"), Ok(7 << 20));
}

#[test]
fn zero_time_prints_as_zero_not_as_a_measurement() {
    assert_eq!(ns(0), "0");
    assert_eq!(ns(999), "999 ns");
    assert_eq!(ns(1_500), "1.5 us");
    assert_eq!(ns(2_500_000), "2.500 ms");
    assert_eq!(fps(0), "0");
    assert_eq!(mpix_per_sec(1000, 0), "0");
}

#[test]
fn unknown_options_are_rejected() {
    let args = vec!["--frames=60".to_string(), "--frumes=3".to_string()];
    assert_eq!(reject_unknown(&args, &["--frames"]).unwrap_err(), "unknown option `--frumes`");
    assert!(reject_unknown(&vec!["--frames=60".into()], &["--frames"]).is_ok());
    assert!(reject_unknown(&vec!["stray".into()], &[]).is_err());
}

#[test]
fn arguments_are_looked_up_by_their_prefix() {
    let args: Vec<String> = ["--a=1", "--ab=2", "--a=3", "--c", "--d=="].iter().map(|s| s.to_string()).collect();
    assert_eq!(units::value_of(&args, "--a"), Some("1"));
    assert_eq!(units::value_of(&args, "--ab"), Some("2"));
    assert_eq!(units::value_of(&args, "--c"), None);
    assert_eq!(units::value_of(&args, "--d"), Some("="));
    assert!(units::has_flag(&args, "--c"));
    assert!(!units::has_flag(&args, "--a"));
    assert_eq!(units::parse_u32("+12", "count"), Ok(12));
    assert_eq!(units::parse_u32("4294967295", "count"), Ok(u32::MAX));
    for bad in ["", "+", "-1", "4294967296", "1 ", "0x1"] {
        assert_eq!(units::parse_u32(bad, "count").unwrap_err(), format!("`{bad}` is not a valid count"));
    }
    assert_eq!(
        reject_unknown(&["stray".to_string()], &[]).unwrap_err(),
        "unexpected argument `stray` — options take their value with `=`, e.g. --png=FILE"
    );
}

#[test]
fn backend_and_tier_names_resolve_the_way_the_cli_spells_them() {
    assert_eq!(Config::backend_from_name("auto"), Some(abi::BACKEND_NONE));
    assert_eq!(Config::backend_from_name("soft-cpu"), Some(abi::BACKEND_SOFT_CPU));
    assert_eq!(Config::backend_from_name("d3d11"), Some(abi::BACKEND_D3D11));
    assert_eq!(Config::backend_from_name("d3d9"), None);
    assert_eq!(Config::tier_from_name("t2"), Some(2));
    assert_eq!(Config::tier_from_name("cpu-ram"), Some(2));
    assert_eq!(Config::tier_from_name("9"), Some(4), "a tier above the ladder clamps");
    assert_eq!(Config::tier_from_name("nonsense"), None);
}

#[test]
fn a_configuration_asks_for_a_budget_only_when_it_caps_something() {
    let mut config = Config::default();
    assert!(config.budget().is_none());
    config.disk_cap = 7;
    let budget = config.budget().unwrap();
    assert_eq!((budget.disk_cap_bytes, budget.ram_cap_bytes, budget.allow_disk_spill), (7, 0, 0));
    config = Config::default();
    config.spill_dir = Some("here".to_string());
    assert!(config.budget().is_some());
    assert!(check_spill_dir("here").is_ok());
    assert_eq!(check_spill_dir("a\0b").unwrap_err(), "spill dir `a\0b` contains a NUL");
    assert_eq!(probed_entries(3), 3);
    assert_eq!(probed_entries(u32::MAX), abi::MAX_BACKENDS);
}

#[test]
fn a_failure_names_the_call_and_its_result() {
    assert_eq!(failed("reconlSubmit", "RECONL_ERR_DEVICE_LOST", -6), "reconlSubmit: RECONL_ERR_DEVICE_LOST (-6)");
    assert_eq!(failed("x", "y", i32::MIN), "x: y (-2147483648)");
    assert_eq!(last_error(-1, "no such thing", "BAD"), Some("no such thing (BAD)".to_string()));
    assert_eq!(last_error(0, "nothing has failed", "OK"), None);
    assert_eq!(last_error(-1, "", "BAD"), None);
}

#[test]
fn a_free_of_an_unknown_block_saturates_rather_than_wrapping() {
    let mut c = Counters::default();
    ledger::note_alloc(&mut c, 64);
    ledger::reset(&mut c);
    ledger::note_free(&mut c, 64);
    assert_eq!(c.live_bytes, 0, "no negative live bytes in an unsigned ledger");
    ledger::note_alloc(&mut c, 1024);
    assert_eq!(ledger::counters(&c).live_bytes, 1024);
}

#[test]
fn blocks_round_trip_and_the_counters_balance() {
    let mut c = Counters::default();
    let plan = ledger::plan_block(1000, 64).unwrap();
    assert_eq!((plan.size, plan.align, plan.total), (1000, 64, 1080));
    assert_eq!(ledger::aligned_address(4096 + 8, plan.align) % 64, 0, "alignment is honoured");
    ledger::note_alloc(&mut c, 1000);
    ledger::note_alloc(&mut c, 4096);
    let after = ledger::counters(&c);
    assert_eq!(after.alloc_calls, 2);
    assert_eq!(after.alloc_bytes, 5096);
    assert_eq!(after.live_bytes, 5096);
    assert_eq!(after.peak_bytes, 5096);
    ledger::note_free(&mut c, 1000);
    ledger::note_free(&mut c, 4096);
    let end = ledger::counters(&c);
    assert_eq!(end.free_calls, 2);
    assert_eq!(end.live_bytes, 0);
    assert_eq!(end.live_blocks(), 0);
    assert_eq!(end.peak_bytes, 5096, "the peak is a high-water mark, not the current");
}

#[test]
fn realloc_moves_the_bytes_and_keeps_the_ledger_straight() {
    let mut c = Counters::default();
    ledger::note_alloc(&mut c, 8);
    ledger::note_alloc(&mut c, 64);
    assert_eq!(ledger::kept_bytes(8, 64), 8);
    ledger::note_free(&mut c, 8);
    assert_eq!(c.live_bytes, 64, "the old block was given back");
    ledger::note_free(&mut c, 64);
    assert_eq!(c.live_bytes, 0);
}

#[test]
fn a_block_is_planned_around_its_bookkeeping() {
    let plan = ledger::plan_block(0, 3).unwrap();
    assert_eq!((plan.size, plan.align, plan.total), (1, 16, 33));
    assert_eq!(ledger::plan_block(1, 1 << 20).unwrap().align, 4096);
    assert!(ledger::plan_block(usize::MAX, 16).is_none());
    for raw in 1000usize..1100 {
        let at = ledger::aligned_address(raw, 64);
        assert_eq!(at % 64, 0);
        assert!(at >= raw + 16 && at + 1000 <= raw + 1080);
    }
    let mut c = Counters::default();
    ledger::note_alloc(&mut c, u64::MAX);
    ledger::note_alloc(&mut c, 5);
    assert_eq!((c.alloc_bytes, c.live_bytes, c.peak_bytes), (u64::MAX, u64::MAX, u64::MAX));
}

/// The scene's own definition of itself: one ground quad and one triangle,
/// three triangles in total, under a light that casts.
#[test]
fn the_reference_scene_is_the_shape_it_documents() {
    let scene = Scene::reference();
    assert_eq!(scene.chunks.len(), 2);
    assert_eq!(scene.chunks[0].verts.len(), 4);
    assert_eq!(scene.chunks[1].verts.len(), 3);
    assert_eq!(scene.triangle_count(), 3, "two ground triangles plus the caster");
    assert!(scene.light.cast_shadow);
    assert!(scene.shadows.enabled);
    assert_eq!(scene.shadows.cascade_count, 2);
    // The caster is wound like the ground.
    let turn = |chunk: &Chunk| -> f32 {
        let at = |i: usize| {
            let p = chunk.verts[chunk.indices[i] as usize].pos;
            [f32::from_bits(p.x), f32::from_bits(p.y), f32::from_bits(p.z)]
        };
        let (a, b, d) = (at(0), at(1), at(2));
        let ab = [b[0] - a[0], b[1] - a[1], b[2] - a[2]];
        let ad = [d[0] - a[0], d[1] - a[1], d[2] - a[2]];
        ab[2] * ad[0] - ab[0] * ad[2]
    };
    let (ground_turn, caster_turn) = (turn(&scene.chunks[0]), turn(&scene.chunks[1]));
    assert!(
        ground_turn * caster_turn > 0.0,
        "caster winding {caster_turn} must match the ground's {ground_turn}",
    );
}

#[test]
fn the_reference_scene_holds_its_numbers() {
    let scene = Scene::reference();
    let v = scene.chunks[0].verts[2];
    assert_eq!((f32::from_bits(v.pos.x), f32::from_bits(v.pos.y), f32::from_bits(v.pos.z)), (16.0, 0.0, 16.0));
    assert_eq!((f32::from_bits(v.col.x), f32::from_bits(v.col.y), f32::from_bits(v.col.z)), (0.25, 0.35, 1.0));
    let v = scene.chunks[1].verts[1];
    assert_eq!((f32::from_bits(v.pos.x), f32::from_bits(v.pos.y), f32::from_bits(v.pos.z)), (5.55, 4.3, -4.5));
    assert_eq!(f32::from_bits(v.col.x), 0.95);
    assert_eq!(f32::from_bits(v.nrm.y), 1.0);
    assert_eq!(f32::from_bits(scene.camera.fov_y_deg), 45.0);
    assert_eq!(f32::from_bits(scene.camera.near), 0.5);
    assert_eq!(f32::from_bits(scene.camera.far), 100.0);
    assert_eq!(f32::from_bits(scene.camera.eye_height), 13.0);
    assert_eq!(f32::from_bits(scene.camera.eye_distance), 10.0);
    assert_eq!(f32::from_bits(scene.light.direction.z), 1.55);
    assert_eq!(f32::from_bits(scene.light.direction.y), -1.0);
    assert_eq!(f32::from_bits(scene.light.direction.x), 0.10);
    assert_eq!(f32::from_bits(scene.shadows.max_distance), 77.0);
    assert_eq!(f32::from_bits(scene.shadows.depth_bias), 5.0e-4);
    assert_eq!(f32::from_bits(scene.shadows.slope_bias), 1.75);
    assert_eq!(f32::from_bits(scene.shadows.normal_bias), 1.25);
    assert_eq!(f32::from_bits(scene.shadows.blend_band), 3.0);
    assert_eq!(scene.shadows.texel_budget_bytes, 8 << 20);
}

#[test]
fn the_three_shadow_modes_differ_only_in_shadows() {
    let off = Scene::with_shadow_mode(ShadowMode::Off);
    let on = Scene::with_shadow_mode(ShadowMode::On);
    let cached = Scene::with_shadow_mode(ShadowMode::Cached);
    assert!(!off.shadows.enabled && !off.light.cast_shadow);
    assert_eq!(on.shadows.enabled, true);
    assert_eq!(cached.shadows.freeze_static_cascade, true);
    assert_eq!(cached.shadows.allow_disk_cache, true);
    // Geometry and camera are identical across modes: a shadow mode changes
    // the shadow pass, never the scene.
    assert_eq!(off.chunks.len(), cached.chunks.len());
    assert_eq!(off.camera, on.camera);
}

#[test]
fn a_frame_presents_pixels_and_costs_what_it_reports() {
    let cost = FrameCost { begin_ns: 3, submit_ns: 40, present_ns: 500 };
    assert_eq!(cost.total_ns(), cost.begin_ns + cost.submit_ns + cost.present_ns);
    assert_eq!(FrameCost::default().total_ns(), 0);
}

#[test]
fn an_undersized_present_buffer_is_refused_before_the_abi_is_touched() {
    let e = frame::check_present(16, 64, 64).unwrap_err();
    assert!(e.contains("present buffer"), "{e}");
    assert_eq!(e, "present buffer is 16 bytes, a 64x64 frame needs 16384");
    assert!(frame::check_present(frame::frame_bytes(64, 64), 64, 64).is_ok());
}

#[test]
fn an_instanced_plan_moves_each_mesh_by_its_own_model() {
    let plan = frame::plan_frame(&[6, 3], &[0, 1]);
    assert!(plan.refused.is_none());
    assert_eq!(
        plan.commands,
        vec![
            Command::BeginPass,
            Command::PushViewProj,
            Command::SetPipeline,
            Command::SetVertexBuffer(0),
            Command::SetIndexBuffer(0),
            Command::PushModel(0),
            Command::DrawIndexed(6),
            Command::SetPipeline,
            Command::SetVertexBuffer(1),
            Command::SetIndexBuffer(1),
            Command::PushModel(1),
            Command::DrawIndexed(3),
            Command::EndPass,
        ]
    );
}

#[test]
fn an_instance_naming_a_missing_chunk_is_refused_by_the_host() {
    let plan = frame::plan_frame(&[6, 3], &[0, 7, 1]);
    let e = plan.refused.unwrap();
    assert!(e.contains("chunk 7"), "{e}");
    assert_eq!(e, "an instance names chunk 7 but the scene has 2 chunks");
    assert_eq!(plan.commands.len(), 2 + 5 + 1);
    assert_eq!(plan.commands.last(), Some(&Command::EndPass));
}

#[test]
fn a_list_sized_for_its_repeat_count_records_the_whole_frame() {
    let scene = Scene::reference();
    let indices: Vec<usize> = scene.chunks.iter().map(|c| c.indices.len()).collect();
    for repeat in [1u32, 16, 64] {
        let options = Options { repeat, ..Options::default() };
        let plan = frame::plan_frame(&indices, &frame::scene_plan(2, repeat));
        assert!(plan.refused.is_none());
        assert_eq!(plan.commands.len() as u32, frame::commands_per_frame(2, &options));
        assert_eq!(frame::command_list_bytes(2, &options), Some(frame::commands_per_frame(2, &options) * 64));
    }
    let options = Options { max_draws: 7, ..Options::default() };
    assert_eq!(frame::commands_per_frame(2, &options), 38);
}

#[test]
fn a_command_list_holds_what_it_was_sized_for_and_no_more() {
    let options = Options { max_draws: 7, ..Options::default() };
    let capacity = frame::command_list_bytes(2, &options).unwrap();
    assert_eq!(capacity, 38 * 64);
    assert!(frame::fits_list(38, capacity));
    assert!(!frame::fits_list(39, capacity));
    // The longest list there can be, and one draw more.
    let longest = (u32::MAX / 64 - 3) / 5;
    let options = Options { max_draws: longest, ..Options::default() };
    assert_eq!(frame::command_list_bytes(2, &options), Some((longest * 5 + 3) * 64));
    let options = Options { max_draws: longest + 1, ..Options::default() };
    assert_eq!(frame::command_list_bytes(2, &options), None);
    let options = Options { repeat: u32::MAX, ..Options::default() };
    assert_eq!(frame::command_list_bytes(usize::MAX, &options), None);
}

#[test]
fn a_renderer_is_created_and_released_in_one_order() {
    let mut created = Vec::new();
    while let Some(h) = frame::next_handle(2, created.len()) {
        created.push(h);
    }
    assert_eq!(
        created,
        vec![
            Handle::Swapchain,
            Handle::Pipeline,
            Handle::Commands,
            Handle::Vertices(0),
            Handle::Indices(0),
            Handle::Vertices(1),
            Handle::Indices(1),
        ]
    );
    for n in 0..=created.len() {
        assert_eq!(frame::release_order(n), created[..n]);
    }
    assert_eq!(frame::creation_call(Handle::Indices(3)), "reconlCreateBuffer (indices)");
    assert_eq!(frame::creation_call(Handle::Vertices(0)), "reconlCreateBuffer (vertices)");
}
