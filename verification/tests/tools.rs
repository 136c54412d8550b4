use reconl::bench::options::options_from;
use reconl::bench::ratio::{gcd, images_in_interval, parse_ratio};
use reconl::bench::report;
use reconl::bench::report::Totals;
use reconl::bench::run::{Field, FrameStats, Images, Run};
use reconl::bench::session::{audit_due, Action, Session};
use reconl::bench::start;
use reconl::bench::start::{Request, Version};
use reconl::diff;
use reconl::diff::{Command, Failure};
use reconl::host::abi;
use reconl::host::frame::FrameCost;
use reconl::host::ledger::Counters;
use reconl::host::scene::{Scene, ShadowMode};
use reconl::info;
use reconl::info::Probed;
use reconl::png::{read_rgba8, write_rgba8, Image};

fn args(list: &[&str]) -> Vec<String> {
    list.iter().map(|s| s.to_string()).collect()
}

#[test]
fn options_have_defaults_and_floors() {
    let o = options_from(&args(&[])).unwrap();
    assert_eq!((o.frames, o.warmup, o.width, o.height, o.repeat), (60, 5, 64, 64, 1));
    assert_eq!(o.shadows, ShadowMode::On);
    assert!(o.audit_every.is_none() && o.trace.is_none() && o.png.is_none() && o.framegen.is_none());
    let o = options_from(
        &args(&[
            "--backend=soft-cpu", "--tier=cpu-ram", "--frames=0", "--warmup=0", "--width=9", "--resolution=12X0",
            "--repeat=0", "--shadows=cached", "--threads=3", "--ram-cap=64MB", "--vram-cap=1K", "--disk-cap=7",
            "--spill=on", "--spill-dir=here", "--target-ms=16", "--audit=0", "--trace=t.csv", "--png=p.png",
            "--framegen=1.5",
        ]),
    )
    .unwrap();
    assert_eq!((o.frames, o.warmup, o.width, o.height, o.repeat), (1, 0, 12, 1, 1));
    assert_eq!((o.config.backend, o.config.tier, o.config.threads), (abi::BACKEND_SOFT_CPU, 2, 3));
    assert_eq!((o.config.ram_cap, o.config.vram_cap, o.config.disk_cap), (64 << 20, 1024, 7));
    assert!(o.config.allow_disk_spill);
    assert_eq!(o.config.spill_dir.as_deref(), Some("here"));
    assert_eq!(o.config.target_frame_ms, 16);
    assert_eq!(o.audit_every, Some(1));
    assert_eq!((o.trace.as_deref(), o.png.as_deref()), (Some("t.csv"), Some("p.png")));
    assert_eq!(o.framegen, Some((3, 2)));
}

#[test]
fn each_bad_option_says_what_is_wrong() {
    let bad = |list: &[&str]| match options_from(&args(list)) {
        Ok(_) => panic!("accepted"),
        Err(e) => e,
    };
    assert_eq!(bad(&["--backend=d3d9"]), "`d3d9` is not a backend (see --help)");
    assert_eq!(bad(&["--tier=x"]), "`x` is not a tier (see --help)");
    assert_eq!(bad(&["--frames=x"]), "`x` is not a valid frame count");
    assert_eq!(bad(&["--warmup=-1"]), "`-1` is not a valid warmup count");
    assert_eq!(bad(&["--width="]), "`` is not a valid frame width");
    assert_eq!(bad(&["--height=1.0"]), "`1.0` is not a valid frame height");
    assert_eq!(bad(&["--resolution=64"]), "`64` is not a resolution: expected WxH");
    assert_eq!(bad(&["--resolution=64xy"]), "`y` is not a valid frame height");
    assert_eq!(bad(&["--repeat=z"]), "`z` is not a valid repeat count");
    assert_eq!(bad(&["--shadows=maybe"]), "`maybe` is not a shadow mode: off, on or cached");
    assert_eq!(bad(&["--threads=a"]), "`a` is not a valid thread count");
    assert!(bad(&["--ram-cap=a"]).contains("is not a size"));
    assert_eq!(bad(&["--target-ms=a"]), "`a` is not a valid target frame time");
    assert_eq!(bad(&["--audit=a"]), "`a` is not a valid audit interval");
    assert_eq!(bad(&["--framegen=two"]), "`two` is not a ratio: expected a number like 2 or 1.5");
    // The first fault is the one that is told.
    assert_eq!(bad(&["--audit=a", "--frames=x"]), "`x` is not a valid frame count");
}

/// A mistyped option is an error, not a silently ignored default - and an option
/// whose value was written as a separate argument says so.
#[test]
fn cli_a_mistyped_option_is_refused() {
    match start::request(&args(&["--frams=10"])) {
        Request::Refused(e) => assert!(e.contains("unknown option"), "{e}"),
        _ => panic!("accepted"),
    }
    match start::request(&args(&["--png", "out.png"])) {
        Request::Refused(e) => assert!(e.contains("take their value with `=`"), "{e}"),
        _ => panic!("accepted"),
    }
    assert!(matches!(start::request(&args(&["--frams=10", "-h"])), Request::Help));
    assert!(matches!(start::request(&args(&["--frames=10"])), Request::Go(_)));
    match info::request(&args(&["--probe"])) {
        info::Request::Refused(e) => assert!(e.contains("unknown option"), "{e}"),
        _ => panic!("accepted"),
    }
    assert!(info::config_from(&args(&["--backend=softcpu7"])).unwrap_err().contains("is not a backend"));
}

#[test]
fn a_ratio_is_reduced_and_bounded() {
    let range = "is outside the range this can schedule: 1.0 (off) to 4.0";
    assert_eq!(parse_ratio("1.0"), Ok((1, 1)));
    assert_eq!(parse_ratio("1.5"), Ok((3, 2)));
    assert_eq!(parse_ratio("2"), Ok((2, 1)));
    assert_eq!(parse_ratio("1.25"), Ok((5, 4)));
    assert_eq!(parse_ratio("4"), Ok((4, 1)));
    assert_eq!(
        parse_ratio("4.5").unwrap_err(),
        format!("`4.5` {range} - beyond four images per frame the reprojection is extrapolating past its own interval")
    );
    for low in ["0.5", "0", "nan", "-5.0", "-inf", "1e-1", "0.99999999999999999999", "1e-99999999999999999999999"] {
        assert_eq!(parse_ratio(low).unwrap_err(), format!("`{low}` {range}"));
    }
    for high in ["inf", "+Infinity", "1e1", "4.00000000000000000000001", "1e99999999999999999999999"] {
        assert!(parse_ratio(high).unwrap_err().contains("beyond four"), "{high}");
    }
    for none in ["", "+", "two", ".", "1.5x", "1e", "1e+", " 2", "1.2.3", "--2", "infinit"] {
        assert_eq!(
            parse_ratio(none).unwrap_err(),
            format!("`{none}` is not a ratio: expected a number like 2 or 1.5")
        );
    }
    assert_eq!(gcd(0, 0), 1);
    assert_eq!(gcd(12, 18), 6);
}

/// The schedule is built from the ratio, so the ratio is the number that was
/// written and not one near it.
#[test]
fn a_ratio_is_kept_exact() {
    assert_eq!(parse_ratio("1.125"), Ok((9, 8)));
    assert_eq!(parse_ratio("3.999"), Ok((3999, 1000)));
    assert_eq!(parse_ratio("1.1"), Ok((11, 10)));
    assert_eq!(parse_ratio("1.000000001"), Ok((1_000_000_001, 1_000_000_000)));
    assert_eq!(parse_ratio("+0012.5e-1"), Ok((5, 4)));
    assert_eq!(parse_ratio("150.000E-2"), Ok((3, 2)));
    assert_eq!(parse_ratio(".2e1"), Ok((2, 1)));
    assert_eq!(parse_ratio("3."), Ok((3, 1)));
    // 1 + 2^-31, the finest there is.
    assert_eq!(parse_ratio("1.0000000004656612873077392578125"), Ok((2_147_483_649, 2_147_483_648)));
    for fine in ["1.0000000001", "1.00000000023283064365386962890625", "1.3333333333333333333333333333333333333333"] {
        assert_eq!(
            parse_ratio(fine).unwrap_err(),
            format!("`{fine}` cannot be scheduled exactly: as a fraction it takes more than 32 bits")
        );
    }
    // Every ratio of hundredths, against its own arithmetic.
    for h in 100..=400u128 {
        let g = gcd(h, 100);
        let text = format!("{}.{:02}", h / 100, h % 100);
        assert_eq!(parse_ratio(&text), Ok(((h / g) as u32, (100 / g) as u32)), "{text}");
    }
}

#[test]
fn a_schedule_presents_what_its_ratio_says() {
    for (num, den) in [(1u32, 1u32), (3, 2), (2, 1), (133, 100), (4, 1), (5, 4)] {
        let mut total = 0;
        for i in 0..500u32 {
            let n = images_in_interval(i, num, den);
            assert!(n >= 1);
            total += n;
            assert_eq!(total, ((i + 1) * num).div_ceil(den), "{num}/{den} after {i}");
            assert!(n == num / den || n == num.div_ceil(den), "{n} images at {num}/{den}");
        }
    }
    // However long the run is.
    assert_eq!(images_in_interval(1_431_655_765, 3, 1), 3);
    assert_eq!(images_in_interval(u32::MAX - 1, 4, 1), 4);
}

#[test]
fn a_session_warms_up_measures_and_finishes() {
    let mut s = Session::new(2, 3, Some((3, 2)));
    let mut done = Vec::new();
    loop {
        let a = s.next();
        if a == Action::Finish {
            break;
        }
        done.push(a);
    }
    assert_eq!(
        done,
        vec![
            Action::Warm(1),
            Action::Warm(2),
            Action::Reset,
            Action::Render(3),
            Action::Generate { step: 1, count: 2 },
            Action::Render(4),
            Action::Render(5),
            Action::Generate { step: 1, count: 2 },
        ]
    );
    assert_eq!(s.next(), Action::Finish);
}

fn stats() -> FrameStats {
    FrameStats {
        total_ns: 500,
        shadow_ns: 200,
        raster_ns: 100,
        bin_ns: 50,
        upload_ns: 25,
        spill_wait_ns: 0,
        pixels_shaded: 4096,
        triangles_binned: 3,
        tiles_rendered: 1,
    }
}

fn totals() -> Totals {
    Totals {
        cascades_active: 2,
        map_width: 512,
        map_height: 512,
        map_bytes: 1 << 20,
        filter_active: 1,
        filter_requested: 2,
        cache_hits: 3,
        cache_misses: 4,
        cache_bytes_read: 5,
        cache_bytes_hit: 6,
        frozen_cascades: 0,
        fail_safe_unshadowed: 0,
        ram_peak_bytes: 8 << 20,
        ram_bytes: 512 << 20,
        spill_disk_bytes: 0,
        spill_disk_cap_bytes: 0,
        max_allocation_bytes: 512 << 20,
        frames_presented: 2,
        frames_dropped: 0,
        failures: 0,
        safe_path_events: 0,
        audit_divergences: 0,
    }
}

fn two_frames() -> Run {
    let mut run = Run::new();
    run.record(FrameCost { begin_ns: 1_000, submit_ns: 2_000_000, present_ns: 3_000 }, &stats());
    run.record(FrameCost { begin_ns: 3_000, submit_ns: 1_500_000_000, present_ns: 5_000 }, &stats());
    run
}

#[test]
fn a_run_keeps_every_frame_and_every_second() {
    let run = two_frames();
    assert_eq!(run.frames(), 2);
    assert_eq!(run.per_second.len(), 2);
    assert_eq!((run.per_second[0].frames, run.per_second[1].frames), (1, 1));
    assert_eq!(run.per_second[1].worst_ns, 1_500_008_000);
    assert_eq!(run.mean(Field::Begin), 2_000);
    assert_eq!(run.total(Field::Pixels), 8192);
    assert_eq!(run.bounds(), (2_004_000, (2_004_000 + 1_500_008_000) / 2, 1_500_008_000));
    assert_eq!(Run::new().bounds(), (0, 0, 0));
    assert_eq!(Run::new().mean(Field::Tiles), 0);
}

#[test]
fn every_run_carries_its_configuration_and_its_split() {
    let list = args(&[
        "--backend=soft-cpu", "--tier=2", "--frames=5", "--warmup=2", "--shadows=cached", "--threads=2",
        "--repeat=2", "--trace=t.csv",
    ]);
    let options = match start::request(&list) {
        Request::Go(o) => o,
        _ => panic!("refused"),
    };
    let scene = Scene::with_shadow_mode(options.shadows);
    let mut stdout = start::version_line(&Version { major: 1, minor: 2, patch: 3, abi: 4 });
    stdout.push_str(&start::fingerprint(&options, &scene, "soft-cpu", "T2/cpu-ram"));
    stdout.push_str(&start::resolved("soft-cpu", "T2/cpu-ram", "", "driver 7", abi::CAP_TEXTURES));
    let run = two_frames();
    stdout.push_str(&run.report(None, &totals(), &Counters::default(), "0", "soft-cpu", "T2/cpu-ram", "asked for"));
    for expected in [
        "requested       backend soft-cpu, tier T2/cpu-ram",
        "scene           reference: 2 chunks, 3 triangles, repeat 2",
        "shadows         cached",
        "threads         2",
        "warmup/measured 2 + 5 frames",
        "host split      begin",
        "shadow          cascades",
        "allocations     ",
        "(0 per frame;",
        "shadows         cached — 2 cascades requested, 8.0 MiB texel budget, filter pcf3x3",
        "budgets         ram none, vram none, disk none, spill off",
        "resolved        backend soft-cpu, tier T2/cpu-ram\n  driver          driver 7\n  caps            textures\n",
        "device split    total 500 ns  shadow 200 ns  raster 100 ns  bin 50 ns  upload 25 ns  spill-wait 0   (mean",
        "map 512 x 512 (1.0 MiB)  filter pcf3x3 (requested pcf5x5)  pass 200 ns",
        "final           backend soft-cpu  tier T2/cpu-ram  reason asked for\n",
        "spill 0 B of none  max allocation 512.0 MiB",
    ] {
        assert!(stdout.contains(expected), "missing `{expected}` in:\n{stdout}");
    }
    let head = report::trace_head(run.frames(), options.warmup, options.width, options.height, options.repeat, options.shadows);
    let device = report::trace_device(&totals(), "T2/cpu-ram", "soft-cpu", "host");
    let trace = run.trace(&head, &device);
    assert!(trace.starts_with("reconl-bench trace v1\n"), "{trace}");
    assert!(trace.contains("# shadows cached\n"), "{trace}");
    assert!(trace.contains("\n0,2.004,1,2000,3,0,4096\n"), "{trace}");
    assert!(trace.contains("\n1,1500.008,3,1500000,5,0,4096\n"), "{trace}");
    assert!(trace.contains("second,frames,mean_ms,max_ms\n0,1,2.004,2.004\n1,1,1500.008,1500.008\n"), "{trace}");
}

#[test]
fn a_backend_without_timings_says_so() {
    let mut run = Run::new();
    let quiet = FrameStats { total_ns: 0, shadow_ns: 0, ..stats() };
    run.record(FrameCost { begin_ns: 1, submit_ns: 1, present_ns: 1 }, &quiet);
    let text = run.report(None, &totals(), &Counters::default(), "0", "b", "t", "r");
    assert!(text.contains("not instrumented on this backend"), "{text}");
    assert!(text.contains("  pass —\n"), "{text}");
}

/// A generation run reports the rate the feature exists to raise, and says which
/// frame its wall line times.
#[test]
fn a_generation_run_reports_the_rate_it_achieved() {
    let run = two_frames();
    let images = Images { total: 4, interval_ns: 1_600_000_000 };
    let mut stdout = run.report(Some(images), &totals(), &Counters::default(), "0", "b", "t", "r");
    let counters = report::framegen_line(2, 1, "0.5", 90_000);
    stdout.push_str(&run.report_framegen(2, 1, images, &[40_000_000, 60_000_000], "2", &counters));
    for expected in [
        "frame generation",
        "2.00 images per rendered frame",
        "images/s against",
        "presented per rendered",
        "generated cost  min",
        "per rendered frame:",
        "(2 in 1): 2 rendered, 2 generated",
        "4 images in 1.600 s — 2.5 images/s against 1.3 rendered frames/s alone: 1.88x at 2 presented per rendered",
        "min 40.000 ms  avg 50.000 ms  max 60.000 ms   (6.66% of a rendered frame each)",
        "generated 2  ready 1  last ahead 0.5  device-reported generation time 90.0 us",
    ] {
        assert!(stdout.contains(expected), "missing `{expected}` in:\n{stdout}");
    }

    // Without generation, one frame is one image: the wall line is the run's rate
    // and the report claims nothing about images.
    let plain = run.report(None, &totals(), &Counters::default(), "0", "b", "t", "r");
    assert!(plain.contains("fps at the mean"), "{plain}");
    assert!(!plain.contains("per rendered frame:"), "{plain}");
    assert!(!plain.contains("frame generation"), "{plain}");
    assert_eq!(Images { total: 0, interval_ns: 5 }.per_second(), "0");
    assert_eq!(run.report_framegen(2, 1, Images { total: 0, interval_ns: 5 }, &[], "x", "y"), "");
}

#[test]
fn a_failed_frame_carries_the_devices_own_error() {
    assert_eq!(start::frame_error("e", Some("d")), "e — device reported: d");
    assert_eq!(start::frame_error("e", None), "e");
}

fn golden() -> Image {
    let pixels: Vec<u8> = (0..64 * 64 * 4).map(|i| (i / 7 % 251) as u8).collect();
    read_rgba8(&write_rgba8(64, 64, &pixels).unwrap()).unwrap()
}

/// A copy of the golden with `n` red channels flipped.
fn perturbed_copy(n: usize) -> Image {
    let img = golden();
    let mut px = img.pixels.clone();
    for k in 0..n {
        let i = ((32 + k / 64) * img.width as usize + (40 + k % 64)) * 4;
        px[i] ^= 0xFF;
    }
    read_rgba8(&write_rgba8(img.width, img.height, &px).unwrap()).unwrap()
}

fn said(outcome: &Result<String, Failure>) -> &str {
    match outcome {
        Ok(t) | Err(Failure::Differs(t)) | Err(Failure::Error(t)) => t,
    }
}

#[test]
fn ci_path_rerender_is_identical_to_golden() {
    let outcome = diff::judge("g.png", &golden(), &golden(), 0);
    let msg = said(&outcome);
    assert_eq!(diff::exit_code(&outcome), 0);
    assert!(msg.contains("identical"), "expected identical: {msg}");
    assert_eq!(msg, "PASS g.png vs candidate: identical (4096 px)");
    assert_eq!(
        said(&diff::judge("g.png", &golden(), &golden(), 9)),
        "PASS g.png vs candidate (tolerance 9): identical (4096 px)"
    );
}

#[test]
fn exact_mode_fails_on_a_single_pixel() {
    let outcome = diff::judge("g.png", &golden(), &perturbed_copy(1), 0);
    let msg = said(&outcome);
    assert_eq!(diff::exit_code(&outcome), 1, "a flipped pixel must be a finding, not a crash: {msg}");
    assert!(msg.contains("DIFFER"), "{msg}");
    assert!(msg.starts_with("DIFFER g.png vs candidate (exact): 1 of 4096 px differ (0%), worst channel delta "), "{msg}");
}

#[test]
fn tolerance_absorbs_one_pixel_but_not_the_budget() {
    // 1 flipped px: worst delta 255-worth of flip absorbed, within 1% budget.
    let outcome = diff::judge("g.png", &golden(), &perturbed_copy(1), 255);
    let msg = said(&outcome);
    assert_eq!(diff::exit_code(&outcome), 0, "one px within budget: {msg}");
    assert!(msg.contains("1 px differ") && msg.ends_with("(within the 1% budget)"), "{msg}");

    // 50 flipped px: budget is 1% of 4096 = 40, so this must fail even at
    // tolerance 255 — the budget is over *count*, not just magnitude.
    let outcome = diff::judge("g.png", &golden(), &perturbed_copy(50), 255);
    let msg = said(&outcome);
    assert_eq!(diff::exit_code(&outcome), 1, "50 px over a 40 px budget must fail: {msg}");
    assert!(msg.contains("DIFFER"), "{msg}");
    assert!(diff::judge("g.png", &golden(), &perturbed_copy(40), 255).is_ok());
    assert!(diff::judge("g.png", &golden(), &perturbed_copy(41), 255).is_err());
    assert!(diff::judge("g.png", &golden(), &perturbed_copy(1), 1).is_err());
}

#[test]
fn corrupt_input_is_a_hard_error_not_a_diff() {
    let e = match read_rgba8(b"\x89PNG\r\n\x1a\nnot really a png") {
        Err(e) => e,
        Ok(_) => panic!("decoded"),
    };
    let outcome = Err(Failure::Error(format!("bad.png: {e}")));
    assert_eq!(diff::exit_code(&outcome), 2, "corrupt input is a tool error");
}

#[test]
fn an_error_is_an_error_whatever_the_file_is_called() {
    let outcome = Err(Failure::Error("DIFFERENT.png: no such file".to_string()));
    assert_eq!(diff::exit_code(&outcome), 2);
    let small = read_rgba8(&write_rgba8(2, 1, &[0; 8]).unwrap()).unwrap();
    assert_eq!(diff::exit_code(&diff::judge("DIFFERENT.png", &golden(), &small, 0)), 2);
}

#[test]
fn images_of_other_sizes_are_refused() {
    let small = read_rgba8(&write_rgba8(2, 1, &[0; 8]).unwrap()).unwrap();
    let outcome = diff::judge("g.png", &golden(), &small, 0);
    assert_eq!(said(&outcome), "size mismatch: 64x64 golden vs 2x1 candidate");
    assert_eq!(diff::exit_code(&outcome), 2);
    let outcome = diff::judge("g.png", &small, &small, 0);
    assert_eq!(said(&outcome), "goldens are 64x64; this file is 2x1");
    assert_eq!(diff::exit_code(&outcome), 2);
}

#[test]
fn a_comparison_reads_its_command_line() {
    assert!(matches!(diff::command(&args(&["render", "o.png"])), Command::Render(p) if p == "o.png"));
    assert!(matches!(diff::command(&args(&["render"])), Command::Usage));
    assert!(matches!(diff::command(&args(&["compare"])), Command::Usage));
    assert!(matches!(diff::command(&args(&["compare", "--tolerance=3"])), Command::Usage));
    match diff::command(&args(&["compare", "g.png", "--tolerance=3", "c.png", "--tolerance=48"])) {
        Command::Compare { golden, candidate, tolerance } => {
            assert_eq!((golden.as_str(), candidate.as_deref(), tolerance), ("g.png", Some("c.png"), 48));
        }
        _ => panic!("misread"),
    }
    assert!(matches!(diff::command(&args(&["compare", "g", "--tolerance=256"])), Command::Refused(e) if e == "bad tolerance 256"));
    assert!(matches!(diff::command(&args(&["compare", "g", "--tolerance"])), Command::Refused(e) if e == "--tolerance needs a value: use --tolerance=N"));
    let c = diff::reference_config();
    assert_eq!((c.backend, c.tier, c.allow_downgrade, c.threads, c.target_frame_ms), (abi::BACKEND_SOFT_CPU, 2, abi::ALLOW_DOWNGRADE_NONE, 1, 1000));
}

fn probed(backend: u32, usable: bool) -> Probed {
    Probed {
        backend,
        usable,
        name: "soft-cpu".to_string(),
        vram_bytes: 0,
        ram_bytes: 2048,
        max_cascades: 4,
        shadow_texel_budget: 8 << 20,
        device_name: "host".to_string(),
        caps: abi::CAP_SHADOWS,
        note: "slow".to_string(),
    }
}

#[test]
fn the_probe_reports_the_machine_and_allocates_nothing() {
    let row = info::probe_row(&probed(1, true), "T2/cpu-ram");
    assert_eq!(
        row,
        format!(
            "  {:<11} {:<6} {:<16} {:>10} {:>12} {:>8} {:>13}  {}\n              caps: shadows\n              note: slow\n",
            "soft-cpu", "yes", "T2/cpu-ram", "—", "2.0 KiB", 4, "8.0 MiB", "host"
        )
    );
    assert_eq!(
        info::probe_head(),
        format!(
            "  {:<11} {:<6} {:<16} {:>10} {:>12} {:>8} {:>13}  {}\n",
            "backend", "usable", "best tier", "vram", "ram", "cascades", "shadow budget", "device"
        )
    );
    assert!(info::recommendation("soft-cpu", "T2").contains("recommended: "));
    assert!(info::probe_ledger(&Counters::default()).contains("host allocations during the probe: 0"));
    let entries = [probed(1, true), probed(2, false), probed(3, true)];
    assert_eq!(info::wanted(true, &entries, 0), vec![Some(1), Some(3)]);
    assert_eq!(info::wanted(false, &entries, 7), vec![Some(7)]);
    assert_eq!(info::wanted(false, &entries, 0), vec![None]);
}

#[test]
fn a_device_reports_its_limits_and_gives_the_memory_back() {
    let named = info::Named {
        backend: "soft-cpu".to_string(),
        tier: "T2/cpu-ram".to_string(),
        reason: "asked for".to_string(),
        name: "host".to_string(),
        driver: "none".to_string(),
    };
    let limits = info::Limits {
        vram_bytes: 0,
        ram_bytes: 1 << 30,
        disk_bytes: 0,
        max_allocation_bytes: 512 << 20,
        worker_threads_max: 8,
        tile_size_min: 8,
        max_cascades: 4,
        max_lights: 16,
        shadow_texel_budget_bytes: 8 << 20,
        caps: 0,
    };
    let memory = info::Memory {
        ram_resident_bytes: 1,
        ram_budget_bytes: 2,
        ram_peak_bytes: 3,
        spill_disk_bytes: 4,
        spill_disk_cap_bytes: 5,
        spill_entries: 6,
        spill_evictions: 7,
        spill_errors: 8,
        host_alloc_calls: 9,
        host_alloc_bytes: 10,
        host_free_calls: 11,
    };
    let activity = info::Activity { frames_presented: 1, frames_dropped: 2, failures: 3, safe_path_events: 4, downgrade_count: 9 };
    let step = info::Downgrade { from: "T1".to_string(), to: "T2".to_string(), frame_index: 5, detail: "slow".to_string(), reason: 6 };
    let stdout = info::report_device(&named, "auto", &limits, &memory, &activity, &[step], Some("late"));
    for expected in [
        "\ndevice: soft-cpu (requested auto)\n  resolved tier: T2/cpu-ram — asked for\n  device: host  driver: none\n",
        "max allocation 512.0 MiB",
        "device ledger for the host allocator: 9 allocations, 10 bytes, 11 frees",
        "    downgrade T1 -> T2 at frame 5: slow (6)\n  last error: late\n",
        "  limits: worker threads 8  tile size 8  cascades 4  lights 16  shadow budget 8.0 MiB\n  caps: none\n",
    ] {
        assert!(stdout.contains(expected), "missing `{expected}` in:\n{stdout}");
    }
    let mut ledger = Counters::default();
    reconl::host::ledger::note_alloc(&mut ledger, 4096);
    reconl::host::ledger::note_free(&mut ledger, 4096);
    let line = info::release_ledger(&ledger);
    assert!(line.trim_end().ends_with("0 outstanding"), "every block must be released: {line}");
    assert_eq!(line, "  host ledger after release: 1 allocations, 4.0 KiB peak, 0 outstanding\n");
}

#[test]
fn a_refused_device_is_reported_with_its_code() {
    let e = reconl::host::device::failed("reconlCreateDevice", "RECONL_ERR_BACKEND_UNAVAILABLE", -4);
    let stdout = info::refused_device("vulkan", &e);
    assert!(stdout.contains("device: vulkan"), "{stdout}");
    assert!(stdout.contains("refused: reconlCreateDevice:"), "{stdout}");
}

#[test]
fn an_audit_is_due_every_so_many_frames() {
    let due = |every, frames: std::ops::Range<u64>| frames.filter(|n| audit_due(every, *n)).collect::<Vec<_>>();
    assert_eq!(due(Some(3), 1..10), [3, 6, 9]);
    assert_eq!(due(Some(1), 1..4), [1, 2, 3]);
    assert!(due(None, 1..10).is_empty());
}
