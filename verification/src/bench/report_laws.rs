//! What the lines of a report say, figure by figure.
use crate::bench::report;
use crate::bench::report::{
    Totals, alloc_line_text, at_least_one, cache_line_text, cap_text, counter_line_text,
    device_split_text, final_line_text, framegen_line_text, generated_line_text,
    generated_text, host_split_text, memory_line_text, pass_text, per_image,
    presented_line_text, rows_text, schedule_line_text, second_row_text, seconds_text,
    shadow_line_text, stages_text, times_text, title_text, trace_device_text, trace_head_text,
    trace_row_text, trace_text, wall_per_frame_text, wall_text, wall_with_images_text,
    work_done_text, work_line_text,
};
use crate::bench::run;
use crate::bench::run::{Field, Images, Run, Sample, Second};
use crate::host::ledger::Counters;
use crate::host::names;
use crate::host::scene::ShadowMode;
use crate::host::units;
use crate::labels::{lemma_line, lemma_part_says, line, says};
use crate::text;
use vstd::prelude::*;

verus! {

/// In the wall line every figure stands behind its own name: the shortest, the mean
/// and the longest frame, and the rate at the mean.
pub proof fn law_wall_per_frame_names_its_figures(min: u64, avg: u64, max: u64)
    ensures
        ({
            let t = wall_per_frame_text(min, avg, max);
            &&& says(t, "  wall            min "@, units::ns_text(min as nat))
            &&& says(t, "  avg "@, units::ns_text(avg as nat))
            &&& says(t, "  max "@, units::ns_text(max as nat))
            &&& says(t, "   ("@, units::fps_text(avg as nat))
        }),
{
    let parts = seq![
        ("  wall            min "@, units::ns_text(min as nat)),
        ("  avg "@, units::ns_text(avg as nat)),
        ("  max "@, units::ns_text(max as nat)),
        ("   ("@, units::fps_text(avg as nat)),
    ];
    reveal_with_fuel(line, 5);
    assert(seq![] + "  wall            min "@ =~= "  wall            min "@);
    let t = wall_per_frame_text(min, avg, max);
    assert(t == line(parts, 4) + " fps at the mean)\n"@);
    lemma_line(parts, " fps at the mean)\n"@, 0);
    lemma_line(parts, " fps at the mean)\n"@, 1);
    lemma_line(parts, " fps at the mean)\n"@, 2);
    lemma_line(parts, " fps at the mean)\n"@, 3);
}

/// In the wall line of a run with images in between every figure stands behind its
/// own name: the shortest, the mean and the longest frame, and both rates.
pub proof fn law_wall_with_images_names_its_figures(min: u64, avg: u64, max: u64, images: Images)
    ensures
        ({
            let t = wall_with_images_text(min, avg, max, images);
            &&& says(t, "  wall            min "@, units::ns_text(min as nat))
            &&& says(t, "  avg "@, units::ns_text(avg as nat))
            &&& says(t, "  max "@, units::ns_text(max as nat))
            &&& says(t, "   (per rendered frame: "@, units::fps_text(avg as nat))
            &&& says(t, " rendered frames/s, "@, images.per_second_text())
        }),
{
    let parts = seq![
        ("  wall            min "@, units::ns_text(min as nat)),
        ("  avg "@, units::ns_text(avg as nat)),
        ("  max "@, units::ns_text(max as nat)),
        ("   (per rendered frame: "@, units::fps_text(avg as nat)),
        (" rendered frames/s, "@, images.per_second_text()),
    ];
    reveal_with_fuel(line, 6);
    assert(seq![] + "  wall            min "@ =~= "  wall            min "@);
    let t = wall_with_images_text(min, avg, max, images);
    assert(t == line(parts, 5) + " images/s presented in all - see \"frame generation\")\n"@);
    lemma_line(parts, " images/s presented in all - see \"frame generation\")\n"@, 0);
    lemma_line(parts, " images/s presented in all - see \"frame generation\")\n"@, 1);
    lemma_line(parts, " images/s presented in all - see \"frame generation\")\n"@, 2);
    lemma_line(parts, " images/s presented in all - see \"frame generation\")\n"@, 3);
    lemma_line(parts, " images/s presented in all - see \"frame generation\")\n"@, 4);
}

/// In the host's split every figure stands behind its own name: what each of the
/// three boundaries cost.
pub proof fn law_host_split_names_its_figures(begin: u64, submit: u64, present: u64)
    ensures
        ({
            let t = host_split_text(begin, submit, present);
            &&& says(t, "  host split      begin "@, units::ns_text(begin as nat))
            &&& says(t, "  submit "@, units::ns_text(submit as nat))
            &&& says(t, "  present "@, units::ns_text(present as nat))
        }),
{
    let parts = seq![
        ("  host split      begin "@, units::ns_text(begin as nat)),
        ("  submit "@, units::ns_text(submit as nat)),
        ("  present "@, units::ns_text(present as nat)),
    ];
    reveal_with_fuel(line, 4);
    assert(seq![] + "  host split      begin "@ =~= "  host split      begin "@);
    let t = host_split_text(begin, submit, present);
    assert(t == line(parts, 3) + "   (mean)\n"@);
    lemma_line(parts, "   (mean)\n"@, 0);
    lemma_line(parts, "   (mean)\n"@, 1);
    lemma_line(parts, "   (mean)\n"@, 2);
}

/// In the device's split every figure stands behind its own name: what each of the
/// stages cost.
pub proof fn law_device_split_names_its_figures(
    total: u64,
    shadow: u64,
    raster: u64,
    bin: u64,
    upload: u64,
    wait: u64,
)
    ensures
        ({
            let t = device_split_text(total, shadow, raster, bin, upload, wait);
            &&& says(t, "  device split    total "@, units::ns_text(total as nat))
            &&& says(t, "  shadow "@, units::ns_text(shadow as nat))
            &&& says(t, "  raster "@, units::ns_text(raster as nat))
            &&& says(t, "  bin "@, units::ns_text(bin as nat))
            &&& says(t, "  upload "@, units::ns_text(upload as nat))
            &&& says(t, "  spill-wait "@, units::ns_text(wait as nat))
        }),
{
    let parts = seq![
        ("  device split    total "@, units::ns_text(total as nat)),
        ("  shadow "@, units::ns_text(shadow as nat)),
        ("  raster "@, units::ns_text(raster as nat)),
        ("  bin "@, units::ns_text(bin as nat)),
        ("  upload "@, units::ns_text(upload as nat)),
        ("  spill-wait "@, units::ns_text(wait as nat)),
    ];
    reveal_with_fuel(line, 7);
    assert(seq![] + "  device split    total "@ =~= "  device split    total "@);
    let t = device_split_text(total, shadow, raster, bin, upload, wait);
    assert(t == line(parts, 6) + "   (mean, as the device reports it)\n"@);
    lemma_line(parts, "   (mean, as the device reports it)\n"@, 0);
    lemma_line(parts, "   (mean, as the device reports it)\n"@, 1);
    lemma_line(parts, "   (mean, as the device reports it)\n"@, 2);
    lemma_line(parts, "   (mean, as the device reports it)\n"@, 3);
    lemma_line(parts, "   (mean, as the device reports it)\n"@, 4);
    lemma_line(parts, "   (mean, as the device reports it)\n"@, 5);
}

/// In the shadow line every figure stands behind its own name: the cascades, the
/// map and the filters.
pub proof fn law_shadow_line_names_its_figures(s: Totals, pass: Seq<char>)
    ensures
        ({
            let t = shadow_line_text(s, pass);
            &&& says(t, "  shadow          cascades "@, text::dec(s.cascades_active as nat))
            &&& says(t, "  map "@, text::dec(s.map_width as nat))
            &&& says(t, " x "@, text::dec(s.map_height as nat))
            &&& says(t, " ("@, units::bytes_text(s.map_bytes as nat))
            &&& says(t, ")  filter "@, names::filter_name(s.filter_active))
            &&& says(t, " (requested "@, names::filter_name(s.filter_requested))
            &&& says(t, ")  pass "@, pass)
        }),
{
    let parts = seq![
        ("  shadow          cascades "@, text::dec(s.cascades_active as nat)),
        ("  map "@, text::dec(s.map_width as nat)),
        (" x "@, text::dec(s.map_height as nat)),
        (" ("@, units::bytes_text(s.map_bytes as nat)),
        (")  filter "@, names::filter_name(s.filter_active)),
        (" (requested "@, names::filter_name(s.filter_requested)),
        (")  pass "@, pass),
    ];
    reveal_with_fuel(line, 8);
    assert(seq![] + "  shadow          cascades "@ =~= "  shadow          cascades "@);
    let t = shadow_line_text(s, pass);
    assert(t == line(parts, 7) + "\n"@);
    lemma_line(parts, "\n"@, 0);
    lemma_line(parts, "\n"@, 1);
    lemma_line(parts, "\n"@, 2);
    lemma_line(parts, "\n"@, 3);
    lemma_line(parts, "\n"@, 4);
    lemma_line(parts, "\n"@, 5);
    lemma_line(parts, "\n"@, 6);
}

/// In the cache line every figure stands behind its own name: what was hit, missed
/// and read.
pub proof fn law_cache_line_names_its_figures(s: Totals)
    ensures
        ({
            let t = cache_line_text(s);
            &&& says(t, "  shadow cache    hits "@, text::dec(s.cache_hits as nat))
            &&& says(t, "  misses "@, text::dec(s.cache_misses as nat))
            &&& says(t, "  read "@, units::bytes_text(s.cache_bytes_read as nat))
            &&& says(t, "  hit "@, units::bytes_text(s.cache_bytes_hit as nat))
            &&& says(t, "  frozen cascades "@, text::dec(s.frozen_cascades as nat))
            &&& says(t, "  fail-safe unshadowed "@, text::dec(s.fail_safe_unshadowed as nat))
        }),
{
    let parts = seq![
        ("  shadow cache    hits "@, text::dec(s.cache_hits as nat)),
        ("  misses "@, text::dec(s.cache_misses as nat)),
        ("  read "@, units::bytes_text(s.cache_bytes_read as nat)),
        ("  hit "@, units::bytes_text(s.cache_bytes_hit as nat)),
        ("  frozen cascades "@, text::dec(s.frozen_cascades as nat)),
        ("  fail-safe unshadowed "@, text::dec(s.fail_safe_unshadowed as nat)),
    ];
    reveal_with_fuel(line, 7);
    assert(seq![] + "  shadow cache    hits "@ =~= "  shadow cache    hits "@);
    let t = cache_line_text(s);
    assert(t == line(parts, 6) + "\n"@);
    lemma_line(parts, "\n"@, 0);
    lemma_line(parts, "\n"@, 1);
    lemma_line(parts, "\n"@, 2);
    lemma_line(parts, "\n"@, 3);
    lemma_line(parts, "\n"@, 4);
    lemma_line(parts, "\n"@, 5);
}

/// In the work line every figure stands behind its own name: the pixels, the rate,
/// the triangles and the tiles.
pub proof fn law_work_line_names_its_figures(
    pixels: u64,
    all_pixels: u64,
    all_ns: u64,
    triangles: u64,
    tiles: u64,
)
    ensures
        ({
            let t = work_line_text(pixels, all_pixels, all_ns, triangles, tiles);
            &&& says(t, "  work            pixels shaded "@, text::dec(pixels as nat))
            &&& says(t, "/frame ("@, units::mpix_text(all_pixels as nat, all_ns as nat))
            &&& says(t, "), triangles binned "@, text::dec(triangles as nat))
            &&& says(t, "/frame, tiles "@, text::dec(tiles as nat))
        }),
{
    let parts = seq![
        ("  work            pixels shaded "@, text::dec(pixels as nat)),
        ("/frame ("@, units::mpix_text(all_pixels as nat, all_ns as nat)),
        ("), triangles binned "@, text::dec(triangles as nat)),
        ("/frame, tiles "@, text::dec(tiles as nat)),
    ];
    reveal_with_fuel(line, 5);
    assert(seq![] + "  work            pixels shaded "@ =~= "  work            pixels shaded "@);
    let t = work_line_text(pixels, all_pixels, all_ns, triangles, tiles);
    assert(t == line(parts, 4) + "/frame\n"@);
    lemma_line(parts, "/frame\n"@, 0);
    lemma_line(parts, "/frame\n"@, 1);
    lemma_line(parts, "/frame\n"@, 2);
    lemma_line(parts, "/frame\n"@, 3);
}

/// In the memory line every figure stands behind its own name: what was resident,
/// spilled and largest.
pub proof fn law_memory_line_names_its_figures(s: Totals)
    ensures
        ({
            let t = memory_line_text(s);
            &&& says(t, "  memory          resident peak "@, units::bytes_text(s.ram_peak_bytes as nat))
            &&& says(t, " of "@, units::bytes_text(s.ram_bytes as nat))
            &&& says(t, "  spill "@, units::bytes_text(s.spill_disk_bytes as nat))
            &&& says(t, " of "@, cap_text(s.spill_disk_cap_bytes as nat))
            &&& says(t, "  max allocation "@, units::bytes_text(s.max_allocation_bytes as nat))
        }),
{
    let parts = seq![
        ("  memory          resident peak "@, units::bytes_text(s.ram_peak_bytes as nat)),
        (" of "@, units::bytes_text(s.ram_bytes as nat)),
        ("  spill "@, units::bytes_text(s.spill_disk_bytes as nat)),
        (" of "@, cap_text(s.spill_disk_cap_bytes as nat)),
        ("  max allocation "@, units::bytes_text(s.max_allocation_bytes as nat)),
    ];
    reveal_with_fuel(line, 6);
    assert(seq![] + "  memory          resident peak "@ =~= "  memory          resident peak "@);
    let t = memory_line_text(s);
    assert(t == line(parts, 5) + "\n"@);
    lemma_line(parts, "\n"@, 0);
    lemma_line(parts, "\n"@, 1);
    lemma_line(parts, "\n"@, 2);
    lemma_line(parts, "\n"@, 3);
    lemma_line(parts, "\n"@, 4);
}

/// In the allocation line every figure stands behind its own name: the calls, the
/// bytes and the share of a frame.
pub proof fn law_alloc_line_names_its_figures(ledger: Counters, per_frame: Seq<char>)
    ensures
        ({
            let t = alloc_line_text(ledger, per_frame);
            &&& says(t, "  allocations     "@, text::dec(ledger.alloc_calls as nat))
            &&& says(t, " during the measured frames, "@, text::dec(ledger.alloc_bytes as nat))
            &&& says(t, " bytes ("@, per_frame)
        }),
{
    let parts = seq![
        ("  allocations     "@, text::dec(ledger.alloc_calls as nat)),
        (" during the measured frames, "@, text::dec(ledger.alloc_bytes as nat)),
        (" bytes ("@, per_frame),
    ];
    reveal_with_fuel(line, 4);
    assert(seq![] + "  allocations     "@ =~= "  allocations     "@);
    let t = alloc_line_text(ledger, per_frame);
    assert(t == line(parts, 3) + " per frame; the steady-state target is 0)\n"@);
    lemma_line(parts, " per frame; the steady-state target is 0)\n"@, 0);
    lemma_line(parts, " per frame; the steady-state target is 0)\n"@, 1);
    lemma_line(parts, " per frame; the steady-state target is 0)\n"@, 2);
}

/// In the counter line every figure stands behind its own name: what was presented,
/// dropped and failed.
pub proof fn law_counter_line_names_its_figures(s: Totals)
    ensures
        ({
            let t = counter_line_text(s);
            &&& says(t, "  counters        presented "@, text::dec(s.frames_presented as nat))
            &&& says(t, "  dropped "@, text::dec(s.frames_dropped as nat))
            &&& says(t, "  failures "@, text::dec(s.failures as nat))
            &&& says(t, "  safe-path events "@, text::dec(s.safe_path_events as nat))
            &&& says(t, "  audit divergences "@, text::dec(s.audit_divergences as nat))
        }),
{
    let parts = seq![
        ("  counters        presented "@, text::dec(s.frames_presented as nat)),
        ("  dropped "@, text::dec(s.frames_dropped as nat)),
        ("  failures "@, text::dec(s.failures as nat)),
        ("  safe-path events "@, text::dec(s.safe_path_events as nat)),
        ("  audit divergences "@, text::dec(s.audit_divergences as nat)),
    ];
    reveal_with_fuel(line, 6);
    assert(seq![] + "  counters        presented "@ =~= "  counters        presented "@);
    let t = counter_line_text(s);
    assert(t == line(parts, 5) + "\n"@);
    lemma_line(parts, "\n"@, 0);
    lemma_line(parts, "\n"@, 1);
    lemma_line(parts, "\n"@, 2);
    lemma_line(parts, "\n"@, 3);
    lemma_line(parts, "\n"@, 4);
}

/// In the last line every figure stands behind its own name: what the run ended on.
pub proof fn law_final_line_names_its_figures(
    backend: Seq<char>,
    tier: Seq<char>,
    reason: Seq<char>,
)
    ensures
        ({
            let t = final_line_text(backend, tier, reason);
            &&& says(t, "  final           backend "@, backend)
            &&& says(t, "  tier "@, tier)
            &&& says(t, "  reason "@, reason)
        }),
{
    let parts = seq![
        ("  final           backend "@, backend),
        ("  tier "@, tier),
        ("  reason "@, reason),
    ];
    reveal_with_fuel(line, 4);
    assert(seq![] + "  final           backend "@ =~= "  final           backend "@);
    let t = final_line_text(backend, tier, reason);
    assert(t == line(parts, 3) + "\n"@);
    lemma_line(parts, "\n"@, 0);
    lemma_line(parts, "\n"@, 1);
    lemma_line(parts, "\n"@, 2);
}

/// In a trace's head every figure stands behind its own name: what was asked for.
pub proof fn law_trace_head_names_its_figures(
    frames: u32,
    warmup: u32,
    width: u32,
    height: u32,
    repeat: u32,
    shadows: ShadowMode,
)
    ensures
        ({
            let t = trace_head_text(frames, warmup, width, height, repeat, shadows);
            &&& says(t, "reconl-bench trace v1\n# frames "@, text::dec(frames as nat))
            &&& says(t, " warmup "@, text::dec(warmup as nat))
            &&& says(t, "\n# frame "@, text::dec(width as nat))
            &&& says(t, "x"@, text::dec(height as nat))
            &&& says(t, " repeat "@, text::dec(repeat as nat))
            &&& says(t, "\n# shadows "@, shadows.spelling())
        }),
{
    let parts = seq![
        ("reconl-bench trace v1\n# frames "@, text::dec(frames as nat)),
        (" warmup "@, text::dec(warmup as nat)),
        ("\n# frame "@, text::dec(width as nat)),
        ("x"@, text::dec(height as nat)),
        (" repeat "@, text::dec(repeat as nat)),
        ("\n# shadows "@, shadows.spelling()),
    ];
    reveal_with_fuel(line, 7);
    assert(seq![] + "reconl-bench trace v1\n# frames "@ =~= "reconl-bench trace v1\n# frames "@);
    let t = trace_head_text(frames, warmup, width, height, repeat, shadows);
    assert(t == line(parts, 6) + "\n"@);
    lemma_line(parts, "\n"@, 0);
    lemma_line(parts, "\n"@, 1);
    lemma_line(parts, "\n"@, 2);
    lemma_line(parts, "\n"@, 3);
    lemma_line(parts, "\n"@, 4);
    lemma_line(parts, "\n"@, 5);
}

/// In a trace's second head every figure stands behind its own name: what it ran
/// on.
pub proof fn law_trace_device_names_its_figures(
    s: Totals,
    tier: Seq<char>,
    backend: Seq<char>,
    name: Seq<char>,
)
    ensures
        ({
            let t = trace_device_text(s, tier, backend, name);
            &&& says(t, "# tier "@, tier)
            &&& says(t, "\n# backend "@, backend)
            &&& says(t, "\n# shadow cascades "@, text::dec(s.cascades_active as nat))
            &&& says(t, " map "@, text::dec(s.map_width as nat))
            &&& says(t, "x"@, text::dec(s.map_height as nat))
            &&& says(t, " filter "@, names::filter_name(s.filter_active))
            &&& says(t, " (requested "@, names::filter_name(s.filter_requested))
            &&& says(t, ")\n# device "@, name)
        }),
{
    let parts = seq![
        ("# tier "@, tier),
        ("\n# backend "@, backend),
        ("\n# shadow cascades "@, text::dec(s.cascades_active as nat)),
        (" map "@, text::dec(s.map_width as nat)),
        ("x"@, text::dec(s.map_height as nat)),
        (" filter "@, names::filter_name(s.filter_active)),
        (" (requested "@, names::filter_name(s.filter_requested)),
        (")\n# device "@, name),
    ];
    reveal_with_fuel(line, 9);
    assert(seq![] + "# tier "@ =~= "# tier "@);
    let t = trace_device_text(s, tier, backend, name);
    assert(t == line(parts, 8) + "\nframe,total_ms,begin_us,submit_us,present_us,shadow_us,pixels\n"@);
    lemma_line(parts, "\nframe,total_ms,begin_us,submit_us,present_us,shadow_us,pixels\n"@, 0);
    lemma_line(parts, "\nframe,total_ms,begin_us,submit_us,present_us,shadow_us,pixels\n"@, 1);
    lemma_line(parts, "\nframe,total_ms,begin_us,submit_us,present_us,shadow_us,pixels\n"@, 2);
    lemma_line(parts, "\nframe,total_ms,begin_us,submit_us,present_us,shadow_us,pixels\n"@, 3);
    lemma_line(parts, "\nframe,total_ms,begin_us,submit_us,present_us,shadow_us,pixels\n"@, 4);
    lemma_line(parts, "\nframe,total_ms,begin_us,submit_us,present_us,shadow_us,pixels\n"@, 5);
    lemma_line(parts, "\nframe,total_ms,begin_us,submit_us,present_us,shadow_us,pixels\n"@, 6);
    lemma_line(parts, "\nframe,total_ms,begin_us,submit_us,present_us,shadow_us,pixels\n"@, 7);
}

/// In the schedule line every figure stands behind its own name: the ratio and what
/// came of it.
pub proof fn law_schedule_line_names_its_figures(
    num: u32,
    den: u32,
    rendered: u64,
    generated: int,
)
    ensures
        ({
            let t = schedule_line_text(num, den, rendered, generated);
            &&& says(t, "\nframe generation\n  schedule        "@, units::with_places(units::ratio(units::double(num as nat), units::double(den as nat)), 2))
            &&& says(t, " images per rendered frame ("@, text::dec(num as nat))
            &&& says(t, " in "@, text::dec(den as nat))
            &&& says(t, "): "@, text::dec(rendered as nat))
            &&& says(t, " rendered, "@, text::dec(generated as nat))
        }),
{
    let parts = seq![
        ("\nframe generation\n  schedule        "@, units::with_places(units::ratio(units::double(num as nat), units::double(den as nat)), 2)),
        (" images per rendered frame ("@, text::dec(num as nat)),
        (" in "@, text::dec(den as nat)),
        ("): "@, text::dec(rendered as nat)),
        (" rendered, "@, text::dec(generated as nat)),
    ];
    reveal_with_fuel(line, 6);
    assert(seq![] + "\nframe generation\n  schedule        "@ =~= "\nframe generation\n  schedule        "@);
    let t = schedule_line_text(num, den, rendered, generated);
    assert(t == line(parts, 5) + " generated\n"@);
    lemma_line(parts, " generated\n"@, 0);
    lemma_line(parts, " generated\n"@, 1);
    lemma_line(parts, " generated\n"@, 2);
    lemma_line(parts, " generated\n"@, 3);
    lemma_line(parts, " generated\n"@, 4);
}

/// In the line of what was presented every figure stands behind its own name: the
/// images, their time and both rates.
pub proof fn law_presented_line_names_its_figures(
    images: Images,
    rendered_ns: u64,
    per_rendered: Seq<char>,
)
    ensures
        ({
            let t = presented_line_text(images, rendered_ns, per_rendered);
            &&& says(t, "  presented       "@, text::dec(images.total as nat))
            &&& says(t, " images in "@, units::ns_text(images.interval_ns as nat))
            &&& says(t, " — "@, units::fps_text((images.interval_ns as int / images.total as int) as nat))
            &&& says(t, " images/s against "@, units::fps_text(rendered_ns as nat))
            &&& says(t, " rendered frames/s alone: "@, units::with_places(units::ratio(units::double(rendered_ns as nat), units::double(per_image(images) as nat)), 2))
            &&& says(t, "x at "@, per_rendered)
        }),
{
    let parts = seq![
        ("  presented       "@, text::dec(images.total as nat)),
        (" images in "@, units::ns_text(images.interval_ns as nat)),
        (" — "@, units::fps_text((images.interval_ns as int / images.total as int) as nat)),
        (" images/s against "@, units::fps_text(rendered_ns as nat)),
        (" rendered frames/s alone: "@, units::with_places(units::ratio(units::double(rendered_ns as nat), units::double(per_image(images) as nat)), 2)),
        ("x at "@, per_rendered),
    ];
    reveal_with_fuel(line, 7);
    assert(seq![] + "  presented       "@ =~= "  presented       "@);
    let t = presented_line_text(images, rendered_ns, per_rendered);
    assert(t == line(parts, 6) + " presented per rendered\n"@);
    lemma_line(parts, " presented per rendered\n"@, 0);
    lemma_line(parts, " presented per rendered\n"@, 1);
    lemma_line(parts, " presented per rendered\n"@, 2);
    lemma_line(parts, " presented per rendered\n"@, 3);
    lemma_line(parts, " presented per rendered\n"@, 4);
    lemma_line(parts, " presented per rendered\n"@, 5);
}

/// In the line of what was generated every figure stands behind its own name: the
/// bounds, the mean and the share of a frame.
pub proof fn law_generated_line_names_its_figures(min: u64, mean: u64, max: u64, rendered_ns: u64)
    ensures
        ({
            let t = generated_line_text(min, mean, max, rendered_ns);
            &&& says(t, "  generated cost  min "@, units::ns_text(min as nat))
            &&& says(t, "  avg "@, units::ns_text(mean as nat))
            &&& says(t, "  max "@, units::ns_text(max as nat))
            &&& says(t, "   ("@, units::percent_text(mean as nat, rendered_ns as nat))
        }),
{
    let parts = seq![
        ("  generated cost  min "@, units::ns_text(min as nat)),
        ("  avg "@, units::ns_text(mean as nat)),
        ("  max "@, units::ns_text(max as nat)),
        ("   ("@, units::percent_text(mean as nat, rendered_ns as nat)),
    ];
    reveal_with_fuel(line, 5);
    assert(seq![] + "  generated cost  min "@ =~= "  generated cost  min "@);
    let t = generated_line_text(min, mean, max, rendered_ns);
    assert(t == line(parts, 4) + "% of a rendered frame each)\n"@);
    lemma_line(parts, "% of a rendered frame each)\n"@, 0);
    lemma_line(parts, "% of a rendered frame each)\n"@, 1);
    lemma_line(parts, "% of a rendered frame each)\n"@, 2);
    lemma_line(parts, "% of a rendered frame each)\n"@, 3);
}

/// In the device's line of generated images every figure stands behind its own
/// name: its own counts.
pub proof fn law_framegen_line_names_its_figures(
    generated: u64,
    ready: u64,
    last_ahead: Seq<char>,
    generated_ns: u64,
)
    ensures
        ({
            let t = framegen_line_text(generated, ready, last_ahead, generated_ns);
            &&& says(t, "  counters        generated "@, text::dec(generated as nat))
            &&& says(t, "  ready "@, text::dec(ready as nat))
            &&& says(t, "  last ahead "@, last_ahead)
            &&& says(t, "  device-reported generation time "@, units::ns_text(generated_ns as nat))
        }),
{
    let parts = seq![
        ("  counters        generated "@, text::dec(generated as nat)),
        ("  ready "@, text::dec(ready as nat)),
        ("  last ahead "@, last_ahead),
        ("  device-reported generation time "@, units::ns_text(generated_ns as nat)),
    ];
    reveal_with_fuel(line, 5);
    assert(seq![] + "  counters        generated "@ =~= "  counters        generated "@);
    let t = framegen_line_text(generated, ready, last_ahead, generated_ns);
    assert(t == line(parts, 4) + "\n"@);
    lemma_line(parts, "\n"@, 0);
    lemma_line(parts, "\n"@, 1);
    lemma_line(parts, "\n"@, 2);
    lemma_line(parts, "\n"@, 3);
}

/// A frame's row has its number, its time and its parts in the order of the trace's
/// columns.
pub proof fn law_a_frames_row_follows_its_columns(i: int, s: Sample)
    ensures
        ({
            let t = trace_row_text(i, s);
            &&& says(t, ""@, text::dec(i as nat))
            &&& says(t, ","@, units::with_places(units::ratio(units::double(s.total_ns as nat), units::double(1_000_000)), 3))
            &&& says(t, ","@, text::dec((s.begin_ns / 1_000) as nat))
            &&& says(t, ","@, text::dec((s.submit_ns / 1_000) as nat))
            &&& says(t, ","@, text::dec((s.present_ns / 1_000) as nat))
            &&& says(t, ","@, text::dec((s.shadow_ns / 1_000) as nat))
            &&& says(t, ","@, text::dec(s.pixels as nat))
        }),
{
    let parts = seq![
        (""@, text::dec(i as nat)),
        (","@, units::with_places(units::ratio(units::double(s.total_ns as nat), units::double(1_000_000)), 3)),
        (","@, text::dec((s.begin_ns / 1_000) as nat)),
        (","@, text::dec((s.submit_ns / 1_000) as nat)),
        (","@, text::dec((s.present_ns / 1_000) as nat)),
        (","@, text::dec((s.shadow_ns / 1_000) as nat)),
        (","@, text::dec(s.pixels as nat)),
    ];
    reveal_with_fuel(line, 8);
    reveal_strlit("");
    assert(seq![] + ""@ =~= ""@);
    let t = trace_row_text(i, s);
    assert(t == line(parts, 7) + "\n"@);
    lemma_line(parts, "\n"@, 0);
    lemma_line(parts, "\n"@, 1);
    lemma_line(parts, "\n"@, 2);
    lemma_line(parts, "\n"@, 3);
    lemma_line(parts, "\n"@, 4);
    lemma_line(parts, "\n"@, 5);
    lemma_line(parts, "\n"@, 6);
}

/// A second's row has its number, its frames, their mean and the longest of them,
/// in the order of the trace's columns.
pub proof fn law_a_seconds_row_follows_its_columns(i: int, s: Second)
    ensures
        ({
            let t = second_row_text(i, s);
            &&& says(t, ""@, text::dec(i as nat))
            &&& says(t, ","@, text::dec(s.frames as nat))
            &&& says(t, ","@, units::with_places(units::ratio(units::ratio(units::double(s.total_ns as nat), units::double(at_least_one(s.frames) as nat)), units::double(1_000_000)), 3))
            &&& says(t, ","@, units::with_places(units::ratio(units::double(s.worst_ns as nat), units::double(1_000_000)), 3))
        }),
{
    let parts = seq![
        (""@, text::dec(i as nat)),
        (","@, text::dec(s.frames as nat)),
        (","@, units::with_places(units::ratio(units::ratio(units::double(s.total_ns as nat), units::double(at_least_one(s.frames) as nat)), units::double(1_000_000)), 3)),
        (","@, units::with_places(units::ratio(units::double(s.worst_ns as nat), units::double(1_000_000)), 3)),
    ];
    reveal_with_fuel(line, 5);
    reveal_strlit("");
    assert(seq![] + ""@ =~= ""@);
    let t = second_row_text(i, s);
    assert(t == line(parts, 4) + "\n"@);
    lemma_line(parts, "\n"@, 0);
    lemma_line(parts, "\n"@, 1);
    lemma_line(parts, "\n"@, 2);
    lemma_line(parts, "\n"@, 3);
}

/// A report says of a run what the run was: the shortest, the mean and the longest of
/// its frames, the means of the host's three parts, and the device's split where the
/// device timed itself.
pub proof fn law_a_report_says_where_the_time_went(r: Run, images: Option<Images>)
    ensures
        ({
            let t = times_text(r, images);
            let s = r.samples@;
            let mean = |f: Field| units::ns_text(run::mean_of(s, f) as u64 as nat);
            &&& says(t, "  wall            min "@, units::ns_text(run::shortest(s) as u64 as nat))
            &&& says(t, "  avg "@, mean(Field::Total))
            &&& says(t, "  max "@, units::ns_text(run::longest(s) as u64 as nat))
            &&& says(t, "  host split      begin "@, mean(Field::Begin))
            &&& says(t, "  submit "@, mean(Field::Submit))
            &&& says(t, "  present "@, mean(Field::Present))
            &&& run::sum(s, Field::DeviceTotal) > 0 ==> {
                &&& says(t, "  device split    total "@, mean(Field::DeviceTotal))
                &&& says(t, "  shadow "@, mean(Field::Shadow))
                &&& says(t, "  raster "@, mean(Field::Raster))
                &&& says(t, "  bin "@, mean(Field::Bin))
                &&& says(t, "  upload "@, mean(Field::Upload))
                &&& says(t, "  spill-wait "@, mean(Field::SpillWait))
            }
        }),
{
    let s = r.samples@;
    let mean = |f: Field| run::mean_of(s, f) as u64;
    let text = |f: Field| units::ns_text(mean(f) as nat);
    let (min, avg, max) = (
        run::shortest(s) as u64,
        mean(Field::Total),
        run::longest(s) as u64,
    );
    let title = title_text((s.len() % 0x1_0000_0000) as u32);
    let wall = wall_text(r, images);
    let host = host_split_text(mean(Field::Begin), mean(Field::Submit), mean(Field::Present));
    let stages = stages_text(r);
    let t = times_text(r, images);
    match images {
        Some(i) => law_wall_with_images_names_its_figures(min, avg, max, i),
        None => {},
    }
    law_wall_per_frame_names_its_figures(min, avg, max);
    law_host_split_names_its_figures(mean(Field::Begin), mean(Field::Submit), mean(Field::Present));
    assert(t =~= title + wall + (host + stages));
    lemma_part_says(
        title,
        wall,
        host + stages,
        "  wall            min "@,
        units::ns_text(min as nat),
    );
    lemma_part_says(title, wall, host + stages, "  avg "@, units::ns_text(avg as nat));
    lemma_part_says(title, wall, host + stages, "  max "@, units::ns_text(max as nat));
    assert(t =~= (title + wall) + host + stages);
    lemma_part_says(
        title + wall,
        host,
        stages,
        "  host split      begin "@,
        text(Field::Begin),
    );
    lemma_part_says(title + wall, host, stages, "  submit "@, text(Field::Submit));
    lemma_part_says(title + wall, host, stages, "  present "@, text(Field::Present));
    if run::sum(s, Field::DeviceTotal) > 0 {
        law_device_split_names_its_figures(
            mean(Field::DeviceTotal),
            mean(Field::Shadow),
            mean(Field::Raster),
            mean(Field::Bin),
            mean(Field::Upload),
            mean(Field::SpillWait),
        );
        let front = title + wall + host;
        let none: Seq<char> = seq![];
        assert(t =~= front + stages + none);
        lemma_part_says(
            front,
            stages,
            none,
            "  device split    total "@,
            text(Field::DeviceTotal),
        );
        lemma_part_says(front, stages, none, "  shadow "@, text(Field::Shadow));
        lemma_part_says(front, stages, none, "  raster "@, text(Field::Raster));
        lemma_part_says(front, stages, none, "  bin "@, text(Field::Bin));
        lemma_part_says(front, stages, none, "  upload "@, text(Field::Upload));
        lemma_part_says(front, stages, none, "  spill-wait "@, text(Field::SpillWait));
    }
}

/// A report says of the work what a frame did in the mean, and what all frames did in
/// all the time.
pub proof fn law_a_report_says_what_a_frame_did(
    r: Run,
    s: Totals,
    ledger: Counters,
    per_frame: Seq<char>,
    backend: Seq<char>,
    tier: Seq<char>,
    reason: Seq<char>,
)
    ensures
        ({
            let t = work_done_text(r, s, ledger, per_frame, backend, tier, reason);
            let mean = |f: Field| run::mean_of(r.samples@, f) as u64;
            let sum = |f: Field| run::sum(r.samples@, f) as u64;
            &&& says(t, "  work            pixels shaded "@, text::dec(mean(Field::Pixels) as nat))
            &&& says(
                t,
                "/frame ("@,
                units::mpix_text(sum(Field::Pixels) as nat, sum(Field::Total) as nat),
            )
            &&& says(t, "), triangles binned "@, text::dec(mean(Field::Triangles) as nat))
            &&& says(t, "/frame, tiles "@, text::dec(mean(Field::Tiles) as nat))
        }),
{
    let t = work_done_text(r, s, ledger, per_frame, backend, tier, reason);
    let mean = |f: Field| run::mean_of(r.samples@, f) as u64;
    let sum = |f: Field| run::sum(r.samples@, f) as u64;
    let front = shadow_line_text(s, pass_text(r)) + cache_line_text(s);
    let work = work_line_text(
        mean(Field::Pixels),
        sum(Field::Pixels),
        sum(Field::Total),
        mean(Field::Triangles),
        mean(Field::Tiles),
    );
    let back = memory_line_text(s) + alloc_line_text(ledger, per_frame) + counter_line_text(s)
        + final_line_text(backend, tier, reason);
    assert(t =~= front + work + back);
    law_work_line_names_its_figures(
        mean(Field::Pixels),
        sum(Field::Pixels),
        sum(Field::Total),
        mean(Field::Triangles),
        mean(Field::Tiles),
    );
    lemma_part_says(
        front,
        work,
        back,
        "  work            pixels shaded "@,
        text::dec(mean(Field::Pixels) as nat),
    );
    lemma_part_says(
        front,
        work,
        back,
        "/frame ("@,
        units::mpix_text(sum(Field::Pixels) as nat, sum(Field::Total) as nat),
    );
    lemma_part_says(
        front,
        work,
        back,
        "), triangles binned "@,
        text::dec(mean(Field::Triangles) as nat),
    );
    lemma_part_says(
        front,
        work,
        back,
        "/frame, tiles "@,
        text::dec(mean(Field::Tiles) as nat),
    );
}

/// A trace is its two heads, a row for every frame in order, the names of the columns of
/// the seconds, and a row for every second in order: row `i` follows the rows before it.
pub proof fn law_a_trace_has_a_row_for_every_frame_and_every_second(
    r: Run,
    head: Seq<char>,
    device: Seq<char>,
    i: int,
)
    ensures
        trace_text(r, head, device) == head + device + rows_text(r.samples@, r.samples@.len() as int)
            + "second,frames,mean_ms,max_ms\n"@ + seconds_text(
            r.per_second@,
            r.per_second@.len() as int,
        ),
        rows_text(r.samples@, 0).len() == 0,
        seconds_text(r.per_second@, 0).len() == 0,
        0 <= i < r.samples@.len() ==> rows_text(r.samples@, i + 1) == rows_text(r.samples@, i)
            + trace_row_text(i, r.samples@[i]),
        0 <= i < r.per_second@.len() ==> seconds_text(r.per_second@, i + 1) == seconds_text(
            r.per_second@,
            i,
        ) + second_row_text(i, r.per_second@[i]),
{
}

/// What is said of generated images is the shortest, the mean and the longest of their
/// times, against the mean of a rendered frame.
pub proof fn law_generated_images_are_reported_by_their_times(
    generated: Seq<u64>,
    rendered_ns: u64,
)
    requires
        generated.len() > 0,
    ensures
        ({
            let t = generated_text(generated, rendered_ns);
            let mean = (report::total_of(generated) / generated.len() as int) as u64;
            &&& says(
                t,
                "  generated cost  min "@,
                units::ns_text(report::least(generated) as u64 as nat),
            )
            &&& says(t, "  avg "@, units::ns_text(mean as nat))
            &&& says(t, "  max "@, units::ns_text(report::most(generated) as u64 as nat))
            &&& says(t, "   ("@, units::percent_text(mean as nat, rendered_ns as nat))
        }),
{
    law_generated_line_names_its_figures(
        report::least(generated) as u64,
        (report::total_of(generated) / generated.len() as int) as u64,
        report::most(generated) as u64,
        rendered_ns,
    );
}

/// What a run with images in between reports of them is the ratio it was given, the
/// frames it rendered and the images it generated, and the rate of all images against
/// that of rendered frames alone.
pub proof fn law_a_generating_run_reports_both_rates(
    r: Run,
    num: u32,
    den: u32,
    images: Images,
    generated: Seq<u64>,
    per_rendered: Seq<char>,
    counters: Seq<char>,
)
    requires
        0 < r.samples@.len() <= u32::MAX,
        images.total > 0,
        images.interval_ns > 0,
    ensures
        ({
            let t = report::framegen_text(r, num, den, images, generated, per_rendered, counters);
            let mean = run::mean_of(r.samples@, Field::Total) as u64;
            let rendered = if mean == 0 { 1u64 } else { mean };
            &&& says(t, " images per rendered frame ("@, text::dec(num as nat))
            &&& says(t, " in "@, text::dec(den as nat))
            &&& says(t, "): "@, text::dec(r.samples@.len()))
            &&& says(t, " rendered, "@, text::dec(generated.len()))
            &&& says(t, "  presented       "@, text::dec(images.total as nat))
            &&& says(t, " images/s against "@, units::fps_text(rendered as nat))
        }),
{
    let mean = run::mean_of(r.samples@, Field::Total) as u64;
    let rendered = if mean == 0 { 1u64 } else { mean };
    let n = r.samples@.len() as u64;
    let t = report::framegen_text(r, num, den, images, generated, per_rendered, counters);
    let first = schedule_line_text(num, den, n, generated.len() as int);
    let second = presented_line_text(images, rendered, per_rendered);
    let rest = generated_text(generated, rendered) + counters;
    assert(report::rendered_time(r) == rendered);
    let none: Seq<char> = seq![];
    assert(t =~= none + first + (second + rest));
    assert(t =~= first + second + rest);
    law_schedule_line_names_its_figures(num, den, n, generated.len() as int);
    law_presented_line_names_its_figures(images, rendered, per_rendered);
    let back = second + rest;
    lemma_part_says(none, first, back, " images per rendered frame ("@, text::dec(num as nat));
    lemma_part_says(none, first, back, " in "@, text::dec(den as nat));
    lemma_part_says(none, first, back, "): "@, text::dec(n as nat));
    lemma_part_says(none, first, back, " rendered, "@, text::dec(generated.len()));
    lemma_part_says(
        first,
        second,
        rest,
        "  presented       "@,
        text::dec(images.total as nat),
    );
    lemma_part_says(
        first,
        second,
        rest,
        " images/s against "@,
        units::fps_text(rendered as nat),
    );
}

} // verus!
