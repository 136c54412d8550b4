//! What a run reports, line by line.
use crate::bench::run::{Field, Images, Run, Sample, Second};
use crate::bench::run;
use crate::host::ledger::Counters;
use crate::host::names;
use crate::host::scene::ShadowMode;
use crate::host::units;
use crate::text;
use vstd::prelude::*;
use vstd::string::StringExecFns;

verus! {

/// What the device says of a run when it is over.
#[derive(Clone, Copy, Debug, PartialEq, Eq, Structural)]
pub struct Totals {
    pub cascades_active: u32,
    pub map_width: u32,
    pub map_height: u32,
    pub map_bytes: u32,
    pub filter_active: u32,
    pub filter_requested: u32,
    pub cache_hits: u64,
    pub cache_misses: u64,
    pub cache_bytes_read: u64,
    pub cache_bytes_hit: u64,
    pub frozen_cascades: u64,
    pub fail_safe_unshadowed: u64,
    pub ram_peak_bytes: u64,
    pub ram_bytes: u64,
    pub spill_disk_bytes: u64,
    pub spill_disk_cap_bytes: u64,
    pub max_allocation_bytes: u64,
    pub frames_presented: u64,
    pub frames_dropped: u64,
    pub failures: u64,
    pub safe_path_events: u64,
    pub audit_divergences: u64,
}

pub open spec fn cap_text(value: nat) -> Seq<char> {
    if value == 0 {
        "none"@
    } else {
        units::bytes_text(value)
    }
}

/// A cap: none where it is zero.
pub fn cap(value: u64) -> (r: String)
    ensures
        r@ == cap_text(value as nat),
{
    if value == 0 {
        String::from_str("none")
    } else {
        units::bytes(value)
    }
}

pub open spec fn at_least_one(n: u32) -> u32 {
    if n == 0 {
        1
    } else {
        n
    }
}

/// The time of one image, never none.
pub open spec fn per_image(images: Images) -> u64 {
    let ns = images.interval_ns / images.total;
    if ns == 0 {
        1
    } else {
        ns
    }
}

fn image_time(images: Images) -> (r: u64)
    requires
        images.total > 0,
    ensures
        r == per_image(images),
        r > 0,
{
    let ns: u64 = images.interval_ns / images.total;
    if ns == 0 {
        1
    } else {
        ns
    }
}

pub open spec fn title_text(frames: u32) -> Seq<char> {
    "\nsteady state, "@
        + text::dec(frames as nat)
        + " measured frames\n"@
}

pub fn title(frames: u32) -> (r: String)
    ensures
        r@ == title_text(frames),
{
    let mut out = String::from_str("\nsteady state, ");
    text::push_dec(&mut out, frames as u128);
    out.append(" measured frames\n");
    out
}

pub open spec fn wall_per_frame_text(min: u64, avg: u64, max: u64) -> Seq<char> {
    "  wall            min "@
        + units::ns_text(min as nat)
        + "  avg "@
        + units::ns_text(avg as nat)
        + "  max "@
        + units::ns_text(max as nat)
        + "   ("@
        + units::fps_text(avg as nat)
        + " fps at the mean)\n"@
}

/// One frame, one image: the mean frame time is the run's rate.
pub fn wall_per_frame(min: u64, avg: u64, max: u64) -> (r: String)
    ensures
        r@ == wall_per_frame_text(min, avg, max),
{
    let mut out = String::from_str("  wall            min ");
    out.append(units::ns(min).as_str());
    out.append("  avg ");
    out.append(units::ns(avg).as_str());
    out.append("  max ");
    out.append(units::ns(max).as_str());
    out.append("   (");
    out.append(units::fps(avg).as_str());
    out.append(" fps at the mean)\n");
    out
}

pub open spec fn wall_with_images_text(min: u64, avg: u64, max: u64, images: Images) -> Seq<char> {
    "  wall            min "@
        + units::ns_text(min as nat)
        + "  avg "@
        + units::ns_text(avg as nat)
        + "  max "@
        + units::ns_text(max as nat)
        + "   (per rendered frame: "@
        + units::fps_text(avg as nat)
        + " rendered frames/s, "@
        + images.per_second_text()
        + " images/s presented in all - see \"frame generation\")\n"@
}

/// Generation on: this line is per *rendered* frame, and the run's rate is the
/// images it handed over.
pub fn wall_with_images(min: u64, avg: u64, max: u64, images: Images) -> (r: String)
    ensures
        r@ == wall_with_images_text(min, avg, max, images),
{
    let mut out = String::from_str("  wall            min ");
    out.append(units::ns(min).as_str());
    out.append("  avg ");
    out.append(units::ns(avg).as_str());
    out.append("  max ");
    out.append(units::ns(max).as_str());
    out.append("   (per rendered frame: ");
    out.append(units::fps(avg).as_str());
    out.append(" rendered frames/s, ");
    out.append(images.per_second().as_str());
    out.append(" images/s presented in all - see \"frame generation\")\n");
    out
}

pub open spec fn host_split_text(begin: u64, submit: u64, present: u64) -> Seq<char> {
    "  host split      begin "@
        + units::ns_text(begin as nat)
        + "  submit "@
        + units::ns_text(submit as nat)
        + "  present "@
        + units::ns_text(present as nat)
        + "   (mean)\n"@
}

pub fn host_split(begin: u64, submit: u64, present: u64) -> (r: String)
    ensures
        r@ == host_split_text(begin, submit, present),
{
    let mut out = String::from_str("  host split      begin ");
    out.append(units::ns(begin).as_str());
    out.append("  submit ");
    out.append(units::ns(submit).as_str());
    out.append("  present ");
    out.append(units::ns(present).as_str());
    out.append("   (mean)\n");
    out
}

pub open spec fn device_split_text(
    total: u64,
    shadow: u64,
    raster: u64,
    bin: u64,
    upload: u64,
    wait: u64,
) -> Seq<char> {
    "  device split    total "@
        + units::ns_text(total as nat)
        + "  shadow "@
        + units::ns_text(shadow as nat)
        + "  raster "@
        + units::ns_text(raster as nat)
        + "  bin "@
        + units::ns_text(bin as nat)
        + "  upload "@
        + units::ns_text(upload as nat)
        + "  spill-wait "@
        + units::ns_text(wait as nat)
        + "   (mean, as the device reports it)\n"@
}

pub fn device_split(
    total: u64,
    shadow: u64,
    raster: u64,
    bin: u64,
    upload: u64,
    wait: u64,
) -> (r: String)
    ensures
        r@ == device_split_text(total, shadow, raster, bin, upload, wait),
{
    let mut out = String::from_str("  device split    total ");
    out.append(units::ns(total).as_str());
    out.append("  shadow ");
    out.append(units::ns(shadow).as_str());
    out.append("  raster ");
    out.append(units::ns(raster).as_str());
    out.append("  bin ");
    out.append(units::ns(bin).as_str());
    out.append("  upload ");
    out.append(units::ns(upload).as_str());
    out.append("  spill-wait ");
    out.append(units::ns(wait).as_str());
    out.append("   (mean, as the device reports it)\n");
    out
}

pub open spec fn shadow_line_text(s: Totals, pass: Seq<char>) -> Seq<char> {
    "  shadow          cascades "@
        + text::dec(s.cascades_active as nat)
        + "  map "@
        + text::dec(s.map_width as nat)
        + " x "@
        + text::dec(s.map_height as nat)
        + " ("@
        + units::bytes_text(s.map_bytes as nat)
        + ")  filter "@
        + names::filter_name(s.filter_active)
        + " (requested "@
        + names::filter_name(s.filter_requested)
        + ")  pass "@
        + pass
        + "\n"@
}

/// The shadow pass: `pass` is its mean time, or a dash.
pub fn shadow_line(s: &Totals, pass: &str) -> (r: String)
    ensures
        r@ == shadow_line_text(*s, pass@),
{
    let mut out = String::from_str("  shadow          cascades ");
    text::push_dec(&mut out, s.cascades_active as u128);
    out.append("  map ");
    text::push_dec(&mut out, s.map_width as u128);
    out.append(" x ");
    text::push_dec(&mut out, s.map_height as u128);
    out.append(" (");
    out.append(units::bytes(s.map_bytes as u64).as_str());
    out.append(")  filter ");
    out.append(names::filter(s.filter_active));
    out.append(" (requested ");
    out.append(names::filter(s.filter_requested));
    out.append(")  pass ");
    out.append(pass);
    out.append("\n");
    out
}

pub open spec fn cache_line_text(s: Totals) -> Seq<char> {
    "  shadow cache    hits "@
        + text::dec(s.cache_hits as nat)
        + "  misses "@
        + text::dec(s.cache_misses as nat)
        + "  read "@
        + units::bytes_text(s.cache_bytes_read as nat)
        + "  hit "@
        + units::bytes_text(s.cache_bytes_hit as nat)
        + "  frozen cascades "@
        + text::dec(s.frozen_cascades as nat)
        + "  fail-safe unshadowed "@
        + text::dec(s.fail_safe_unshadowed as nat)
        + "\n"@
}

pub fn cache_line(s: &Totals) -> (r: String)
    ensures
        r@ == cache_line_text(*s),
{
    let mut out = String::from_str("  shadow cache    hits ");
    text::push_dec(&mut out, s.cache_hits as u128);
    out.append("  misses ");
    text::push_dec(&mut out, s.cache_misses as u128);
    out.append("  read ");
    out.append(units::bytes(s.cache_bytes_read as u64).as_str());
    out.append("  hit ");
    out.append(units::bytes(s.cache_bytes_hit as u64).as_str());
    out.append("  frozen cascades ");
    text::push_dec(&mut out, s.frozen_cascades as u128);
    out.append("  fail-safe unshadowed ");
    text::push_dec(&mut out, s.fail_safe_unshadowed as u128);
    out.append("\n");
    out
}

pub open spec fn work_line_text(
    pixels: u64,
    all_pixels: u64,
    all_ns: u64,
    triangles: u64,
    tiles: u64,
) -> Seq<char> {
    "  work            pixels shaded "@
        + text::dec(pixels as nat)
        + "/frame ("@
        + units::mpix_text(all_pixels as nat, all_ns as nat)
        + "), triangles binned "@
        + text::dec(triangles as nat)
        + "/frame, tiles "@
        + text::dec(tiles as nat)
        + "/frame\n"@
}

pub fn work_line(
    pixels: u64,
    all_pixels: u64,
    all_ns: u64,
    triangles: u64,
    tiles: u64,
) -> (r: String)
    ensures
        r@ == work_line_text(pixels, all_pixels, all_ns, triangles, tiles),
{
    let mut out = String::from_str("  work            pixels shaded ");
    text::push_dec(&mut out, pixels as u128);
    out.append("/frame (");
    out.append(units::mpix_per_sec(all_pixels, all_ns).as_str());
    out.append("), triangles binned ");
    text::push_dec(&mut out, triangles as u128);
    out.append("/frame, tiles ");
    text::push_dec(&mut out, tiles as u128);
    out.append("/frame\n");
    out
}

pub open spec fn memory_line_text(s: Totals) -> Seq<char> {
    "  memory          resident peak "@
        + units::bytes_text(s.ram_peak_bytes as nat)
        + " of "@
        + units::bytes_text(s.ram_bytes as nat)
        + "  spill "@
        + units::bytes_text(s.spill_disk_bytes as nat)
        + " of "@
        + cap_text(s.spill_disk_cap_bytes as nat)
        + "  max allocation "@
        + units::bytes_text(s.max_allocation_bytes as nat)
        + "\n"@
}

pub fn memory_line(s: &Totals) -> (r: String)
    ensures
        r@ == memory_line_text(*s),
{
    let mut out = String::from_str("  memory          resident peak ");
    out.append(units::bytes(s.ram_peak_bytes as u64).as_str());
    out.append(" of ");
    out.append(units::bytes(s.ram_bytes as u64).as_str());
    out.append("  spill ");
    out.append(units::bytes(s.spill_disk_bytes as u64).as_str());
    out.append(" of ");
    out.append(cap(s.spill_disk_cap_bytes).as_str());
    out.append("  max allocation ");
    out.append(units::bytes(s.max_allocation_bytes as u64).as_str());
    out.append("\n");
    out
}

pub open spec fn alloc_line_text(ledger: Counters, per_frame: Seq<char>) -> Seq<char> {
    "  allocations     "@
        + text::dec(ledger.alloc_calls as nat)
        + " during the measured frames, "@
        + text::dec(ledger.alloc_bytes as nat)
        + " bytes ("@
        + per_frame
        + " per frame; the steady-state target is 0)\n"@
}

/// The steady-state target is zero allocations per frame, so the rate is the
/// number to read: a frame that allocates is a frame that will hitch when the
/// allocator is busy. `per_frame` is that rate in decimal.
pub fn alloc_line(ledger: &Counters, per_frame: &str) -> (r: String)
    ensures
        r@ == alloc_line_text(*ledger, per_frame@),
{
    let mut out = String::from_str("  allocations     ");
    text::push_dec(&mut out, ledger.alloc_calls as u128);
    out.append(" during the measured frames, ");
    text::push_dec(&mut out, ledger.alloc_bytes as u128);
    out.append(" bytes (");
    out.append(per_frame);
    out.append(" per frame; the steady-state target is 0)\n");
    out
}

pub open spec fn counter_line_text(s: Totals) -> Seq<char> {
    "  counters        presented "@
        + text::dec(s.frames_presented as nat)
        + "  dropped "@
        + text::dec(s.frames_dropped as nat)
        + "  failures "@
        + text::dec(s.failures as nat)
        + "  safe-path events "@
        + text::dec(s.safe_path_events as nat)
        + "  audit divergences "@
        + text::dec(s.audit_divergences as nat)
        + "\n"@
}

pub fn counter_line(s: &Totals) -> (r: String)
    ensures
        r@ == counter_line_text(*s),
{
    let mut out = String::from_str("  counters        presented ");
    text::push_dec(&mut out, s.frames_presented as u128);
    out.append("  dropped ");
    text::push_dec(&mut out, s.frames_dropped as u128);
    out.append("  failures ");
    text::push_dec(&mut out, s.failures as u128);
    out.append("  safe-path events ");
    text::push_dec(&mut out, s.safe_path_events as u128);
    out.append("  audit divergences ");
    text::push_dec(&mut out, s.audit_divergences as u128);
    out.append("\n");
    out
}

pub open spec fn final_line_text(
    backend: Seq<char>,
    tier: Seq<char>,
    reason: Seq<char>,
) -> Seq<char> {
    "  final           backend "@
        + backend
        + "  tier "@
        + tier
        + "  reason "@
        + reason
        + "\n"@
}

/// What the device ended on: a run that lost its GPU has to show the tier it
/// finished on, or the fallback is invisible in the one output a host reads.
pub fn final_line(backend: &str, tier: &str, reason: &str) -> (r: String)
    ensures
        r@ == final_line_text(backend@, tier@, reason@),
{
    let mut out = String::from_str("  final           backend ");
    out.append(backend);
    out.append("  tier ");
    out.append(tier);
    out.append("  reason ");
    out.append(reason);
    out.append("\n");
    out
}

pub open spec fn trace_head_text(
    frames: u32,
    warmup: u32,
    width: u32,
    height: u32,
    repeat: u32,
    shadows: ShadowMode,
) -> Seq<char> {
    "reconl-bench trace v1\n# frames "@
        + text::dec(frames as nat)
        + " warmup "@
        + text::dec(warmup as nat)
        + "\n# frame "@
        + text::dec(width as nat)
        + "x"@
        + text::dec(height as nat)
        + " repeat "@
        + text::dec(repeat as nat)
        + "\n# shadows "@
        + shadows.spelling()
        + "\n"@
}

/// The run that a trace is of.
pub fn trace_head(
    frames: u32,
    warmup: u32,
    width: u32,
    height: u32,
    repeat: u32,
    shadows: ShadowMode,
) -> (r: String)
    ensures
        r@ == trace_head_text(frames, warmup, width, height, repeat, shadows),
{
    let mut out = String::from_str("reconl-bench trace v1\n# frames ");
    text::push_dec(&mut out, frames as u128);
    out.append(" warmup ");
    text::push_dec(&mut out, warmup as u128);
    out.append("\n# frame ");
    text::push_dec(&mut out, width as u128);
    out.append("x");
    text::push_dec(&mut out, height as u128);
    out.append(" repeat ");
    text::push_dec(&mut out, repeat as u128);
    out.append("\n# shadows ");
    out.append(shadows.name());
    out.append("\n");
    out
}

pub open spec fn trace_device_text(
    s: Totals,
    tier: Seq<char>,
    backend: Seq<char>,
    name: Seq<char>,
) -> Seq<char> {
    "# tier "@
        + tier
        + "\n# backend "@
        + backend
        + "\n# shadow cascades "@
        + text::dec(s.cascades_active as nat)
        + " map "@
        + text::dec(s.map_width as nat)
        + "x"@
        + text::dec(s.map_height as nat)
        + " filter "@
        + names::filter_name(s.filter_active)
        + " (requested "@
        + names::filter_name(s.filter_requested)
        + ")\n# device "@
        + name
        + "\nframe,total_ms,begin_us,submit_us,present_us,shadow_us,pixels\n"@
}

/// The device that a trace was made on.
pub fn trace_device(s: &Totals, tier: &str, backend: &str, name: &str) -> (r: String)
    ensures
        r@ == trace_device_text(*s, tier@, backend@, name@),
{
    let mut out = String::from_str("# tier ");
    out.append(tier);
    out.append("\n# backend ");
    out.append(backend);
    out.append("\n# shadow cascades ");
    text::push_dec(&mut out, s.cascades_active as u128);
    out.append(" map ");
    text::push_dec(&mut out, s.map_width as u128);
    out.append("x");
    text::push_dec(&mut out, s.map_height as u128);
    out.append(" filter ");
    out.append(names::filter(s.filter_active));
    out.append(" (requested ");
    out.append(names::filter(s.filter_requested));
    out.append(")\n# device ");
    out.append(name);
    out.append("\nframe,total_ms,begin_us,submit_us,present_us,shadow_us,pixels\n");
    out
}

pub open spec fn trace_row_text(i: int, s: Sample) -> Seq<char> {
    ""@
        + text::dec(i as nat)
        + ","@
        + units::with_places(units::ratio(units::double(s.total_ns as nat), units::double(1_000_000)), 3)
        + ","@
        + text::dec((s.begin_ns / 1_000) as nat)
        + ","@
        + text::dec((s.submit_ns / 1_000) as nat)
        + ","@
        + text::dec((s.present_ns / 1_000) as nat)
        + ","@
        + text::dec((s.shadow_ns / 1_000) as nat)
        + ","@
        + text::dec(s.pixels as nat)
        + "\n"@
}

/// A frame's own numbers.
pub fn trace_row(i: usize, s: &Sample) -> (r: String)
    ensures
        r@ == trace_row_text(i as int, *s),
{
    let mut out = String::from_str("");
    text::push_dec(&mut out, i as u128);
    out.append(",");
    units::push_quotient(&mut out, s.total_ns, 1_000_000, 3);
    out.append(",");
    text::push_dec(&mut out, (s.begin_ns / 1_000) as u128);
    out.append(",");
    text::push_dec(&mut out, (s.submit_ns / 1_000) as u128);
    out.append(",");
    text::push_dec(&mut out, (s.present_ns / 1_000) as u128);
    out.append(",");
    text::push_dec(&mut out, (s.shadow_ns / 1_000) as u128);
    out.append(",");
    text::push_dec(&mut out, s.pixels as u128);
    out.append("\n");
    out
}

pub open spec fn second_row_text(i: int, s: Second) -> Seq<char> {
    ""@
        + text::dec(i as nat)
        + ","@
        + text::dec(s.frames as nat)
        + ","@
        + units::with_places(units::ratio(units::ratio(units::double(s.total_ns as nat), units::double(at_least_one(s.frames) as nat)), units::double(1_000_000)), 3)
        + ","@
        + units::with_places(units::ratio(units::double(s.worst_ns as nat), units::double(1_000_000)), 3)
        + "\n"@
}

/// A second's frames.
pub fn second_row(i: usize, s: &Second) -> (r: String)
    ensures
        r@ == second_row_text(i as int, *s),
{
    let mut out = String::from_str("");
    text::push_dec(&mut out, i as u128);
    out.append(",");
    text::push_dec(&mut out, s.frames as u128);
    out.append(",");
    units::push_mean_millionths(&mut out, s.total_ns, if s.frames == 0 {
        1
    } else {
        s.frames as u64
    });
    out.append(",");
    units::push_quotient(&mut out, s.worst_ns, 1_000_000, 3);
    out.append("\n");
    out
}

pub open spec fn schedule_line_text(
    num: u32,
    den: u32,
    rendered: u64,
    generated: int,
) -> Seq<char> {
    "\nframe generation\n  schedule        "@
        + units::with_places(units::ratio(units::double(num as nat), units::double(den as nat)), 2)
        + " images per rendered frame ("@
        + text::dec(num as nat)
        + " in "@
        + text::dec(den as nat)
        + "): "@
        + text::dec(rendered as nat)
        + " rendered, "@
        + text::dec(generated as nat)
        + " generated\n"@
}

pub fn schedule_line(num: u32, den: u32, rendered: u64, generated: usize) -> (r: String)
    requires
        den > 0,
    ensures
        r@ == schedule_line_text(num, den, rendered, generated as int),
{
    let mut out = String::from_str("\nframe generation\n  schedule        ");
    units::push_quotient(&mut out, num as u64, den as u64, 2);
    out.append(" images per rendered frame (");
    text::push_dec(&mut out, num as u128);
    out.append(" in ");
    text::push_dec(&mut out, den as u128);
    out.append("): ");
    text::push_dec(&mut out, rendered as u128);
    out.append(" rendered, ");
    text::push_dec(&mut out, generated as u128);
    out.append(" generated\n");
    out
}

pub open spec fn presented_line_text(
    images: Images,
    rendered_ns: u64,
    per_rendered: Seq<char>,
) -> Seq<char> {
    "  presented       "@
        + text::dec(images.total as nat)
        + " images in "@
        + units::ns_text(images.interval_ns as nat)
        + " — "@
        + units::fps_text((images.interval_ns as int / images.total as int) as nat)
        + " images/s against "@
        + units::fps_text(rendered_ns as nat)
        + " rendered frames/s alone: "@
        + units::with_places(units::ratio(units::double(rendered_ns as nat), units::double(per_image(images) as nat)), 2)
        + "x at "@
        + per_rendered
        + " presented per rendered\n"@
}

/// What the schedule delivered, end to end: `per_rendered` is the images per
/// rendered frame, in decimal.
pub fn presented_line(images: Images, rendered_ns: u64, per_rendered: &str) -> (r: String)
    requires
        images.total > 0,
    ensures
        r@ == presented_line_text(images, rendered_ns, per_rendered@),
{
    let mut out = String::from_str("  presented       ");
    text::push_dec(&mut out, images.total as u128);
    out.append(" images in ");
    out.append(units::ns(images.interval_ns).as_str());
    out.append(" — ");
    out.append(units::fps(images.interval_ns / images.total).as_str());
    out.append(" images/s against ");
    out.append(units::fps(rendered_ns).as_str());
    out.append(" rendered frames/s alone: ");
    units::push_quotient(&mut out, rendered_ns, image_time(images), 2);
    out.append("x at ");
    out.append(per_rendered);
    out.append(" presented per rendered\n");
    out
}

pub open spec fn generated_line_text(min: u64, mean: u64, max: u64, rendered_ns: u64) -> Seq<char> {
    "  generated cost  min "@
        + units::ns_text(min as nat)
        + "  avg "@
        + units::ns_text(mean as nat)
        + "  max "@
        + units::ns_text(max as nat)
        + "   ("@
        + units::percent_text(mean as nat, rendered_ns as nat)
        + "% of a rendered frame each)\n"@
}

pub fn generated_line(min: u64, mean: u64, max: u64, rendered_ns: u64) -> (r: String)
    requires
        rendered_ns > 0,
    ensures
        r@ == generated_line_text(min, mean, max, rendered_ns),
{
    let mut out = String::from_str("  generated cost  min ");
    out.append(units::ns(min).as_str());
    out.append("  avg ");
    out.append(units::ns(mean).as_str());
    out.append("  max ");
    out.append(units::ns(max).as_str());
    out.append("   (");
    units::push_percent(&mut out, mean, rendered_ns);
    out.append("% of a rendered frame each)\n");
    out
}

pub open spec fn framegen_line_text(
    generated: u64,
    ready: u64,
    last_ahead: Seq<char>,
    generated_ns: u64,
) -> Seq<char> {
    "  counters        generated "@
        + text::dec(generated as nat)
        + "  ready "@
        + text::dec(ready as nat)
        + "  last ahead "@
        + last_ahead
        + "  device-reported generation time "@
        + units::ns_text(generated_ns as nat)
        + "\n"@
}

/// The device's own counters: `last_ahead` is in decimal.
pub fn framegen_line(generated: u64, ready: u64, last_ahead: &str, generated_ns: u64) -> (r: String)
    ensures
        r@ == framegen_line_text(generated, ready, last_ahead@, generated_ns),
{
    let mut out = String::from_str("  counters        generated ");
    text::push_dec(&mut out, generated as u128);
    out.append("  ready ");
    text::push_dec(&mut out, ready as u128);
    out.append("  last ahead ");
    out.append(last_ahead);
    out.append("  device-reported generation time ");
    out.append(units::ns(generated_ns).as_str());
    out.append("\n");
    out
}

/// No figure's sum over the samples leaves 64 bits.
pub open spec fn sums_fit(samples: Seq<Sample>) -> bool {
    forall|f: Field| #[trigger] run::sum(samples, f) <= u64::MAX
}

pub open spec fn mean(r: Run, f: Field) -> u64 {
    run::mean_of(r.samples@, f) as u64
}

/// Where the host's wall clock went.
pub open spec fn wall_text(r: Run, images: Option<Images>) -> Seq<char> {
    let (min, avg, max) = (
        run::shortest(r.samples@) as u64,
        mean(r, Field::Total),
        run::longest(r.samples@) as u64,
    );
    match images {
        Some(i) if i.is_measured() => wall_with_images_text(min, avg, max, i),
        _ => wall_per_frame_text(min, avg, max),
    }
}

/// Did the device time its own stages?
pub open spec fn is_instrumented(r: Run) -> bool {
    run::sum(r.samples@, Field::DeviceTotal) > 0
}

pub open spec fn stages_text(r: Run) -> Seq<char> {
    if is_instrumented(r) {
        device_split_text(
            mean(r, Field::DeviceTotal),
            mean(r, Field::Shadow),
            mean(r, Field::Raster),
            mean(r, Field::Bin),
            mean(r, Field::Upload),
            mean(r, Field::SpillWait),
        )
    } else {
        "  device split    not instrumented on this backend (no stage timings reported); the host split above is the boundary cost\n"@
    }
}

pub open spec fn pass_text(r: Run) -> Seq<char> {
    if is_instrumented(r) {
        units::ns_text(mean(r, Field::Shadow) as nat)
    } else {
        "—"@
    }
}

/// The first half of a report: where the time went.
pub open spec fn times_text(r: Run, images: Option<Images>) -> Seq<char> {
    title_text((r.samples@.len() % 0x1_0000_0000) as u32) + wall_text(r, images) + host_split_text(
        mean(r, Field::Begin),
        mean(r, Field::Submit),
        mean(r, Field::Present),
    ) + stages_text(r)
}

/// The second half of a report: what was done with it.
pub open spec fn work_done_text(
    r: Run,
    s: Totals,
    ledger: Counters,
    per_frame: Seq<char>,
    backend: Seq<char>,
    tier: Seq<char>,
    reason: Seq<char>,
) -> Seq<char> {
    shadow_line_text(s, pass_text(r)) + cache_line_text(s) + work_line_text(
        mean(r, Field::Pixels),
        run::sum(r.samples@, Field::Pixels) as u64,
        run::sum(r.samples@, Field::Total) as u64,
        mean(r, Field::Triangles),
        mean(r, Field::Tiles),
    ) + memory_line_text(s) + alloc_line_text(ledger, per_frame) + counter_line_text(s)
        + final_line_text(backend, tier, reason)
}

fn wall(r: &Run, images: Option<Images>) -> (t: String)
    requires
        sums_fit(r.samples@),
    ensures
        t@ == wall_text(*r, images),
{
    proof {
        assert(run::sum(r.samples@, Field::Total) <= u64::MAX);
    }
    let (min, avg, max) = r.bounds();
    match images {
        Some(i) => if i.measured() {
            wall_with_images(min, avg, max, i)
        } else {
            wall_per_frame(min, avg, max)
        },
        None => wall_per_frame(min, avg, max),
    }
}

/// The mean of a figure whose sum fits.
fn mean_in(r: &Run, f: Field) -> (m: u64)
    requires
        sums_fit(r.samples@),
    ensures
        m == mean(*r, f),
{
    assert(run::sum(r.samples@, f) <= u64::MAX);
    r.mean(f)
}

fn total_in(r: &Run, f: Field) -> (m: u64)
    requires
        sums_fit(r.samples@),
    ensures
        m == run::sum(r.samples@, f),
{
    assert(run::sum(r.samples@, f) <= u64::MAX);
    r.total(f)
}

fn stages(r: &Run) -> (t: String)
    requires
        sums_fit(r.samples@),
    ensures
        t@ == stages_text(*r),
{
    if total_in(r, Field::DeviceTotal) > 0 {
        device_split(
            mean_in(r, Field::DeviceTotal),
            mean_in(r, Field::Shadow),
            mean_in(r, Field::Raster),
            mean_in(r, Field::Bin),
            mean_in(r, Field::Upload),
            mean_in(r, Field::SpillWait),
        )
    } else {
        String::from_str(
            "  device split    not instrumented on this backend (no stage timings reported); the host split above is the boundary cost\n",
        )
    }
}

/// Where the time of a run went: the wall clock at the host's three boundaries,
/// and the device's own split where it has one.
pub fn report_times(r: &Run, images: Option<Images>) -> (t: String)
    requires
        sums_fit(r.samples@),
    ensures
        t@ == times_text(*r, images),
{
    let mut out = title(r.frames());
    out.append(wall(r, images).as_str());
    out.append(
        host_split(
            mean_in(r, Field::Begin),
            mean_in(r, Field::Submit),
            mean_in(r, Field::Present),
        ).as_str(),
    );
    out.append(stages(r).as_str());
    out
}

/// What a run did in its time, and what it ended on.
pub fn report_work(
    r: &Run,
    s: &Totals,
    ledger: &Counters,
    per_frame: &str,
    backend: &str,
    tier: &str,
    reason: &str,
) -> (t: String)
    requires
        sums_fit(r.samples@),
    ensures
        t@ == work_done_text(*r, *s, *ledger, per_frame@, backend@, tier@, reason@),
{
    let pass = if total_in(r, Field::DeviceTotal) > 0 {
        units::ns(mean_in(r, Field::Shadow))
    } else {
        String::from_str("—")
    };
    let mut out = shadow_line(s, pass.as_str());
    out.append(cache_line(s).as_str());
    out.append(
        work_line(
            mean_in(r, Field::Pixels),
            total_in(r, Field::Pixels),
            total_in(r, Field::Total),
            mean_in(r, Field::Triangles),
            mean_in(r, Field::Tiles),
        ).as_str(),
    );
    out.append(memory_line(s).as_str());
    out.append(alloc_line(ledger, per_frame).as_str());
    out.append(counter_line(s).as_str());
    out.append(final_line(backend, tier, reason).as_str());
    out
}

/// A run's report, whole.
pub open spec fn report_text(
    r: Run,
    images: Option<Images>,
    s: Totals,
    ledger: Counters,
    per_frame: Seq<char>,
    backend: Seq<char>,
    tier: Seq<char>,
    reason: Seq<char>,
) -> Seq<char> {
    times_text(r, images) + work_done_text(r, s, ledger, per_frame, backend, tier, reason)
}

impl Run {
    /// The report of a run. `per_frame` is the allocations per frame in decimal;
    /// the names are the library's own.
    pub fn report(
        &self,
        images: Option<Images>,
        s: &Totals,
        ledger: &Counters,
        per_frame: &str,
        backend: &str,
        tier: &str,
        reason: &str,
    ) -> (t: String)
        requires
            sums_fit(self.samples@),
        ensures
            t@ == report_text(*self, images, *s, *ledger, per_frame@, backend@, tier@, reason@),
    {
        let mut out = report_times(self, images);
        out.append(report_work(self, s, ledger, per_frame, backend, tier, reason).as_str());
        out
    }
}

/// The rows of the first `n` frames.
pub open spec fn rows_text(samples: Seq<Sample>, n: int) -> Seq<char>
    decreases n,
{
    if n <= 0 {
        seq![]
    } else {
        rows_text(samples, n - 1) + trace_row_text(n - 1, samples[n - 1])
    }
}

/// The rows of the first `n` seconds.
pub open spec fn seconds_text(seconds: Seq<Second>, n: int) -> Seq<char>
    decreases n,
{
    if n <= 0 {
        seq![]
    } else {
        seconds_text(seconds, n - 1) + second_row_text(n - 1, seconds[n - 1])
    }
}

pub open spec fn trace_text(
    r: Run,
    head: Seq<char>,
    device: Seq<char>,
) -> Seq<char> {
    head + device + rows_text(r.samples@, r.samples@.len() as int)
        + "second,frames,mean_ms,max_ms\n"@ + seconds_text(
        r.per_second@,
        r.per_second@.len() as int,
    )
}

fn rows(samples: &Vec<Sample>) -> (t: String)
    ensures
        t@ == rows_text(samples@, samples@.len() as int),
{
    let mut out = String::new();
    let mut i: usize = 0;
    assert(out@ =~= rows_text(samples@, 0));
    while i < samples.len()
        invariant
            i <= samples@.len(),
            out@ == rows_text(samples@, i as int),
        decreases samples@.len() - i,
    {
        out.append(trace_row(i, &samples[i]).as_str());
        i += 1;
    }
    out
}

fn second_rows(seconds: &Vec<Second>) -> (t: String)
    ensures
        t@ == seconds_text(seconds@, seconds@.len() as int),
{
    let mut out = String::new();
    let mut i: usize = 0;
    assert(out@ =~= seconds_text(seconds@, 0));
    while i < seconds.len()
        invariant
            i <= seconds@.len(),
            out@ == seconds_text(seconds@, i as int),
        decreases seconds@.len() - i,
    {
        out.append(second_row(i, &seconds[i]).as_str());
        i += 1;
    }
    out
}

impl Run {
    /// The trace: what the run was (see [`trace_head`] and [`trace_device`]),
    /// every frame, then the per-second buckets.
    pub fn trace(&self, head: &str, device: &str) -> (t: String)
        ensures
            t@ == trace_text(*self, head@, device@),
    {
        let mut out = String::from_str(head);
        out.append(device);
        out.append(rows(&self.samples).as_str());
        out.append("second,frames,mean_ms,max_ms\n");
        out.append(second_rows(&self.per_second).as_str());
        out
    }
}

/// The smallest of some times.
pub open spec fn least(times: Seq<u64>) -> int
    decreases times.len(),
{
    if times.len() == 0 {
        0
    } else if times.len() == 1 {
        times[0] as int
    } else if times.last() < least(times.drop_last()) {
        times.last() as int
    } else {
        least(times.drop_last())
    }
}

/// The largest of some times.
pub open spec fn most(times: Seq<u64>) -> int
    decreases times.len(),
{
    if times.len() == 0 {
        0
    } else if times.last() > most(times.drop_last()) {
        times.last() as int
    } else {
        most(times.drop_last())
    }
}

pub open spec fn total_of(times: Seq<u64>) -> int
    decreases times.len(),
{
    if times.len() == 0 {
        0
    } else {
        total_of(times.drop_last()) + times.last()
    }
}

proof fn lemma_total_grows(times: Seq<u64>, n: int)
    requires
        0 <= n <= times.len(),
    ensures
        0 <= total_of(times.take(n)) <= total_of(times),
    decreases times.len(),
{
    if n == times.len() {
        assert(times.take(n) =~= times);
        if n > 0 {
            lemma_total_grows(times.drop_last(), n - 1);
            assert(times.drop_last().take(n - 1) =~= times.drop_last());
        }
    } else {
        lemma_total_grows(times.drop_last(), n);
        assert(times.drop_last().take(n) =~= times.take(n));
    }
}

/// The smallest, the mean and the largest of some times.
pub fn spread(times: &[u64]) -> (r: (u64, u64, u64))
    requires
        times@.len() > 0,
        total_of(times@) <= u64::MAX,
    ensures
        r.0 == least(times@),
        r.1 == total_of(times@) / times@.len() as int,
        r.2 == most(times@),
{
    let mut min: u64 = 0;
    let mut max: u64 = 0;
    let mut total: u64 = 0;
    let mut i: usize = 0;
    while i < times.len()
        invariant
            i <= times@.len(),
            total_of(times@) <= u64::MAX,
            min == least(times@.take(i as int)),
            max == most(times@.take(i as int)),
            total == total_of(times@.take(i as int)),
        decreases times@.len() - i,
    {
        proof {
            lemma_total_grows(times@, i + 1);
            assert(times@.take(i + 1).drop_last() =~= times@.take(i as int));
        }
        let ns: u64 = times[i];
        if i == 0 || ns < min {
            min = ns;
        }
        if ns > max {
            max = ns;
        }
        total = total + ns;
        i += 1;
    }
    assert(times@.take(i as int) =~= times@);
    assert(times.len() == times@.len());
    (min, total / times.len() as u64, max)
}

/// What the frame-generation section says of the images in between.
pub open spec fn generated_text(generated: Seq<u64>, rendered_ns: u64) -> Seq<char> {
    if generated.len() == 0 {
        ""@
    } else {
        generated_line_text(
            least(generated) as u64,
            (total_of(generated) / generated.len() as int) as u64,
            most(generated) as u64,
            rendered_ns,
        )
    }
}

/// The mean time of a rendered frame, never none.
pub open spec fn rendered_time(r: Run) -> u64 {
    let ns = mean(r, Field::Total);
    if ns == 0 {
        1
    } else {
        ns
    }
}

/// What the frame-generation schedule delivered.
pub open spec fn framegen_text(
    r: Run,
    num: u32,
    den: u32,
    images: Images,
    generated: Seq<u64>,
    per_rendered: Seq<char>,
    counters: Seq<char>,
) -> Seq<char> {
    let rendered = (r.samples@.len() % 0x1_0000_0000) as u64;
    if rendered == 0 || !images.is_measured() {
        ""@
    } else {
        schedule_line_text(num, den, rendered, generated.len() as int) + presented_line_text(
            images,
            rendered_time(r),
            per_rendered,
        ) + generated_text(generated, rendered_time(r)) + counters
    }
}

impl Run {
    /// What the frame-generation schedule actually delivered.
    ///
    /// Measured end to end, not implied by the ratio: the presented rate is the
    /// images handed over divided by the wall time it took to render and warp
    /// them, and the multiplier is that against rendering alone. `counters` is the
    /// device's own account, see [`framegen_line`].
    pub fn report_framegen(
        &self,
        num: u32,
        den: u32,
        images: Images,
        generated: &[u64],
        per_rendered: &str,
        counters: &str,
    ) -> (t: String)
        requires
            den > 0,
            sums_fit(self.samples@),
            total_of(generated@) <= u64::MAX,
        ensures
            t@ == framegen_text(
                *self,
                num,
                den,
                images,
                generated@,
                per_rendered@,
                counters@,
            ),
    {
        let rendered: u64 = self.frames() as u64;
        if rendered == 0 || !images.measured() {
            return String::from_str("");
        }
        let mean_ns: u64 = mean_in(self, Field::Total);
        let rendered_ns: u64 = if mean_ns == 0 {
            1
        } else {
            mean_ns
        };
        let mut out = schedule_line(num, den, rendered, generated.len());
        out.append(presented_line(images, rendered_ns, per_rendered).as_str());
        if generated.len() == 0 {
            out.append("");
        } else {
            let (min, mean, max) = spread(generated);
            out.append(generated_line(min, mean, max, rendered_ns).as_str());
        }
        out.append(counters);
        out
    }
}

/// The bounds of some times are the shortest and the longest of them.
pub proof fn law_the_bounds_of_some_times_are_among_them(times: Seq<u64>)
    requires
        times.len() > 0,
    ensures
        forall|i: int|
            0 <= i < times.len() ==> least(times) <= #[trigger] times[i] <= most(times),
        times.contains(least(times) as u64),
        times.contains(most(times) as u64),
        0 <= least(times) <= u64::MAX,
        0 <= most(times) <= u64::MAX,
    decreases times.len(),
{
    let n = times.len() - 1;
    let rest = times.drop_last();
    assert(times[n] == times.last());
    if rest.len() > 0 {
        law_the_bounds_of_some_times_are_among_them(rest);
        assert forall|i: int| 0 <= i < times.len() implies least(times) <= #[trigger] times[i]
            <= most(times) by {
            if i < n {
                assert(rest[i] == times[i]);
            }
        }
        let a = choose|a: int| 0 <= a < rest.len() && rest[a] == least(rest) as u64;
        let b = choose|b: int| 0 <= b < rest.len() && rest[b] == most(rest) as u64;
        assert(times[a] == rest[a] && times[b] == rest[b]);
    } else {
        assert(most(rest) == 0);
    }
}

} // verus!
