//! What a machine can do, before anything is drawn.
use crate::host::abi;
use crate::host::arguments;
use crate::host::device::Config;
use crate::host::ledger;
use crate::host::ledger::Counters;
use crate::host::names;
use crate::host::units;
use crate::text;
use vstd::prelude::*;
use vstd::string::StringExecFns;

verus! {

/// The options a report knows.
pub open spec fn flag_names() -> Seq<Seq<char>> {
    seq![
        "--probe-only"@,
        "--all-devices"@,
        "--backend"@,
        "--tier"@,
        "--threads"@,
        "--ram-cap"@,
        "--vram-cap"@,
        "--disk-cap"@,
        "--spill"@,
        "--spill-dir"@,
        "--help"@,
        "--device"@,
    ]
}

fn flags() -> (r: [&'static str; 12])
    ensures
        text::texts(r@) == flag_names(),
{
    let r = [
        "--probe-only",
        "--all-devices",
        "--backend",
        "--tier",
        "--threads",
        "--ram-cap",
        "--vram-cap",
        "--disk-cap",
        "--spill",
        "--spill-dir",
        "--help",
        "--device",
    ];
    assert(text::texts(r@) =~= flag_names());
    r
}

/// The first thing that is wrong with the options of a device.
pub open spec fn config_fault(args: Seq<String>) -> Option<Seq<char>> {
    arguments::first(
        arguments::fault(arguments::backend_of(args)),
        arguments::first(
            arguments::fault(arguments::tier_of(args)),
            arguments::first(
                arguments::fault(
                    arguments::number_of(args, "--threads"@, "thread count"@, 0, 0),
                ),
                arguments::first(
                    arguments::fault(arguments::size_of(args, "--ram-cap"@)),
                    arguments::first(
                        arguments::fault(arguments::size_of(args, "--vram-cap"@)),
                        arguments::fault(arguments::size_of(args, "--disk-cap"@)),
                    ),
                ),
            ),
        ),
    )
}

/// The device that some arguments ask for.
pub open spec fn is_asked_for(c: Config, args: Seq<String>) -> bool {
    &&& arguments::backend_of(args) == Ok::<u32, Seq<char>>(c.backend)
    &&& arguments::tier_of(args) == Ok::<u32, Seq<char>>(c.tier)
    &&& arguments::number_of(args, "--threads"@, "thread count"@, 0, 0) == Ok::<u32, Seq<char>>(
        c.threads,
    )
    &&& arguments::size_of(args, "--ram-cap"@) == Ok::<nat, Seq<char>>(c.ram_cap as nat)
    &&& arguments::size_of(args, "--vram-cap"@) == Ok::<nat, Seq<char>>(c.vram_cap as nat)
    &&& arguments::size_of(args, "--disk-cap"@) == Ok::<nat, Seq<char>>(c.disk_cap as nat)
    &&& c.allow_disk_spill == match arguments::value(args, "--spill"@) {
        Some(v) => arguments::is_yes(v),
        None => false,
    }
    &&& arguments::same_text(c.spill_dir, arguments::value(args, "--spill-dir"@))
    &&& c.allow_downgrade == abi::ALLOW_DOWNGRADE_ALL
    &&& c.target_frame_ms == 0
    &&& c.downgrade_after_frames == 16
    &&& c.seed == 7
}

/// Reads the options of a device.
pub fn config_from(args: &[String]) -> (r: Result<Config, String>)
    ensures
        match r {
            Ok(c) => config_fault(args@) is None && is_asked_for(c, args@),
            Err(e) => config_fault(args@) == Some(e@),
        },
{
    let mut config = Config::default();
    match arguments::backend_from(args) {
        Ok(v) => {
            config.backend = v;
        },
        Err(e) => {
            return Err(e);
        },
    }
    match arguments::tier_from(args) {
        Ok(v) => {
            config.tier = v;
        },
        Err(e) => {
            return Err(e);
        },
    }
    match arguments::number_from(args, "--threads", "thread count", 0, 0) {
        Ok(v) => {
            config.threads = v;
        },
        Err(e) => {
            return Err(e);
        },
    }
    match arguments::size_from(args, "--ram-cap") {
        Ok(v) => {
            config.ram_cap = v;
        },
        Err(e) => {
            return Err(e);
        },
    }
    match arguments::size_from(args, "--vram-cap") {
        Ok(v) => {
            config.vram_cap = v;
        },
        Err(e) => {
            return Err(e);
        },
    }
    match arguments::size_from(args, "--disk-cap") {
        Ok(v) => {
            config.disk_cap = v;
        },
        Err(e) => {
            return Err(e);
        },
    }
    config.allow_disk_spill = match units::value_of(args, "--spill") {
        Some(v) => text::same(v, "1") || text::same(v, "on") || text::same(v, "true"),
        None => false,
    };
    config.spill_dir = arguments::text_from(args, "--spill-dir");
    Ok(config)
}

/// What a command line asks for.
pub enum Request {
    /// The text that explains the options.
    Help,
    /// Nothing: this is what is wrong with it.
    Refused(String),
    /// The version is printed before the options of the device are looked at.
    Go { probe_only: bool, all_devices: bool },
}

pub open spec fn is_given(args: Seq<String>, flag: Seq<char>) -> bool {
    exists|i: int| 0 <= i < args.len() && #[trigger] args[i]@ == flag
}

/// Reads a command line, but for the options of the device (see [`config_from`]).
pub fn request(args: &[String]) -> (r: Request)
    ensures
        match r {
            Request::Help => is_given(args@, "--help"@) || is_given(args@, "-h"@),
            Request::Refused(e) => {
                &&& !is_given(args@, "--help"@) && !is_given(args@, "-h"@)
                &&& units::unknown_in(args@, flag_names()) == Some(e@)
            },
            Request::Go { probe_only, all_devices } => {
                &&& !is_given(args@, "--help"@) && !is_given(args@, "-h"@)
                &&& units::unknown_in(args@, flag_names()) is None
                &&& probe_only == is_given(args@, "--probe-only"@)
                &&& all_devices == is_given(args@, "--all-devices"@)
            },
        },
{
    if units::has_flag(args, "--help") || units::has_flag(args, "-h") {
        return Request::Help;
    }
    let known = flags();
    match units::reject_unknown(args, &known) {
        Ok(_) => {},
        Err(e) => {
            return Request::Refused(e);
        },
    }
    Request::Go {
        probe_only: units::has_flag(args, "--probe-only"),
        all_devices: units::has_flag(args, "--all-devices"),
    }
}

/// What a probe says of one backend.
pub struct Probed {
    pub backend: u32,
    pub usable: bool,
    pub name: String,
    pub vram_bytes: u64,
    pub ram_bytes: u64,
    pub max_cascades: u32,
    pub shadow_texel_budget: u64,
    pub device_name: String,
    pub caps: u32,
    pub note: String,
}

/// The usable backends among some entries, in their order.
pub open spec fn usable_in(entries: Seq<Probed>) -> Seq<Option<u32>>
    decreases entries.len(),
{
    if entries.len() == 0 {
        seq![]
    } else if entries.last().usable {
        usable_in(entries.drop_last()).push(Some(entries.last().backend))
    } else {
        usable_in(entries.drop_last())
    }
}

/// The backends to create a device on: every usable one, the one that was asked
/// for, or whichever the library picks.
pub fn wanted(all_devices: bool, entries: &[Probed], backend: u32) -> (r: Vec<Option<u32>>)
    ensures
        r@ == if all_devices {
            usable_in(entries@)
        } else if backend != abi::BACKEND_NONE {
            seq![Some(backend)]
        } else {
            seq![None]
        },
{
    let mut r: Vec<Option<u32>> = Vec::new();
    if !all_devices {
        if backend != abi::BACKEND_NONE {
            r.push(Some(backend));
            assert(r@ =~= seq![Some(backend)]);
        } else {
            r.push(None);
            assert(r@ =~= seq![None]);
        }
        return r;
    }
    let mut i: usize = 0;
    assert(r@ =~= usable_in(entries@.take(0)));
    while i < entries.len()
        invariant
            i <= entries@.len(),
            r@ == usable_in(entries@.take(i as int)),
        decreases entries@.len() - i,
    {
        assert(entries@.take(i + 1).drop_last() =~= entries@.take(i as int));
        if entries[i].usable {
            r.push(Some(entries[i].backend));
        }
        i += 1;
    }
    assert(entries@.take(i as int) =~= entries@);
    r
}

pub open spec fn usable_text(usable: bool) -> Seq<char> {
    if usable {
        "yes"@
    } else {
        "no"@
    }
}

fn yes_or_no(usable: bool) -> (r: &'static str)
    ensures
        r@ == usable_text(usable),
{
    if usable {
        "yes"
    } else {
        "no"
    }
}

/// Video memory: a dash where a backend has none.
pub open spec fn vram_text(n: nat) -> Seq<char> {
    if n == 0 {
        "—"@
    } else {
        units::bytes_text(n)
    }
}

fn vram(n: u64) -> (r: String)
    ensures
        r@ == vram_text(n as nat),
{
    if n == 0 {
        String::from_str("—")
    } else {
        units::bytes(n)
    }
}

fn decimal(n: u32) -> (r: String)
    ensures
        r@ == text::dec(n as nat),
{
    let mut out = String::new();
    text::push_dec(&mut out, n as u128);
    assert(out@ =~= text::dec(n as nat));
    out
}

pub open spec fn note_text(note: Seq<char>) -> Seq<char> {
    if note.len() == 0 {
        ""@
    } else {
        "              note: "@ + note + "\n"@
    }
}

fn note_line(note: &str) -> (r: String)
    ensures
        r@ == note_text(note@),
{
    let n = text::chars_of(note).len();
    if n == 0 {
        String::from_str("")
    } else {
        let mut out = String::from_str("              note: ");
        out.append(note);
        out.append("\n");
        out
    }
}

/// What a device will admit.
#[derive(Clone, Copy, Debug, PartialEq, Eq, Structural)]
pub struct Limits {
    pub vram_bytes: u64,
    pub ram_bytes: u64,
    pub disk_bytes: u64,
    pub max_allocation_bytes: u64,
    pub worker_threads_max: u32,
    pub tile_size_min: u32,
    pub max_cascades: u32,
    pub max_lights: u32,
    pub shadow_texel_budget_bytes: u64,
    pub caps: u32,
}

/// Resident memory, spill traffic and the device's view of the host allocator.
#[derive(Clone, Copy, Debug, PartialEq, Eq, Structural)]
pub struct Memory {
    pub ram_resident_bytes: u64,
    pub ram_budget_bytes: u64,
    pub ram_peak_bytes: u64,
    pub spill_disk_bytes: u64,
    pub spill_disk_cap_bytes: u64,
    pub spill_entries: u64,
    pub spill_evictions: u64,
    pub spill_errors: u64,
    pub host_alloc_calls: u64,
    pub host_alloc_bytes: u64,
    pub host_free_calls: u64,
}

/// What a device has counted.
#[derive(Clone, Copy, Debug, PartialEq, Eq, Structural)]
pub struct Activity {
    pub frames_presented: u64,
    pub frames_dropped: u64,
    pub failures: u64,
    pub safe_path_events: u64,
    pub downgrade_count: u32,
}

/// One step down the tier ladder, its tiers by name.
pub struct Downgrade {
    pub from: String,
    pub to: String,
    pub frame_index: u64,
    pub detail: String,
    pub reason: u32,
}

/// The number of blocks that a ledger has outstanding fits its type.
pub open spec fn live_fits(l: Counters) -> bool {
    i64::MIN <= ledger::signed(l.alloc_calls) - ledger::signed(l.free_calls) <= i64::MAX
}

fn push_live(out: &mut String, l: &Counters)
    requires
        live_fits(*l),
    ensures
        final(out)@ == old(out)@ + text::signed_dec(
            ledger::signed(l.alloc_calls) - ledger::signed(l.free_calls),
        ),
{
    text::push_signed(out, l.live_blocks());
}

pub open spec fn device_title_text(backend: Seq<char>, requested: Seq<char>) -> Seq<char> {
    "\ndevice: "@
        + backend
        + " (requested "@
        + requested
        + ")\n"@
}

pub fn device_title(backend: &str, requested: &str) -> (r: String)
    ensures
        r@ == device_title_text(backend@, requested@),
{
    let mut out = String::from_str("\ndevice: ");
    out.append(backend);
    out.append(" (requested ");
    out.append(requested);
    out.append(")\n");
    out
}

pub open spec fn tier_line_text(tier: Seq<char>, reason: Seq<char>) -> Seq<char> {
    "  resolved tier: "@
        + tier
        + " — "@
        + reason
        + "\n"@
}

pub fn tier_line(tier: &str, reason: &str) -> (r: String)
    ensures
        r@ == tier_line_text(tier@, reason@),
{
    let mut out = String::from_str("  resolved tier: ");
    out.append(tier);
    out.append(" — ");
    out.append(reason);
    out.append("\n");
    out
}

pub open spec fn name_line_text(name: Seq<char>, driver: Seq<char>) -> Seq<char> {
    "  device: "@
        + name
        + "  driver: "@
        + driver
        + "\n"@
}

pub fn name_line(name: &str, driver: &str) -> (r: String)
    ensures
        r@ == name_line_text(name@, driver@),
{
    let mut out = String::from_str("  device: ");
    out.append(name);
    out.append("  driver: ");
    out.append(driver);
    out.append("\n");
    out
}

pub open spec fn memory_limits_text(l: Limits) -> Seq<char> {
    "  limits: vram "@
        + units::bytes_text(l.vram_bytes as nat)
        + "  ram "@
        + units::bytes_text(l.ram_bytes as nat)
        + "  disk "@
        + units::bytes_text(l.disk_bytes as nat)
        + "  max allocation "@
        + units::bytes_text(l.max_allocation_bytes as nat)
        + "\n"@
}

pub fn memory_limits(l: &Limits) -> (r: String)
    ensures
        r@ == memory_limits_text(*l),
{
    let mut out = String::from_str("  limits: vram ");
    out.append(units::bytes(l.vram_bytes).as_str());
    out.append("  ram ");
    out.append(units::bytes(l.ram_bytes).as_str());
    out.append("  disk ");
    out.append(units::bytes(l.disk_bytes).as_str());
    out.append("  max allocation ");
    out.append(units::bytes(l.max_allocation_bytes).as_str());
    out.append("\n");
    out
}

pub open spec fn work_limits_text(l: Limits) -> Seq<char> {
    "  limits: worker threads "@
        + text::dec(l.worker_threads_max as nat)
        + "  tile size "@
        + text::dec(l.tile_size_min as nat)
        + "  cascades "@
        + text::dec(l.max_cascades as nat)
        + "  lights "@
        + text::dec(l.max_lights as nat)
        + "  shadow budget "@
        + units::bytes_text(l.shadow_texel_budget_bytes as nat)
        + "\n"@
}

pub fn work_limits(l: &Limits) -> (r: String)
    ensures
        r@ == work_limits_text(*l),
{
    let mut out = String::from_str("  limits: worker threads ");
    text::push_dec(&mut out, l.worker_threads_max as u128);
    out.append("  tile size ");
    text::push_dec(&mut out, l.tile_size_min as u128);
    out.append("  cascades ");
    text::push_dec(&mut out, l.max_cascades as u128);
    out.append("  lights ");
    text::push_dec(&mut out, l.max_lights as u128);
    out.append("  shadow budget ");
    out.append(units::bytes(l.shadow_texel_budget_bytes).as_str());
    out.append("\n");
    out
}

pub open spec fn caps_line_text(caps: u32) -> Seq<char> {
    "  caps: "@
        + names::caps_text(caps)
        + "\n"@
}

pub fn caps_line(caps: u32) -> (r: String)
    ensures
        r@ == caps_line_text(caps),
{
    let mut out = String::from_str("  caps: ");
    out.append(names::caps(caps).as_str());
    out.append("\n");
    out
}

pub open spec fn memory_line_text(m: Memory) -> Seq<char> {
    "  memory: resident "@
        + units::bytes_text(m.ram_resident_bytes as nat)
        + " of "@
        + units::bytes_text(m.ram_budget_bytes as nat)
        + " (peak "@
        + units::bytes_text(m.ram_peak_bytes as nat)
        + ")  spill "@
        + units::bytes_text(m.spill_disk_bytes as nat)
        + " on disk of "@
        + units::bytes_text(m.spill_disk_cap_bytes as nat)
        + " ("@
        + text::dec(m.spill_entries as nat)
        + " entries, "@
        + text::dec(m.spill_evictions as nat)
        + " evictions, "@
        + text::dec(m.spill_errors as nat)
        + " errors)\n"@
}

pub fn memory_line(m: &Memory) -> (r: String)
    ensures
        r@ == memory_line_text(*m),
{
    let mut out = String::from_str("  memory: resident ");
    out.append(units::bytes(m.ram_resident_bytes).as_str());
    out.append(" of ");
    out.append(units::bytes(m.ram_budget_bytes).as_str());
    out.append(" (peak ");
    out.append(units::bytes(m.ram_peak_bytes).as_str());
    out.append(")  spill ");
    out.append(units::bytes(m.spill_disk_bytes).as_str());
    out.append(" on disk of ");
    out.append(units::bytes(m.spill_disk_cap_bytes).as_str());
    out.append(" (");
    text::push_dec(&mut out, m.spill_entries as u128);
    out.append(" entries, ");
    text::push_dec(&mut out, m.spill_evictions as u128);
    out.append(" evictions, ");
    text::push_dec(&mut out, m.spill_errors as u128);
    out.append(" errors)\n");
    out
}

pub open spec fn device_ledger_text(m: Memory) -> Seq<char> {
    "  device ledger for the host allocator: "@
        + text::dec(m.host_alloc_calls as nat)
        + " allocations, "@
        + text::dec(m.host_alloc_bytes as nat)
        + " bytes, "@
        + text::dec(m.host_free_calls as nat)
        + " frees\n"@
}

pub fn device_ledger(m: &Memory) -> (r: String)
    ensures
        r@ == device_ledger_text(*m),
{
    let mut out = String::from_str("  device ledger for the host allocator: ");
    text::push_dec(&mut out, m.host_alloc_calls as u128);
    out.append(" allocations, ");
    text::push_dec(&mut out, m.host_alloc_bytes as u128);
    out.append(" bytes, ");
    text::push_dec(&mut out, m.host_free_calls as u128);
    out.append(" frees\n");
    out
}

pub open spec fn activity_line_text(c: Activity) -> Seq<char> {
    "  counters: frames presented "@
        + text::dec(c.frames_presented as nat)
        + "  dropped "@
        + text::dec(c.frames_dropped as nat)
        + "  failures "@
        + text::dec(c.failures as nat)
        + "  safe-path events "@
        + text::dec(c.safe_path_events as nat)
        + "  downgrades "@
        + text::dec(c.downgrade_count as nat)
        + "\n"@
}

pub fn activity_line(c: &Activity) -> (r: String)
    ensures
        r@ == activity_line_text(*c),
{
    let mut out = String::from_str("  counters: frames presented ");
    text::push_dec(&mut out, c.frames_presented as u128);
    out.append("  dropped ");
    text::push_dec(&mut out, c.frames_dropped as u128);
    out.append("  failures ");
    text::push_dec(&mut out, c.failures as u128);
    out.append("  safe-path events ");
    text::push_dec(&mut out, c.safe_path_events as u128);
    out.append("  downgrades ");
    text::push_dec(&mut out, c.downgrade_count as u128);
    out.append("\n");
    out
}

pub open spec fn downgrade_line_text(d: Downgrade) -> Seq<char> {
    "    downgrade "@
        + d.from@
        + " -> "@
        + d.to@
        + " at frame "@
        + text::dec(d.frame_index as nat)
        + ": "@
        + d.detail@
        + " ("@
        + text::dec(d.reason as nat)
        + ")\n"@
}

/// One step down the tier ladder.
pub fn downgrade_line(d: &Downgrade) -> (r: String)
    ensures
        r@ == downgrade_line_text(*d),
{
    let mut out = String::from_str("    downgrade ");
    out.append(d.from.as_str());
    out.append(" -> ");
    out.append(d.to.as_str());
    out.append(" at frame ");
    text::push_dec(&mut out, d.frame_index as u128);
    out.append(": ");
    out.append(d.detail.as_str());
    out.append(" (");
    text::push_dec(&mut out, d.reason as u128);
    out.append(")\n");
    out
}

pub open spec fn error_line_text(last: Seq<char>) -> Seq<char> {
    "  last error: "@
        + last
        + "\n"@
}

pub fn error_line(last: &str) -> (r: String)
    ensures
        r@ == error_line_text(last@),
{
    let mut out = String::from_str("  last error: ");
    out.append(last);
    out.append("\n");
    out
}

pub open spec fn refused_device_text(requested: Seq<char>, e: Seq<char>) -> Seq<char> {
    "\ndevice: "@
        + requested
        + "\n  refused: "@
        + e
        + "\n"@
}

/// A backend that is probed as usable but cannot be created is a finding about
/// this machine, not a tool failure: the other backends still get reported.
pub fn refused_device(requested: &str, e: &str) -> (r: String)
    ensures
        r@ == refused_device_text(requested@, e@),
{
    let mut out = String::from_str("\ndevice: ");
    out.append(requested);
    out.append("\n  refused: ");
    out.append(e);
    out.append("\n");
    out
}

pub open spec fn probe_ledger_text(l: Counters) -> Seq<char> {
    "  host allocations during the probe: "@
        + text::dec(l.alloc_calls as nat)
        + " ("@
        + text::dec(l.alloc_bytes as nat)
        + " bytes requested, "@
        + text::signed_dec(ledger::signed(l.alloc_calls) - ledger::signed(l.free_calls))
        + " outstanding)\n"@
}

/// What a probe took from the host allocator.
pub fn probe_ledger(l: &Counters) -> (r: String)
    requires
        live_fits(*l),
    ensures
        r@ == probe_ledger_text(*l),
{
    let mut out = String::from_str("  host allocations during the probe: ");
    text::push_dec(&mut out, l.alloc_calls as u128);
    out.append(" (");
    text::push_dec(&mut out, l.alloc_bytes as u128);
    out.append(" bytes requested, ");
    push_live(&mut out, l);
    out.append(" outstanding)\n");
    out
}

pub open spec fn release_ledger_text(l: Counters) -> Seq<char> {
    "  host ledger after release: "@
        + text::dec(l.alloc_calls as nat)
        + " allocations, "@
        + units::bytes_text(l.peak_bytes as nat)
        + " peak, "@
        + text::signed_dec(ledger::signed(l.alloc_calls) - ledger::signed(l.free_calls))
        + " outstanding\n"@
}

/// Read *after* the release, which is the only way "gave every block back" is a
/// measurement rather than an intention.
pub fn release_ledger(l: &Counters) -> (r: String)
    requires
        live_fits(*l),
    ensures
        r@ == release_ledger_text(*l),
{
    let mut out = String::from_str("  host ledger after release: ");
    text::push_dec(&mut out, l.alloc_calls as u128);
    out.append(" allocations, ");
    out.append(units::bytes(l.peak_bytes).as_str());
    out.append(" peak, ");
    push_live(&mut out, l);
    out.append(" outstanding\n");
    out
}

pub open spec fn recommendation_text(backend: Seq<char>, tier: Seq<char>) -> Seq<char> {
    "\n  recommended: "@
        + backend
        + " on "@
        + tier
        + "\n"@
}

pub fn recommendation(backend: &str, tier: &str) -> (r: String)
    ensures
        r@ == recommendation_text(backend@, tier@),
{
    let mut out = String::from_str("\n  recommended: ");
    out.append(backend);
    out.append(" on ");
    out.append(tier);
    out.append("\n");
    out
}

pub open spec fn probe_head_text() -> Seq<char> {
    "  "@
        + text::left("backend"@, 11)
        + " "@
        + text::left("usable"@, 6)
        + " "@
        + text::left("best tier"@, 16)
        + " "@
        + text::right("vram"@, 10)
        + " "@
        + text::right("ram"@, 12)
        + " "@
        + text::right("cascades"@, 8)
        + " "@
        + text::right("shadow budget"@, 13)
        + "  "@
        + "device\n"@
}

pub fn probe_head() -> (r: String)
    ensures
        r@ == probe_head_text(),
{
    let mut out = String::from_str("  ");
    text::push_left(&mut out, "backend", 11);
    out.append(" ");
    text::push_left(&mut out, "usable", 6);
    out.append(" ");
    text::push_left(&mut out, "best tier", 16);
    out.append(" ");
    text::push_right(&mut out, "vram", 10);
    out.append(" ");
    text::push_right(&mut out, "ram", 12);
    out.append(" ");
    text::push_right(&mut out, "cascades", 8);
    out.append(" ");
    text::push_right(&mut out, "shadow budget", 13);
    out.append("  ");
    out.append("device\n");
    out
}

pub open spec fn probe_row_text(e: Probed, tier: Seq<char>) -> Seq<char> {
    "  "@
        + text::left(e.name@, 11)
        + " "@
        + text::left(usable_text(e.usable), 6)
        + " "@
        + text::left(tier, 16)
        + " "@
        + text::right(vram_text(e.vram_bytes as nat), 10)
        + " "@
        + text::right(units::bytes_text(e.ram_bytes as nat), 12)
        + " "@
        + text::right(text::dec(e.max_cascades as nat), 8)
        + " "@
        + text::right(units::bytes_text(e.shadow_texel_budget as nat), 13)
        + "  "@
        + e.device_name@
        + "\n              caps: "@
        + names::caps_text(e.caps)
        + "\n"@
        + note_text(e.note@)
}

/// What a probe says of one backend: `tier` is its best tier's name.
pub fn probe_row(e: &Probed, tier: &str) -> (r: String)
    ensures
        r@ == probe_row_text(*e, tier@),
{
    let mut out = String::from_str("  ");
    text::push_left(&mut out, e.name.as_str(), 11);
    out.append(" ");
    text::push_left(&mut out, yes_or_no(e.usable), 6);
    out.append(" ");
    text::push_left(&mut out, tier, 16);
    out.append(" ");
    text::push_right(&mut out, vram(e.vram_bytes).as_str(), 10);
    out.append(" ");
    text::push_right(&mut out, units::bytes(e.ram_bytes).as_str(), 12);
    out.append(" ");
    text::push_right(&mut out, decimal(e.max_cascades).as_str(), 8);
    out.append(" ");
    text::push_right(&mut out, units::bytes(e.shadow_texel_budget).as_str(), 13);
    out.append("  ");
    out.append(e.device_name.as_str());
    out.append("\n              caps: ");
    out.append(names::caps(e.caps).as_str());
    out.append("\n");
    out.append(note_line(e.note.as_str()).as_str());
    out
}

/// The steps down the ladder, of which a device keeps `kept`.
pub open spec fn downgrades_text(steps: Seq<Downgrade>, n: int) -> Seq<char>
    decreases n,
{
    if n <= 0 {
        ""@
    } else {
        downgrades_text(steps, n - 1) + downgrade_line_text(steps[n - 1])
    }
}

fn downgrades(steps: &[Downgrade], n: usize) -> (r: String)
    requires
        n <= steps@.len(),
    ensures
        r@ == downgrades_text(steps@, n as int),
{
    let mut out = String::from_str("");
    let mut i: usize = 0;
    while i < n
        invariant
            i <= n <= steps@.len(),
            out@ == downgrades_text(steps@, i as int),
        decreases n - i,
    {
        out.append(downgrade_line(&steps[i]).as_str());
        i += 1;
    }
    out
}

/// How a device names itself.
pub struct Named {
    pub backend: String,
    pub tier: String,
    pub reason: String,
    pub name: String,
    pub driver: String,
}

pub open spec fn names_text(d: Named, requested: Seq<char>) -> Seq<char> {
    device_title_text(d.backend@, requested) + tier_line_text(d.tier@, d.reason@)
        + if d.name@.len() == 0 {
        ""@
    } else {
        name_line_text(d.name@, d.driver@)
    }
}

fn names_of(d: &Named, requested: &str) -> (r: String)
    ensures
        r@ == names_text(*d, requested@),
{
    let mut out = device_title(d.backend.as_str(), requested);
    out.append(tier_line(d.tier.as_str(), d.reason.as_str()).as_str());
    let n = text::chars_of(d.name.as_str()).len();
    if n == 0 {
        out.append("");
    } else {
        out.append(name_line(d.name.as_str(), d.driver.as_str()).as_str());
    }
    out
}

pub open spec fn figures_text(l: Limits, m: Memory, c: Activity) -> Seq<char> {
    memory_limits_text(l) + work_limits_text(l) + caps_line_text(l.caps) + memory_line_text(m)
        + device_ledger_text(m) + activity_line_text(c)
}

fn figures(l: &Limits, m: &Memory, c: &Activity) -> (r: String)
    ensures
        r@ == figures_text(*l, *m, *c),
{
    let mut out = memory_limits(l);
    out.append(work_limits(l).as_str());
    out.append(caps_line(l.caps).as_str());
    out.append(memory_line(m).as_str());
    out.append(device_ledger(m).as_str());
    out.append(activity_line(c).as_str());
    out
}

/// The steps of a downgrade count that a device keeps.
pub open spec fn kept_steps(count: u32, steps: Seq<Downgrade>) -> int {
    if count < steps.len() {
        count as int
    } else {
        steps.len() as int
    }
}

/// What a device grants.
pub open spec fn device_text(
    d: Named,
    requested: Seq<char>,
    l: Limits,
    m: Memory,
    c: Activity,
    steps: Seq<Downgrade>,
    last: Option<Seq<char>>,
) -> Seq<char> {
    names_text(d, requested) + figures_text(l, m, c) + downgrades_text(
        steps,
        kept_steps(c.downgrade_count, steps),
    ) + match last {
        Some(e) => error_line_text(e),
        None => ""@,
    }
}

/// The report of a device: its tier, its limits, its memory, and what it has
/// counted. `steps` are the places a device has for steps down the ladder, of
/// which it filled as many as it counted. A device that recorded an error while
/// reporting healthy counters is worth knowing about, because the next call may
/// not be as lucky.
pub fn report_device(
    d: &Named,
    requested: &str,
    l: &Limits,
    m: &Memory,
    c: &Activity,
    steps: &[Downgrade],
    last: Option<&str>,
) -> (r: String)
    ensures
        r@ == device_text(
            *d,
            requested@,
            *l,
            *m,
            *c,
            steps@,
            match last {
                Some(e) => Some(e@),
                None => None,
            },
        ),
{
    let mut out = names_of(d, requested);
    out.append(figures(l, m, c).as_str());
    let n: usize = if (c.downgrade_count as usize) < steps.len() {
        c.downgrade_count as usize
    } else {
        steps.len()
    };
    assert(n == kept_steps(c.downgrade_count, steps@)) by {
        assert(steps.len() == steps@.len());
    }
    out.append(downgrades(steps, n).as_str());
    match last {
        Some(e) => out.append(error_line(e).as_str()),
        None => out.append(""),
    }
    out
}

/// A device is made on every backend that can be used, each once, in their order, and on
/// no other.
pub proof fn law_a_device_is_made_on_every_usable_backend(entries: Seq<Probed>)
    ensures
        usable_in(entries) == entries.filter(|e: Probed| e.usable).map_values(
            |e: Probed| Some(e.backend),
        ),
    decreases entries.len(),
{
    reveal(Seq::filter);
    let keep = |e: Probed| e.usable;
    let name = |e: Probed| Some(e.backend);
    if entries.len() == 0 {
        assert(entries.filter(keep).map_values(name) =~= seq![]);
    } else {
        let rest = entries.drop_last();
        law_a_device_is_made_on_every_usable_backend(rest);
        if keep(entries.last()) {
            assert(entries.filter(keep) =~= rest.filter(keep).push(entries.last()));
            assert(entries.filter(keep).map_values(name) =~= rest.filter(keep).map_values(
                name,
            ).push(Some(entries.last().backend)));
        }
    }
}

} // verus!
