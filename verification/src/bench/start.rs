//! How a run starts: what the command line asks for, and the fingerprint that
//! every number it prints can be traced to.
use crate::bench::options;
use crate::bench::options::Options;
use crate::bench::report;
use crate::host::abi;
use crate::host::arguments;
use crate::host::names;
use crate::host::scene;
use crate::host::scene::Scene;
use crate::host::units;
use crate::labels::{lemma_line, lemma_part_says, line, says};
use crate::text;
use vstd::prelude::*;
use vstd::string::StringExecFns;

verus! {

/// The options a run knows.
pub open spec fn flag_names() -> Seq<Seq<char>> {
    seq![
        "--backend"@,
        "--tier"@,
        "--frames"@,
        "--warmup"@,
        "--width"@,
        "--height"@,
        "--resolution"@,
        "--repeat"@,
        "--shadows"@,
        "--threads"@,
        "--ram-cap"@,
        "--vram-cap"@,
        "--disk-cap"@,
        "--spill"@,
        "--spill-dir"@,
        "--framegen"@,
        "--target-ms"@,
        "--audit"@,
        "--trace"@,
        "--png"@,
        "--help"@,
    ]
}

fn flags() -> (r: [&'static str; 21])
    ensures
        text::texts(r@) == flag_names(),
{
    let r = [
        "--backend",
        "--tier",
        "--frames",
        "--warmup",
        "--width",
        "--height",
        "--resolution",
        "--repeat",
        "--shadows",
        "--threads",
        "--ram-cap",
        "--vram-cap",
        "--disk-cap",
        "--spill",
        "--spill-dir",
        "--framegen",
        "--target-ms",
        "--audit",
        "--trace",
        "--png",
        "--help",
    ];
    assert(text::texts(r@) =~= flag_names());
    r
}

/// What a command line asks for.
pub enum Request {
    /// The text that explains the options.
    Help,
    /// Nothing: this is what is wrong with it.
    Refused(String),
    Go(Options),
}

pub open spec fn is_given(args: Seq<String>, flag: Seq<char>) -> bool {
    exists|i: int| 0 <= i < args.len() && #[trigger] args[i]@ == flag
}

/// Reads a command line.
pub fn request(args: &[String]) -> (r: Request)
    ensures
        match r {
            Request::Help => is_given(args@, "--help"@) || is_given(args@, "-h"@),
            Request::Refused(e) => {
                &&& !is_given(args@, "--help"@) && !is_given(args@, "-h"@)
                &&& Some(e@) == arguments::first(
                    units::unknown_in(args@, flag_names()),
                    options::options_fault(args@),
                )
            },
            Request::Go(o) => {
                &&& !is_given(args@, "--help"@) && !is_given(args@, "-h"@)
                &&& units::unknown_in(args@, flag_names()) is None
                &&& options::options_fault(args@) is None
                &&& options::is_asked_for(o, args@)
            },
        },
{
    if units::has_flag(args, "--help") || units::has_flag(args, "-h") {
        return Request::Help;
    }
    let known = flags();
    match units::reject_unknown(args, &known) {
        Ok(_) => {},
        Err(e) => {
            return Request::Refused(e);
        },
    }
    match options::options_from(args) {
        Ok(o) => Request::Go(o),
        Err(e) => Request::Refused(e),
    }
}

/// The library that a run is driven through.
pub struct Version {
    pub major: u32,
    pub minor: u32,
    pub patch: u32,
    pub abi: u32,
}

pub open spec fn version_text(v: Version) -> Seq<char> {
    "reconl-bench — ReconL "@ + text::dec(v.major as nat) + "."@ + text::dec(v.minor as nat)
        + "."@ + text::dec(v.patch as nat) + " (ABI "@ + text::dec(v.abi as nat) + ")\n\n"@
}

pub fn version_line(v: &Version) -> (r: String)
    ensures
        r@ == version_text(*v),
{
    let mut out = String::from_str("reconl-bench — ReconL ");
    text::push_dec(&mut out, v.major as u128);
    out.append(".");
    text::push_dec(&mut out, v.minor as u128);
    out.append(".");
    text::push_dec(&mut out, v.patch as u128);
    out.append(" (ABI ");
    text::push_dec(&mut out, v.abi as u128);
    out.append(")\n\n");
    out
}

/// A hint as a run was given it: `auto` where the library is to choose.
pub open spec fn hint_text(is_auto: bool, name: Seq<char>) -> Seq<char> {
    if is_auto {
        "auto"@
    } else {
        name
    }
}

pub open spec fn requested_text(o: Options, backend: Seq<char>, tier: Seq<char>) -> Seq<char> {
    "fingerprint (resolved before the first frame)\n  requested       backend "@ + hint_text(
        o.config.backend == abi::BACKEND_NONE,
        backend,
    ) + ", tier "@ + hint_text(o.config.tier == 0, tier) + "\n"@
}

fn requested(o: &Options, backend: &str, tier: &str) -> (r: String)
    ensures
        r@ == requested_text(*o, backend@, tier@),
{
    let mut out = String::from_str(
        "fingerprint (resolved before the first frame)\n  requested       backend ",
    );
    if o.config.backend == abi::BACKEND_NONE {
        out.append("auto");
    } else {
        out.append(backend);
    }
    out.append(", tier ");
    if o.config.tier == 0 {
        out.append("auto");
    } else {
        out.append(tier);
    }
    out.append("\n");
    out
}

pub open spec fn scene_text(o: Options, s: Scene) -> Seq<char> {
    "  scene           reference: "@ + text::dec(s.chunks@.len()) + " chunks, "@ + text::dec(
        ((scene::index_total(s.chunks@) / 3) % 0x1_0000_0000) as nat,
    ) + " triangles, repeat "@ + text::dec(o.repeat as nat) + "\n  frame           "@ + text::dec(
        o.width as nat,
    ) + " x "@ + text::dec(o.height as nat) + "\n  shadows         "@ + o.shadows.spelling()
        + " — "@ + text::dec(s.shadows.cascade_count as nat) + " cascades requested, "@
        + units::bytes_text(s.shadows.texel_budget_bytes as nat) + " texel budget, filter "@
        + names::filter_name(s.shadows.filter) + "\n"@
}

fn scene_lines(o: &Options, s: &Scene) -> (r: String)
    requires
        scene::index_total(s.chunks@) <= usize::MAX,
    ensures
        r@ == scene_text(*o, *s),
{
    let mut out = String::from_str("  scene           reference: ");
    assert(s.chunks.len() == s.chunks@.len());
    text::push_dec(&mut out, s.chunks.len() as u128);
    out.append(" chunks, ");
    text::push_dec(&mut out, s.triangle_count() as u128);
    out.append(" triangles, repeat ");
    text::push_dec(&mut out, o.repeat as u128);
    out.append("\n  frame           ");
    text::push_dec(&mut out, o.width as u128);
    out.append(" x ");
    text::push_dec(&mut out, o.height as u128);
    out.append("\n  shadows         ");
    out.append(o.shadows.name());
    out.append(" — ");
    text::push_dec(&mut out, s.shadows.cascade_count as u128);
    out.append(" cascades requested, ");
    out.append(units::bytes(s.shadows.texel_budget_bytes).as_str());
    out.append(" texel budget, filter ");
    out.append(names::filter(s.shadows.filter));
    out.append("\n");
    out
}

pub open spec fn threads_text(threads: u32) -> Seq<char> {
    if threads == 0 {
        "0 (backend chooses)"@
    } else {
        text::dec(threads as nat)
    }
}

pub open spec fn budget_text(o: Options) -> Seq<char> {
    "  threads         "@ + threads_text(o.config.threads) + "\n  budgets         ram "@
        + report::cap_text(o.config.ram_cap as nat) + ", vram "@ + report::cap_text(
        o.config.vram_cap as nat,
    ) + ", disk "@ + report::cap_text(o.config.disk_cap as nat) + ", spill "@ + if o.config.allow_disk_spill {
        "on"@
    } else {
        "off"@
    } + "\n"@
}

fn budgets(o: &Options) -> (r: String)
    ensures
        r@ == budget_text(*o),
{
    let mut out = String::from_str("  threads         ");
    let mut threads = String::new();
    if o.config.threads == 0 {
        threads.append("0 (backend chooses)");
        assert(threads@ =~= threads_text(o.config.threads));
    } else {
        text::push_dec(&mut threads, o.config.threads as u128);
        assert(threads@ =~= threads_text(o.config.threads));
    }
    out.append(threads.as_str());
    out.append("\n  budgets         ram ");
    out.append(report::cap(o.config.ram_cap).as_str());
    out.append(", vram ");
    out.append(report::cap(o.config.vram_cap).as_str());
    out.append(", disk ");
    out.append(report::cap(o.config.disk_cap).as_str());
    out.append(", spill ");
    if o.config.allow_disk_spill {
        out.append("on");
    } else {
        out.append("off");
    }
    out.append("\n");
    out
}

pub open spec fn spill_dir_text(o: Options) -> Seq<char> {
    match o.config.spill_dir {
        Some(dir) => "  spill dir       "@ + dir@ + "\n"@,
        None => ""@,
    }
}

pub open spec fn audit_text(o: Options) -> Seq<char> {
    match o.audit_every {
        Some(n) => "  audit           every "@ + text::dec(n as nat)
            + " frames (expensive, diagnostics only)\n"@,
        None => ""@,
    }
}

pub open spec fn window_text(o: Options) -> Seq<char> {
    spill_dir_text(o) + "  warmup/measured "@ + text::dec(o.warmup as nat) + " + "@ + text::dec(
        o.frames as nat,
    ) + " frames\n"@ + audit_text(o)
}

fn window(o: &Options) -> (r: String)
    ensures
        r@ == window_text(*o),
{
    let mut out = String::from_str("");
    match &o.config.spill_dir {
        Some(dir) => {
            out = String::from_str("  spill dir       ");
            out.append(dir.as_str());
            out.append("\n");
        },
        None => {},
    }
    out.append("  warmup/measured ");
    text::push_dec(&mut out, o.warmup as u128);
    out.append(" + ");
    text::push_dec(&mut out, o.frames as u128);
    out.append(" frames\n");
    let mut audit = String::from_str("");
    match o.audit_every {
        Some(n) => {
            audit = String::from_str("  audit           every ");
            text::push_dec(&mut audit, n as u128);
            audit.append(" frames (expensive, diagnostics only)\n");
        },
        None => {},
    }
    out.append(audit.as_str());
    out
}

/// What a run was asked for, before a device exists.
pub open spec fn fingerprint_text(
    o: Options,
    s: Scene,
    backend: Seq<char>,
    tier: Seq<char>,
) -> Seq<char> {
    requested_text(o, backend, tier) + scene_text(o, s) + budget_text(o) + window_text(o)
}

/// The fingerprint is printed from the options, before a device exists, and
/// completed from the device once it does (see [`resolved`]). A number that cannot
/// be traced to one of these lines is not a result. The names are the library's
/// own for the backend and the tier that were asked for.
pub fn fingerprint(o: &Options, s: &Scene, backend: &str, tier: &str) -> (r: String)
    requires
        scene::index_total(s.chunks@) <= usize::MAX,
    ensures
        r@ == fingerprint_text(*o, *s, backend@, tier@),
{
    let mut out = requested(o, backend, tier);
    out.append(scene_lines(o, s).as_str());
    out.append(budgets(o).as_str());
    out.append(window(o).as_str());
    out
}

pub open spec fn line_if_any(label: Seq<char>, value: Seq<char>) -> Seq<char> {
    if value.len() == 0 {
        ""@
    } else {
        label + value + "\n"@
    }
}

fn some_line(label: &str, value: &str) -> (r: String)
    ensures
        r@ == line_if_any(label@, value@),
{
    let n = text::chars_of(value).len();
    if n == 0 {
        String::from_str("")
    } else {
        let mut out = String::from_str(label);
        out.append(value);
        out.append("\n");
        out
    }
}

/// What the device turned out to be.
pub open spec fn resolved_text(
    backend: Seq<char>,
    tier: Seq<char>,
    name: Seq<char>,
    driver: Seq<char>,
    caps: u32,
) -> Seq<char> {
    "  resolved        backend "@ + backend + ", tier "@ + tier + "\n"@ + line_if_any(
        "  device          "@,
        name,
    ) + line_if_any("  driver          "@, driver) + "  caps            "@ + names::caps_text(caps)
        + "\n"@
}

pub fn resolved(backend: &str, tier: &str, name: &str, driver: &str, caps: u32) -> (r: String)
    ensures
        r@ == resolved_text(backend@, tier@, name@, driver@, caps),
{
    let mut out = String::from_str("  resolved        backend ");
    out.append(backend);
    out.append(", tier ");
    out.append(tier);
    out.append("\n");
    out.append(some_line("  device          ", name).as_str());
    out.append(some_line("  driver          ", driver).as_str());
    out.append("  caps            ");
    out.append(names::caps(caps).as_str());
    out.append("\n");
    out
}

/// A frame that fails is reported with the device's own last error, which is
/// where the backend's real cause lives.
pub fn frame_error(e: &str, detail: Option<&str>) -> (r: String)
    ensures
        r@ == match detail {
            Some(d) => e@ + " — device reported: "@ + d@,
            None => e@,
        },
{
    let mut out = String::from_str(e);
    match detail {
        Some(d) => {
            out.append(" — device reported: ");
            out.append(d);
        },
        None => {},
    }
    out
}

/// A fingerprint names the backend and the tier that were asked for.
pub proof fn law_a_fingerprint_names_what_was_asked_for(
    o: Options,
    backend: Seq<char>,
    tier: Seq<char>,
)
    ensures
        ({
            let t = requested_text(o, backend, tier);
            &&& says(t, "fingerprint (resolved before the first frame)\n  requested       backend "@, hint_text( o.config.backend == abi::BACKEND_NONE, backend, ))
            &&& says(t, ", tier "@, hint_text(o.config.tier == 0, tier))
        }),
{
    let parts = seq![
        ("fingerprint (resolved before the first frame)\n  requested       backend "@, hint_text( o.config.backend == abi::BACKEND_NONE, backend, )),
        (", tier "@, hint_text(o.config.tier == 0, tier)),
    ];
    reveal_with_fuel(line, 3);
    assert(seq![] + "fingerprint (resolved before the first frame)\n  requested       backend "@ =~= "fingerprint (resolved before the first frame)\n  requested       backend "@);
    let t = requested_text(o, backend, tier);
    assert(t == line(parts, 2) + "\n"@);
    lemma_line(parts, "\n"@, 0);
    lemma_line(parts, "\n"@, 1);
}

/// A fingerprint has each figure of the scene, the frame and the shadows behind its
/// own name.
pub proof fn law_a_fingerprint_names_its_scene(o: Options, s: Scene)
    ensures
        ({
            let t = scene_text(o, s);
            &&& says(t, "  scene           reference: "@, text::dec(s.chunks@.len()))
            &&& says(t, " chunks, "@, text::dec( ((scene::index_total(s.chunks@) / 3) % 0x1_0000_0000) as nat, ))
            &&& says(t, " triangles, repeat "@, text::dec(o.repeat as nat))
            &&& says(t, "\n  frame           "@, text::dec( o.width as nat, ))
            &&& says(t, " x "@, text::dec(o.height as nat))
            &&& says(t, "\n  shadows         "@, o.shadows.spelling())
            &&& says(t, " — "@, text::dec(s.shadows.cascade_count as nat))
            &&& says(t, " cascades requested, "@, units::bytes_text(s.shadows.texel_budget_bytes as nat))
            &&& says(t, " texel budget, filter "@, names::filter_name(s.shadows.filter))
        }),
{
    let parts = seq![
        ("  scene           reference: "@, text::dec(s.chunks@.len())),
        (" chunks, "@, text::dec( ((scene::index_total(s.chunks@) / 3) % 0x1_0000_0000) as nat, )),
        (" triangles, repeat "@, text::dec(o.repeat as nat)),
        ("\n  frame           "@, text::dec( o.width as nat, )),
        (" x "@, text::dec(o.height as nat)),
        ("\n  shadows         "@, o.shadows.spelling()),
        (" — "@, text::dec(s.shadows.cascade_count as nat)),
        (" cascades requested, "@, units::bytes_text(s.shadows.texel_budget_bytes as nat)),
        (" texel budget, filter "@, names::filter_name(s.shadows.filter)),
    ];
    reveal_with_fuel(line, 10);
    assert(seq![] + "  scene           reference: "@ =~= "  scene           reference: "@);
    let t = scene_text(o, s);
    assert(t == line(parts, 9) + "\n"@);
    lemma_line(parts, "\n"@, 0);
    lemma_line(parts, "\n"@, 1);
    lemma_line(parts, "\n"@, 2);
    lemma_line(parts, "\n"@, 3);
    lemma_line(parts, "\n"@, 4);
    lemma_line(parts, "\n"@, 5);
    lemma_line(parts, "\n"@, 6);
    lemma_line(parts, "\n"@, 7);
    lemma_line(parts, "\n"@, 8);
}

/// A fingerprint has the threads and each budget behind its own name.
pub proof fn law_a_fingerprint_names_its_budgets(o: Options)
    ensures
        ({
            let t = budget_text(o);
            &&& says(t, "  threads         "@, threads_text(o.config.threads))
            &&& says(t, "\n  budgets         ram "@, report::cap_text(o.config.ram_cap as nat))
            &&& says(t, ", vram "@, report::cap_text( o.config.vram_cap as nat, ))
            &&& says(t, ", disk "@, report::cap_text(o.config.disk_cap as nat))
            &&& says(t, ", spill "@, if o.config.allow_disk_spill { "on"@ } else { "off"@ })
        }),
{
    let parts = seq![
        ("  threads         "@, threads_text(o.config.threads)),
        ("\n  budgets         ram "@, report::cap_text(o.config.ram_cap as nat)),
        (", vram "@, report::cap_text( o.config.vram_cap as nat, )),
        (", disk "@, report::cap_text(o.config.disk_cap as nat)),
        (", spill "@, if o.config.allow_disk_spill { "on"@ } else { "off"@ }),
    ];
    reveal_with_fuel(line, 6);
    assert(seq![] + "  threads         "@ =~= "  threads         "@);
    let t = budget_text(o);
    assert(t == line(parts, 5) + "\n"@);
    lemma_line(parts, "\n"@, 0);
    lemma_line(parts, "\n"@, 1);
    lemma_line(parts, "\n"@, 2);
    lemma_line(parts, "\n"@, 3);
    lemma_line(parts, "\n"@, 4);
}

/// A fingerprint has the frames of the warmup in front of those that are measured.
pub proof fn law_a_fingerprint_names_its_window(o: Options)
    ensures
        ({
            let t = window_text(o);
            &&& says(t, "  warmup/measured "@, text::dec(o.warmup as nat))
            &&& says(t, " + "@, text::dec(o.frames as nat))
        }),
{
    let (front, back) = (spill_dir_text(o), audit_text(o));
    let parts = seq![
        ("  warmup/measured "@, text::dec(o.warmup as nat)),
        (" + "@, text::dec(o.frames as nat)),
    ];
    reveal_with_fuel(line, 3);
    assert(seq![] + "  warmup/measured "@ =~= "  warmup/measured "@);
    let own = line(parts, 2) + " frames\n"@;
    lemma_line(parts, " frames\n"@, 0);
    lemma_line(parts, " frames\n"@, 1);
    assert(window_text(o) =~= front + own + back);
    lemma_part_says(front, own, back, "  warmup/measured "@, text::dec(o.warmup as nat));
    lemma_part_says(front, own, back, " + "@, text::dec(o.frames as nat));
}

} // verus!
