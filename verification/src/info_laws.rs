//! What the lines of a device's report say, figure by figure.
use crate::host::ledger;
use crate::host::ledger::Counters;
use crate::host::names;
use crate::host::units;
use crate::info;
use crate::info::{
    activity_line_text, device_ledger_text, device_title_text, downgrade_line_text,
    memory_limits_text, memory_line_text, name_line_text, probe_ledger_text,
    recommendation_text, refused_device_text, release_ledger_text, tier_line_text,
    work_limits_text, Limits, Memory, Activity, Downgrade,
};
use crate::labels::{lemma_line, line, says};
use crate::text;
use vstd::prelude::*;

verus! {

/// A device is titled by the backend it is on and the one that was asked for.
pub proof fn law_a_device_is_titled_by_its_backend(backend: Seq<char>, requested: Seq<char>)
    ensures
        ({
            let t = device_title_text(backend, requested);
            &&& says(t, "\ndevice: "@, backend)
            &&& says(t, " (requested "@, requested)
        }),
{
    let parts = seq![
        ("\ndevice: "@, backend),
        (" (requested "@, requested),
    ];
    reveal_with_fuel(line, 3);
    assert(seq![] + "\ndevice: "@ =~= "\ndevice: "@);
    let t = device_title_text(backend, requested);
    assert(t == line(parts, 2) + ")\n"@);
    lemma_line(parts, ")\n"@, 0);
    lemma_line(parts, ")\n"@, 1);
}

/// A tier stands in front of the reason for it.
pub proof fn law_a_tier_stands_with_its_reason(tier: Seq<char>, reason: Seq<char>)
    ensures
        ({
            let t = tier_line_text(tier, reason);
            &&& says(t, "  resolved tier: "@, tier)
            &&& says(t, " — "@, reason)
        }),
{
    let parts = seq![
        ("  resolved tier: "@, tier),
        (" — "@, reason),
    ];
    reveal_with_fuel(line, 3);
    assert(seq![] + "  resolved tier: "@ =~= "  resolved tier: "@);
    let t = tier_line_text(tier, reason);
    assert(t == line(parts, 2) + "\n"@);
    lemma_line(parts, "\n"@, 0);
    lemma_line(parts, "\n"@, 1);
}

/// A device stands in front of its driver.
pub proof fn law_a_device_stands_with_its_driver(name: Seq<char>, driver: Seq<char>)
    ensures
        ({
            let t = name_line_text(name, driver);
            &&& says(t, "  device: "@, name)
            &&& says(t, "  driver: "@, driver)
        }),
{
    let parts = seq![
        ("  device: "@, name),
        ("  driver: "@, driver),
    ];
    reveal_with_fuel(line, 3);
    assert(seq![] + "  device: "@ =~= "  device: "@);
    let t = name_line_text(name, driver);
    assert(t == line(parts, 2) + "\n"@);
    lemma_line(parts, "\n"@, 0);
    lemma_line(parts, "\n"@, 1);
}

/// Each limit on memory stands behind its own name.
pub proof fn law_each_memory_limit_stands_behind_its_name(l: Limits)
    ensures
        ({
            let t = memory_limits_text(l);
            &&& says(t, "  limits: vram "@, units::bytes_text(l.vram_bytes as nat))
            &&& says(t, "  ram "@, units::bytes_text(l.ram_bytes as nat))
            &&& says(t, "  disk "@, units::bytes_text(l.disk_bytes as nat))
            &&& says(t, "  max allocation "@, units::bytes_text(l.max_allocation_bytes as nat))
        }),
{
    let parts = seq![
        ("  limits: vram "@, units::bytes_text(l.vram_bytes as nat)),
        ("  ram "@, units::bytes_text(l.ram_bytes as nat)),
        ("  disk "@, units::bytes_text(l.disk_bytes as nat)),
        ("  max allocation "@, units::bytes_text(l.max_allocation_bytes as nat)),
    ];
    reveal_with_fuel(line, 5);
    assert(seq![] + "  limits: vram "@ =~= "  limits: vram "@);
    let t = memory_limits_text(l);
    assert(t == line(parts, 4) + "\n"@);
    lemma_line(parts, "\n"@, 0);
    lemma_line(parts, "\n"@, 1);
    lemma_line(parts, "\n"@, 2);
    lemma_line(parts, "\n"@, 3);
}

/// Each limit on work stands behind its own name.
pub proof fn law_each_work_limit_stands_behind_its_name(l: Limits)
    ensures
        ({
            let t = work_limits_text(l);
            &&& says(t, "  limits: worker threads "@, text::dec(l.worker_threads_max as nat))
            &&& says(t, "  tile size "@, text::dec(l.tile_size_min as nat))
            &&& says(t, "  cascades "@, text::dec(l.max_cascades as nat))
            &&& says(t, "  lights "@, text::dec(l.max_lights as nat))
            &&& says(t, "  shadow budget "@, units::bytes_text(l.shadow_texel_budget_bytes as nat))
        }),
{
    let parts = seq![
        ("  limits: worker threads "@, text::dec(l.worker_threads_max as nat)),
        ("  tile size "@, text::dec(l.tile_size_min as nat)),
        ("  cascades "@, text::dec(l.max_cascades as nat)),
        ("  lights "@, text::dec(l.max_lights as nat)),
        ("  shadow budget "@, units::bytes_text(l.shadow_texel_budget_bytes as nat)),
    ];
    reveal_with_fuel(line, 6);
    assert(seq![] + "  limits: worker threads "@ =~= "  limits: worker threads "@);
    let t = work_limits_text(l);
    assert(t == line(parts, 5) + "\n"@);
    lemma_line(parts, "\n"@, 0);
    lemma_line(parts, "\n"@, 1);
    lemma_line(parts, "\n"@, 2);
    lemma_line(parts, "\n"@, 3);
    lemma_line(parts, "\n"@, 4);
}

/// Each figure of the memory in use stands behind its own name.
pub proof fn law_each_memory_figure_stands_behind_its_name(m: Memory)
    ensures
        ({
            let t = memory_line_text(m);
            &&& says(t, "  memory: resident "@, units::bytes_text(m.ram_resident_bytes as nat))
            &&& says(t, " of "@, units::bytes_text(m.ram_budget_bytes as nat))
            &&& says(t, " (peak "@, units::bytes_text(m.ram_peak_bytes as nat))
            &&& says(t, ")  spill "@, units::bytes_text(m.spill_disk_bytes as nat))
            &&& says(t, " on disk of "@, units::bytes_text(m.spill_disk_cap_bytes as nat))
            &&& says(t, " ("@, text::dec(m.spill_entries as nat))
            &&& says(t, " entries, "@, text::dec(m.spill_evictions as nat))
            &&& says(t, " evictions, "@, text::dec(m.spill_errors as nat))
        }),
{
    let parts = seq![
        ("  memory: resident "@, units::bytes_text(m.ram_resident_bytes as nat)),
        (" of "@, units::bytes_text(m.ram_budget_bytes as nat)),
        (" (peak "@, units::bytes_text(m.ram_peak_bytes as nat)),
        (")  spill "@, units::bytes_text(m.spill_disk_bytes as nat)),
        (" on disk of "@, units::bytes_text(m.spill_disk_cap_bytes as nat)),
        (" ("@, text::dec(m.spill_entries as nat)),
        (" entries, "@, text::dec(m.spill_evictions as nat)),
        (" evictions, "@, text::dec(m.spill_errors as nat)),
    ];
    reveal_with_fuel(line, 9);
    assert(seq![] + "  memory: resident "@ =~= "  memory: resident "@);
    let t = memory_line_text(m);
    assert(t == line(parts, 8) + " errors)\n"@);
    lemma_line(parts, " errors)\n"@, 0);
    lemma_line(parts, " errors)\n"@, 1);
    lemma_line(parts, " errors)\n"@, 2);
    lemma_line(parts, " errors)\n"@, 3);
    lemma_line(parts, " errors)\n"@, 4);
    lemma_line(parts, " errors)\n"@, 5);
    lemma_line(parts, " errors)\n"@, 6);
    lemma_line(parts, " errors)\n"@, 7);
}

/// Each figure of the device's own ledger stands in its place.
pub proof fn law_the_devices_ledger_names_its_figures(m: Memory)
    ensures
        ({
            let t = device_ledger_text(m);
            &&& says(t, "  device ledger for the host allocator: "@, text::dec(m.host_alloc_calls as nat))
            &&& says(t, " allocations, "@, text::dec(m.host_alloc_bytes as nat))
            &&& says(t, " bytes, "@, text::dec(m.host_free_calls as nat))
        }),
{
    let parts = seq![
        ("  device ledger for the host allocator: "@, text::dec(m.host_alloc_calls as nat)),
        (" allocations, "@, text::dec(m.host_alloc_bytes as nat)),
        (" bytes, "@, text::dec(m.host_free_calls as nat)),
    ];
    reveal_with_fuel(line, 4);
    assert(seq![] + "  device ledger for the host allocator: "@ =~= "  device ledger for the host allocator: "@);
    let t = device_ledger_text(m);
    assert(t == line(parts, 3) + " frees\n"@);
    lemma_line(parts, " frees\n"@, 0);
    lemma_line(parts, " frees\n"@, 1);
    lemma_line(parts, " frees\n"@, 2);
}

/// Each counter of what the device did stands behind its own name.
pub proof fn law_each_counter_stands_behind_its_name(c: Activity)
    ensures
        ({
            let t = activity_line_text(c);
            &&& says(t, "  counters: frames presented "@, text::dec(c.frames_presented as nat))
            &&& says(t, "  dropped "@, text::dec(c.frames_dropped as nat))
            &&& says(t, "  failures "@, text::dec(c.failures as nat))
            &&& says(t, "  safe-path events "@, text::dec(c.safe_path_events as nat))
            &&& says(t, "  downgrades "@, text::dec(c.downgrade_count as nat))
        }),
{
    let parts = seq![
        ("  counters: frames presented "@, text::dec(c.frames_presented as nat)),
        ("  dropped "@, text::dec(c.frames_dropped as nat)),
        ("  failures "@, text::dec(c.failures as nat)),
        ("  safe-path events "@, text::dec(c.safe_path_events as nat)),
        ("  downgrades "@, text::dec(c.downgrade_count as nat)),
    ];
    reveal_with_fuel(line, 6);
    assert(seq![] + "  counters: frames presented "@ =~= "  counters: frames presented "@);
    let t = activity_line_text(c);
    assert(t == line(parts, 5) + "\n"@);
    lemma_line(parts, "\n"@, 0);
    lemma_line(parts, "\n"@, 1);
    lemma_line(parts, "\n"@, 2);
    lemma_line(parts, "\n"@, 3);
    lemma_line(parts, "\n"@, 4);
}

/// A step down the ladder names where it came from, where it went, when and why.
pub proof fn law_a_downgrade_goes_from_one_tier_to_another(d: Downgrade)
    ensures
        ({
            let t = downgrade_line_text(d);
            &&& says(t, "    downgrade "@, d.from@)
            &&& says(t, " -> "@, d.to@)
            &&& says(t, " at frame "@, text::dec(d.frame_index as nat))
            &&& says(t, ": "@, d.detail@)
            &&& says(t, " ("@, text::dec(d.reason as nat))
        }),
{
    let parts = seq![
        ("    downgrade "@, d.from@),
        (" -> "@, d.to@),
        (" at frame "@, text::dec(d.frame_index as nat)),
        (": "@, d.detail@),
        (" ("@, text::dec(d.reason as nat)),
    ];
    reveal_with_fuel(line, 6);
    assert(seq![] + "    downgrade "@ =~= "    downgrade "@);
    let t = downgrade_line_text(d);
    assert(t == line(parts, 5) + ")\n"@);
    lemma_line(parts, ")\n"@, 0);
    lemma_line(parts, ")\n"@, 1);
    lemma_line(parts, ")\n"@, 2);
    lemma_line(parts, ")\n"@, 3);
    lemma_line(parts, ")\n"@, 4);
}

/// A refusal stands behind the backend that was asked for.
pub proof fn law_a_refusal_stands_with_what_was_asked_for(requested: Seq<char>, e: Seq<char>)
    ensures
        ({
            let t = refused_device_text(requested, e);
            &&& says(t, "\ndevice: "@, requested)
            &&& says(t, "\n  refused: "@, e)
        }),
{
    let parts = seq![
        ("\ndevice: "@, requested),
        ("\n  refused: "@, e),
    ];
    reveal_with_fuel(line, 3);
    assert(seq![] + "\ndevice: "@ =~= "\ndevice: "@);
    let t = refused_device_text(requested, e);
    assert(t == line(parts, 2) + "\n"@);
    lemma_line(parts, "\n"@, 0);
    lemma_line(parts, "\n"@, 1);
}

/// Each figure of the probe's ledger stands in its place.
pub proof fn law_the_probes_ledger_names_its_figures(l: Counters)
    ensures
        ({
            let t = probe_ledger_text(l);
            &&& says(t, "  host allocations during the probe: "@, text::dec(l.alloc_calls as nat))
            &&& says(t, " ("@, text::dec(l.alloc_bytes as nat))
            &&& says(t, " bytes requested, "@, text::signed_dec(ledger::signed(l.alloc_calls) - ledger::signed(l.free_calls)))
        }),
{
    let parts = seq![
        ("  host allocations during the probe: "@, text::dec(l.alloc_calls as nat)),
        (" ("@, text::dec(l.alloc_bytes as nat)),
        (" bytes requested, "@, text::signed_dec(ledger::signed(l.alloc_calls) - ledger::signed(l.free_calls))),
    ];
    reveal_with_fuel(line, 4);
    assert(seq![] + "  host allocations during the probe: "@ =~= "  host allocations during the probe: "@);
    let t = probe_ledger_text(l);
    assert(t == line(parts, 3) + " outstanding)\n"@);
    lemma_line(parts, " outstanding)\n"@, 0);
    lemma_line(parts, " outstanding)\n"@, 1);
    lemma_line(parts, " outstanding)\n"@, 2);
}

/// Each figure of the ledger after a release stands in its place.
pub proof fn law_the_released_ledger_names_its_figures(l: Counters)
    ensures
        ({
            let t = release_ledger_text(l);
            &&& says(t, "  host ledger after release: "@, text::dec(l.alloc_calls as nat))
            &&& says(t, " allocations, "@, units::bytes_text(l.peak_bytes as nat))
            &&& says(t, " peak, "@, text::signed_dec(ledger::signed(l.alloc_calls) - ledger::signed(l.free_calls)))
        }),
{
    let parts = seq![
        ("  host ledger after release: "@, text::dec(l.alloc_calls as nat)),
        (" allocations, "@, units::bytes_text(l.peak_bytes as nat)),
        (" peak, "@, text::signed_dec(ledger::signed(l.alloc_calls) - ledger::signed(l.free_calls))),
    ];
    reveal_with_fuel(line, 4);
    assert(seq![] + "  host ledger after release: "@ =~= "  host ledger after release: "@);
    let t = release_ledger_text(l);
    assert(t == line(parts, 3) + " outstanding\n"@);
    lemma_line(parts, " outstanding\n"@, 0);
    lemma_line(parts, " outstanding\n"@, 1);
    lemma_line(parts, " outstanding\n"@, 2);
}

/// A recommendation names what is recommended.
pub proof fn law_a_recommendation_names_backend_and_tier(backend: Seq<char>, tier: Seq<char>)
    ensures
        ({
            let t = recommendation_text(backend, tier);
            &&& says(t, "\n  recommended: "@, backend)
            &&& says(t, " on "@, tier)
        }),
{
    let parts = seq![
        ("\n  recommended: "@, backend),
        (" on "@, tier),
    ];
    reveal_with_fuel(line, 3);
    assert(seq![] + "\n  recommended: "@ =~= "\n  recommended: "@);
    let t = recommendation_text(backend, tier);
    assert(t == line(parts, 2) + "\n"@);
    lemma_line(parts, "\n"@, 0);
    lemma_line(parts, "\n"@, 1);
}

/// A row of the probe has its columns where the head of the table has them, each padded
/// to its width: the name, whether the backend can be used, its best tier, its memories,
/// its cascades and its shadow budget.
pub proof fn law_a_probes_row_stands_in_its_columns(e: info::Probed, tier: Seq<char>)
    requires
        e.name@.len() <= 11,
        tier.len() <= 16,
        info::vram_text(e.vram_bytes as nat).len() <= 10,
        units::bytes_text(e.ram_bytes as nat).len() <= 12,
        text::dec(e.max_cascades as nat).len() <= 8,
        units::bytes_text(e.shadow_texel_budget as nat).len() <= 13,
    ensures
        ({
            let t = info::probe_row_text(e, tier);
            &&& t.subrange(2, 13) == text::left(e.name@, 11)
            &&& t.subrange(14, 20) == text::left(
                if e.usable {
                    "yes"@
                } else {
                    "no"@
                },
                6,
            )
            &&& t.subrange(21, 37) == text::left(tier, 16)
            &&& t.subrange(38, 48) == text::right(info::vram_text(e.vram_bytes as nat), 10)
            &&& t.subrange(49, 61) == text::right(units::bytes_text(e.ram_bytes as nat), 12)
            &&& t.subrange(62, 70) == text::right(text::dec(e.max_cascades as nat), 8)
            &&& t.subrange(71, 84) == text::right(
                units::bytes_text(e.shadow_texel_budget as nat),
                13,
            )
        }),
{
    let t = info::probe_row_text(e, tier);
    reveal_strlit("  ");
    reveal_strlit(" ");
    reveal_strlit("yes");
    reveal_strlit("no");
    let yes = if e.usable {
        "yes"@
    } else {
        "no"@
    };
    let (a, b, c) = (text::left(e.name@, 11), text::left(yes, 6), text::left(tier, 16));
    let d = text::right(info::vram_text(e.vram_bytes as nat), 10);
    let f = text::right(units::bytes_text(e.ram_bytes as nat), 12);
    let g = text::right(text::dec(e.max_cascades as nat), 8);
    let h = text::right(units::bytes_text(e.shadow_texel_budget as nat), 13);
    assert(a.len() == 11 && b.len() == 6 && c.len() == 16 && d.len() == 10 && f.len() == 12
        && g.len() == 8 && h.len() == 13);
    let back = "  "@ + e.device_name@ + "\n              caps: "@ + names::caps_text(e.caps) + "\n"@
        + info::note_text(e.note@);
    let front = "  "@ + a + " "@ + b + " "@ + c + " "@ + d + " "@ + f + " "@ + g + " "@ + h;
    assert(t =~= front + back);
    assert(front.subrange(2, 13) =~= a);
    assert(front.subrange(14, 20) =~= b);
    assert(front.subrange(21, 37) =~= c);
    assert(front.subrange(38, 48) =~= d);
    assert(front.subrange(49, 61) =~= f);
    assert(front.subrange(62, 70) =~= g);
    assert(front.subrange(71, 84) =~= h);
    assert(t.subrange(2, 13) =~= front.subrange(2, 13));
    assert(t.subrange(14, 20) =~= front.subrange(14, 20));
    assert(t.subrange(21, 37) =~= front.subrange(21, 37));
    assert(t.subrange(38, 48) =~= front.subrange(38, 48));
    assert(t.subrange(49, 61) =~= front.subrange(49, 61));
    assert(t.subrange(62, 70) =~= front.subrange(62, 70));
    assert(t.subrange(71, 84) =~= front.subrange(71, 84));
}

} // verus!
