//! What to ask for when creating a device, and how to read what it answers.
use crate::host::abi;
use crate::text;
use vstd::prelude::*;
use vstd::string::{StrSliceExecFns, StringExecFns};

verus! {

/// What to ask for when creating a device.
///
/// The defaults are a host's defaults, not a test's: no backend or tier hint
/// (the library picks), every downgrade allowed, no frame-time ladder (`0`
/// disables it, so nothing steps down behind the tool's back), and no memory
/// caps, which leaves the device bounded only by the library's own per allocation
/// ceiling.
#[derive(Clone, Debug)]
pub struct Config {
    pub backend: u32,
    pub tier: u32,
    pub allow_downgrade: u32,
    pub threads: u32,
    pub target_frame_ms: u32,
    pub downgrade_after_frames: u32,
    pub seed: u32,
    pub ram_cap: u64,
    pub vram_cap: u64,
    pub disk_cap: u64,
    pub allow_disk_spill: bool,
    pub spill_dir: Option<String>,
}

/// The numbers of a configuration that names nothing.
pub open spec fn is_default(c: Config) -> bool {
    &&& c.backend == abi::BACKEND_NONE
    &&& c.tier == 0
    &&& c.allow_downgrade == abi::ALLOW_DOWNGRADE_ALL
    &&& c.threads == 0
    &&& c.target_frame_ms == 0
    &&& c.downgrade_after_frames == 16
    &&& c.seed == 7
    &&& c.ram_cap == 0
    &&& c.vram_cap == 0
    &&& c.disk_cap == 0
    &&& !c.allow_disk_spill
    &&& c.spill_dir is None
}

impl Default for Config {
    fn default() -> (r: Self)
        ensures
            is_default(r),
    {
        Config {
            backend: abi::BACKEND_NONE,
            tier: 0,
            allow_downgrade: abi::ALLOW_DOWNGRADE_ALL,
            threads: 0,
            target_frame_ms: 0,
            downgrade_after_frames: 16,
            seed: 7,
            ram_cap: 0,
            vram_cap: 0,
            disk_cap: 0,
            allow_disk_spill: false,
            spill_dir: None,
        }
    }
}

/// The backend a name stands for.
pub open spec fn backend_named(name: Seq<char>) -> Option<u32> {
    if name == "auto"@ || name == "none"@ {
        Some(abi::BACKEND_NONE)
    } else if name == "soft-cpu"@ || name == "softcpu"@ || name == "cpu"@ {
        Some(abi::BACKEND_SOFT_CPU)
    } else if name == "null"@ {
        Some(abi::BACKEND_NULL)
    } else if name == "d3d11"@ {
        Some(abi::BACKEND_D3D11)
    } else if name == "d3d12"@ {
        Some(abi::BACKEND_D3D12)
    } else if name == "vulkan"@ {
        Some(abi::BACKEND_VULKAN)
    } else if name == "gl"@ {
        Some(abi::BACKEND_GL)
    } else if name == "metal"@ {
        Some(abi::BACKEND_METAL)
    } else if name == "webgpu"@ {
        Some(abi::BACKEND_WEBGPU)
    } else if name == "wasm-webgl2"@ {
        Some(abi::BACKEND_WASM_WEBGL2)
    } else {
        None
    }
}

/// The tier a name or a number stands for: a number past the ladder's end is the
/// ladder's end.
pub open spec fn tier_named(name: Seq<char>) -> Option<u32> {
    match text::unsigned(name) {
        Some(n) if n <= u32::MAX => Some(
            if n < 4 {
                n as u32
            } else {
                4
            },
        ),
        _ => if name == "auto"@ || name == "none"@ || name == "t0"@ || name == "gpu-discrete"@ {
            Some(0)
        } else if name == "t1"@ || name == "gpu-shared"@ {
            Some(1)
        } else if name == "t2"@ || name == "cpu-ram"@ {
            Some(2)
        } else if name == "t3"@ || name == "cpu-thrifty"@ {
            Some(3)
        } else if name == "t4"@ || name == "out-of-core"@ {
            Some(4)
        } else {
            None
        },
    }
}

impl Config {
    /// A backend by the interface's name; `auto` is the one that means none.
    pub fn backend_from_name(name: &str) -> (r: Option<u32>)
        ensures
            r == backend_named(name@),
    {
        if text::same(name, "auto") || text::same(name, "none") {
            Some(abi::BACKEND_NONE)
        } else if text::same(name, "soft-cpu") || text::same(name, "softcpu") || text::same(
            name,
            "cpu",
        ) {
            Some(abi::BACKEND_SOFT_CPU)
        } else if text::same(name, "null") {
            Some(abi::BACKEND_NULL)
        } else if text::same(name, "d3d11") {
            Some(abi::BACKEND_D3D11)
        } else if text::same(name, "d3d12") {
            Some(abi::BACKEND_D3D12)
        } else if text::same(name, "vulkan") {
            Some(abi::BACKEND_VULKAN)
        } else if text::same(name, "gl") {
            Some(abi::BACKEND_GL)
        } else if text::same(name, "metal") {
            Some(abi::BACKEND_METAL)
        } else if text::same(name, "webgpu") {
            Some(abi::BACKEND_WEBGPU)
        } else if text::same(name, "wasm-webgl2") {
            Some(abi::BACKEND_WASM_WEBGL2)
        } else {
            None
        }
    }

    /// A tier by number (`0`..`4`) or by the library's own name.
    pub fn tier_from_name(name: &str) -> (r: Option<u32>)
        ensures
            r == tier_named(name@),
    {
        match text::read_u32(name) {
            Some(v) => {
                return Some(
                    if v < 4 {
                        v
                    } else {
                        4
                    },
                );
            },
            None => {},
        }
        if text::same(name, "auto") || text::same(name, "none") || text::same(name, "t0")
            || text::same(name, "gpu-discrete") {
            Some(0)
        } else if text::same(name, "t1") || text::same(name, "gpu-shared") {
            Some(1)
        } else if text::same(name, "t2") || text::same(name, "cpu-ram") {
            Some(2)
        } else if text::same(name, "t3") || text::same(name, "cpu-thrifty") {
            Some(3)
        } else if text::same(name, "t4") || text::same(name, "out-of-core") {
            Some(4)
        } else {
            None
        }
    }

    /// Does the configuration ask for a memory budget at all?
    pub open spec fn wants_a_budget(&self) -> bool {
        ||| self.ram_cap != 0
        ||| self.vram_cap != 0
        ||| self.disk_cap != 0
        ||| self.allow_disk_spill
        ||| self.spill_dir is Some
    }

    /// The memory budget to create a device with: none where nothing is capped.
    pub fn budget(&self) -> (r: Option<Budget>)
        ensures
            r == if self.wants_a_budget() {
                Some(
                    Budget {
                        vram_cap_bytes: self.vram_cap,
                        ram_cap_bytes: self.ram_cap,
                        disk_cap_bytes: self.disk_cap,
                        allow_disk_spill: self.allow_disk_spill as u32,
                    },
                )
            } else {
                None
            },
    {
        if self.ram_cap != 0 || self.vram_cap != 0 || self.disk_cap != 0 || self.allow_disk_spill
            || self.spill_dir.is_some() {
            Some(
                Budget {
                    vram_cap_bytes: self.vram_cap,
                    ram_cap_bytes: self.ram_cap,
                    disk_cap_bytes: self.disk_cap,
                    allow_disk_spill: self.allow_disk_spill as u32,
                },
            )
        } else {
            None
        }
    }
}

/// The caps a device is created with; the spill directory goes beside them.
#[derive(Clone, Copy, Debug, PartialEq, Eq, Structural)]
pub struct Budget {
    pub vram_cap_bytes: u64,
    pub ram_cap_bytes: u64,
    pub disk_cap_bytes: u64,
    pub allow_disk_spill: u32,
}

/// A spill directory goes to the library as a NUL-terminated string, so it may
/// hold no NUL of its own.
pub fn check_spill_dir(dir: &str) -> (r: Result<(), String>)
    ensures
        match r {
            Ok(_) => !dir@.contains('\0'),
            Err(e) => dir@.contains('\0') && e@ == "spill dir `"@ + dir@ + "` contains a NUL"@,
        },
{
    let c = text::chars_of(dir);
    let mut i: usize = 0;
    while i < c.len()
        invariant
            i <= c@.len(),
            c@ == dir@,
            forall|k: int| 0 <= k < i ==> #[trigger] c@[k] != '\0',
        decreases c@.len() - i,
    {
        if c[i] == '\0' {
            assert(dir@[i as int] == '\0');
            let mut e = String::from_str("spill dir `");
            e.append(dir);
            e.append("` contains a NUL");
            return Err(e);
        }
        i += 1;
    }
    Ok(())
}

/// How many of a probe's entries the library filled.
pub fn probed_entries(entry_count: u32) -> (r: usize)
    ensures
        r == if entry_count < abi::MAX_BACKENDS {
            entry_count as int
        } else {
            abi::MAX_BACKENDS as int
        },
{
    if (entry_count as usize) < abi::MAX_BACKENDS {
        entry_count as usize
    } else {
        abi::MAX_BACKENDS
    }
}

/// The reason a host that saw a failure should log: the library's message and
/// the name of its code. The library reports success with a "nothing has failed"
/// message, which is not an error and must not print as one.
pub fn last_error(result: i32, message: &str, name: &str) -> (r: Option<String>)
    ensures
        match r {
            Some(e) => result != abi::RESULT_OK && message@.len() > 0 && e@ == message@ + " ("@
                + name@ + ")"@,
            None => result == abi::RESULT_OK || message@.len() == 0,
        },
{
    if result == abi::RESULT_OK || message.unicode_len() == 0 {
        return None;
    }
    let mut e = String::from_str(message);
    e.append(" (");
    e.append(name);
    e.append(")");
    Some(e)
}

/// What a host prints of a call that failed: the call, and the library's own name
/// for the result.
pub fn failed(what: &str, name: &str, r: i32) -> (e: String)
    ensures
        e@ == what@ + ": "@ + name@ + " ("@ + text::signed_dec(r as int) + ")"@,
{
    let mut e = String::from_str(what);
    e.append(": ");
    e.append(name);
    e.append(" (");
    text::push_signed(&mut e, r as i64);
    e.append(")");
    assert(e@ =~= what@ + ": "@ + name@ + " ("@ + text::signed_dec(r as int) + ")"@);
    e
}

/// A tier may be given by its number: the ladder has five rungs, and any larger number
/// is the last.
pub proof fn law_a_tier_number_is_a_rung(n: nat)
    requires
        n <= u32::MAX,
    ensures
        tier_named(text::dec(n)) == Some(
            if n < 5 {
                n as u32
            } else {
                4
            },
        ),
{
    text::law_decimal_text_reads_back(n);
}

/// A device is given a budget when anything is limited, allowed or named, and none when
/// nothing is.
pub proof fn law_a_budget_is_given_when_anything_is_limited(c: Config)
    ensures
        c.wants_a_budget() <==> !(c.ram_cap == 0 && c.vram_cap == 0 && c.disk_cap == 0
            && !c.allow_disk_spill && c.spill_dir is None),
{
}

} // verus!
