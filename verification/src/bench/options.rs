//! What a run is asked for, before a device exists.
use crate::bench::ratio;
use crate::host::abi;
use crate::host::arguments;
use crate::host::device;
use crate::host::device::Config;
use crate::host::scene::ShadowMode;
use crate::host::units;
use crate::text;
use vstd::prelude::*;
use vstd::string::StrSliceExecFns;

verus! {

/// What the run was asked for.
pub struct Options {
    pub config: Config,
    pub frames: u32,
    pub warmup: u32,
    pub width: u32,
    pub height: u32,
    pub repeat: u32,
    pub shadows: ShadowMode,
    pub audit_every: Option<u32>,
    pub trace: Option<String>,
    pub png: Option<String>,
    /// Images per rendered frame, as a reduced fraction, or `None` when the run
    /// renders and presents one image per frame.
    pub framegen: Option<(u32, u32)>,
}

/// How much of a text comes before its first `x`, in either case.
pub open spec fn cross(v: Seq<char>) -> nat
    decreases v.len(),
{
    if v.len() == 0 || v[0] == 'x' || v[0] == 'X' {
        0
    } else {
        1 + cross(v.skip(1))
    }
}

/// A resolution: two numbers with an `x` between them.
pub open spec fn resolution(v: Seq<char>) -> Result<(u32, u32), Seq<char>> {
    let k = cross(v) as int;
    if k == v.len() {
        Err("`"@ + v + "` is not a resolution: expected WxH"@)
    } else {
        match arguments::number(v.take(k), "frame width"@, 1) {
            Err(e) => Err(e),
            Ok(w) => match arguments::number(v.skip(k + 1), "frame height"@, 1) {
                Err(e) => Err(e),
                Ok(h) => Ok((w, h)),
            },
        }
    }
}

pub open spec fn resolution_of(args: Seq<String>) -> Result<Option<(u32, u32)>, Seq<char>> {
    match arguments::value(args, "--resolution"@) {
        Some(v) => match resolution(v) {
            Ok(r) => Ok(Some(r)),
            Err(e) => Err(e),
        },
        None => Ok(None),
    }
}

pub open spec fn shadows_of(args: Seq<String>) -> Result<ShadowMode, Seq<char>> {
    match arguments::value(args, "--shadows"@) {
        Some(v) => match ShadowMode::named(v) {
            Some(m) => Ok(m),
            None => Err("`"@ + v + "` is not a shadow mode: off, on or cached"@),
        },
        None => Ok(ShadowMode::On),
    }
}

pub open spec fn framegen_fault(args: Seq<String>) -> Option<Seq<char>> {
    match arguments::value(args, "--framegen"@) {
        Some(v) => match ratio::ratio_in(v) {
            Ok(_) => None,
            Err(e) => Some(e),
        },
        None => None,
    }
}

/// The first thing that is wrong with the options of the frame: the order in
/// which they are looked at.
pub open spec fn frame_fault(args: Seq<String>) -> Option<Seq<char>> {
    arguments::first(
        arguments::fault(arguments::backend_of(args)),
        arguments::first(
            arguments::fault(arguments::tier_of(args)),
            arguments::first(
                arguments::fault(arguments::number_of(args, "--frames"@, "frame count"@, 60, 1)),
                arguments::first(
                    arguments::fault(arguments::number_of(args, "--warmup"@, "warmup count"@, 5, 0)),
                    arguments::first(
                        arguments::fault(arguments::number_of(args, "--width"@, "frame width"@, 64, 1)),
                        arguments::first(
                            arguments::fault(arguments::number_of(args, "--height"@, "frame height"@, 64, 1)),
                            arguments::first(
                                arguments::fault(resolution_of(args)),
                                arguments::first(
                                    arguments::fault(arguments::number_of(args, "--repeat"@, "repeat count"@, 1, 1)),
                                    arguments::fault(shadows_of(args)),
                                ),
                            ),
                        ),
                    ),
                ),
            ),
        ),
    )
}

/// The first thing that is wrong with the options of the device.
pub open spec fn device_fault(args: Seq<String>) -> Option<Seq<char>> {
    arguments::first(
        arguments::fault(arguments::number_of(args, "--threads"@, "thread count"@, 0, 0)),
        arguments::first(
            arguments::fault(arguments::size_of(args, "--ram-cap"@)),
            arguments::first(
                arguments::fault(arguments::size_of(args, "--vram-cap"@)),
                arguments::first(
                    arguments::fault(arguments::size_of(args, "--disk-cap"@)),
                    arguments::first(
                        arguments::fault(arguments::number_of(args, "--target-ms"@, "target frame time"@, 0, 0)),
                        arguments::fault(arguments::number_of(args, "--audit"@, "audit interval"@, 0, 1)),
                    ),
                ),
            ),
        ),
    )
}

/// The first thing that is wrong with a run's options.
pub open spec fn options_fault(args: Seq<String>) -> Option<Seq<char>> {
    arguments::first(frame_fault(args), arguments::first(device_fault(args), framegen_fault(args)))
}

/// The frame that the arguments ask for.
pub open spec fn is_frame(f: Frame, args: Seq<String>) -> bool {
    &&& arguments::backend_of(args) == Ok::<u32, Seq<char>>(f.backend)
    &&& arguments::tier_of(args) == Ok::<u32, Seq<char>>(f.tier)
    &&& arguments::number_of(args, "--frames"@, "frame count"@, 60, 1) == Ok::<u32, Seq<char>>(f.frames)
    &&& arguments::number_of(args, "--warmup"@, "warmup count"@, 5, 0) == Ok::<u32, Seq<char>>(f.warmup)
    &&& match resolution_of(args) {
        Ok(Some((w, h))) => f.width == w && f.height == h,
        Ok(None) => {
            &&& arguments::number_of(args, "--width"@, "frame width"@, 64, 1) == Ok::<u32, Seq<char>>(f.width)
            &&& arguments::number_of(args, "--height"@, "frame height"@, 64, 1) == Ok::<u32, Seq<char>>(
                f.height,
            )
        },
        Err(_) => false,
    }
    &&& arguments::number_of(args, "--repeat"@, "repeat count"@, 1, 1) == Ok::<u32, Seq<char>>(f.repeat)
    &&& shadows_of(args) == Ok::<ShadowMode, Seq<char>>(f.shadows)
}

/// The device that the arguments ask for, beside its backend and its tier.
pub open spec fn is_machine(m: Machine, args: Seq<String>) -> bool {
    &&& arguments::number_of(args, "--threads"@, "thread count"@, 0, 0) == Ok::<u32, Seq<char>>(m.threads)
    &&& arguments::size_of(args, "--ram-cap"@) == Ok::<nat, Seq<char>>(m.ram_cap as nat)
    &&& arguments::size_of(args, "--vram-cap"@) == Ok::<nat, Seq<char>>(m.vram_cap as nat)
    &&& arguments::size_of(args, "--disk-cap"@) == Ok::<nat, Seq<char>>(m.disk_cap as nat)
    &&& arguments::number_of(args, "--target-ms"@, "target frame time"@, 0, 0) == Ok::<u32, Seq<char>>(
        m.target_frame_ms,
    )
    &&& match m.audit_every {
        Some(n) => arguments::value(args, "--audit"@) is Some && arguments::number_of(
            args,
            "--audit"@,
            "audit interval"@,
            0,
            1,
        ) == Ok::<u32, Seq<char>>(n),
        None => arguments::value(args, "--audit"@) is None,
    }
}

/// The run that the arguments ask for.
pub open spec fn is_asked_for(o: Options, args: Seq<String>) -> bool {
    &&& is_frame(
        Frame {
            backend: o.config.backend,
            tier: o.config.tier,
            frames: o.frames,
            warmup: o.warmup,
            width: o.width,
            height: o.height,
            repeat: o.repeat,
            shadows: o.shadows,
        },
        args,
    )
    &&& is_machine(
        Machine {
            threads: o.config.threads,
            ram_cap: o.config.ram_cap,
            vram_cap: o.config.vram_cap,
            disk_cap: o.config.disk_cap,
            target_frame_ms: o.config.target_frame_ms,
            audit_every: o.audit_every,
        },
        args,
    )
    &&& o.config.allow_downgrade == abi::ALLOW_DOWNGRADE_ALL
    &&& o.config.downgrade_after_frames == 16
    &&& o.config.seed == 7
    &&& o.config.allow_disk_spill == match arguments::value(args, "--spill"@) {
        Some(v) => arguments::is_yes(v),
        None => false,
    }
    &&& arguments::same_text(o.config.spill_dir, arguments::value(args, "--spill-dir"@))
    &&& arguments::same_text(o.trace, arguments::value(args, "--trace"@))
    &&& arguments::same_text(o.png, arguments::value(args, "--png"@))
    &&& match arguments::value(args, "--framegen"@) {
        Some(v) => match o.framegen {
            Some((num, den)) => {
                &&& ratio::ratio_in(v) == Ok::<(nat, nat), Seq<char>>((num as nat, den as nat))
                &&& 0 < den <= num <= 4 * den
            },
            None => false,
        },
        None => o.framegen is None,
    }
}

/// The part of a run's options that says what is drawn.
#[derive(Clone, Copy, Debug, PartialEq, Eq, Structural)]
pub struct Frame {
    pub backend: u32,
    pub tier: u32,
    pub frames: u32,
    pub warmup: u32,
    pub width: u32,
    pub height: u32,
    pub repeat: u32,
    pub shadows: ShadowMode,
}

/// The part of a run's options that bounds the device.
#[derive(Clone, Copy, Debug, PartialEq, Eq, Structural)]
pub struct Machine {
    pub threads: u32,
    pub ram_cap: u64,
    pub vram_cap: u64,
    pub disk_cap: u64,
    pub target_frame_ms: u32,
    pub audit_every: Option<u32>,
}

fn shadows_from(args: &[String]) -> (r: Result<ShadowMode, String>)
    ensures
        match r {
            Ok(m) => shadows_of(args@) == Ok::<ShadowMode, Seq<char>>(m),
            Err(e) => shadows_of(args@) == Err::<ShadowMode, Seq<char>>(e@),
        },
{
    match units::value_of(args, "--shadows") {
        Some(v) => match ShadowMode::from_name(v) {
            Some(m) => Ok(m),
            None => Err(arguments::quoted(v, "` is not a shadow mode: off, on or cached")),
        },
        None => Ok(ShadowMode::On),
    }
}

fn find_cross(c: &Vec<char>) -> (r: usize)
    ensures
        r == cross(c@),
        r <= c@.len(),
{
    let mut i: usize = 0;
    assert(c@.skip(0) =~= c@);
    while i < c.len() && c[i] != 'x' && c[i] != 'X'
        invariant
            i <= c@.len(),
            cross(c@) == i + cross(c@.skip(i as int)),
        decreases c@.len() - i,
    {
        assert(c@.skip(i as int).skip(1) =~= c@.skip(i + 1));
        i += 1;
    }
    i
}

fn read_resolution(v: &str) -> (r: Result<(u32, u32), String>)
    ensures
        match r {
            Ok(p) => resolution(v@) == Ok::<(u32, u32), Seq<char>>(p),
            Err(e) => resolution(v@) == Err::<(u32, u32), Seq<char>>(e@),
        },
{
    let c = text::chars_of(v);
    let k = find_cross(&c);
    if k == c.len() {
        return Err(arguments::quoted(v, "` is not a resolution: expected WxH"));
    }
    let (a, b) = (v.substring_char(0, k), v.substring_char(k + 1, c.len()));
    assert(a@ =~= v@.take(k as int));
    assert(b@ =~= v@.skip(k + 1));
    let w = match arguments::read_number(a, "frame width", 1) {
        Ok(w) => w,
        Err(e) => {
            return Err(e);
        },
    };
    match arguments::read_number(b, "frame height", 1) {
        Ok(h) => Ok((w, h)),
        Err(e) => Err(e),
    }
}

fn resolution_from(args: &[String]) -> (r: Result<Option<(u32, u32)>, String>)
    ensures
        match r {
            Ok(p) => resolution_of(args@) == Ok::<Option<(u32, u32)>, Seq<char>>(p),
            Err(e) => resolution_of(args@) == Err::<Option<(u32, u32)>, Seq<char>>(e@),
        },
{
    match units::value_of(args, "--resolution") {
        Some(v) => match read_resolution(v) {
            Ok(p) => Ok(Some(p)),
            Err(e) => Err(e),
        },
        None => Ok(None),
    }
}

fn frame_from(args: &[String]) -> (r: Result<Frame, String>)
    ensures
        match r {
            Ok(f) => frame_fault(args@) is None && is_frame(f, args@),
            Err(e) => frame_fault(args@) == Some(e@),
        },
{
    let backend = match arguments::backend_from(args) {
        Ok(v) => v,
        Err(e) => {
            return Err(e);
        },
    };
    let tier = match arguments::tier_from(args) {
        Ok(v) => v,
        Err(e) => {
            return Err(e);
        },
    };
    let frames = match arguments::number_from(args, "--frames", "frame count", 60, 1) {
        Ok(v) => v,
        Err(e) => {
            return Err(e);
        },
    };
    let warmup = match arguments::number_from(args, "--warmup", "warmup count", 5, 0) {
        Ok(v) => v,
        Err(e) => {
            return Err(e);
        },
    };
    let width = match arguments::number_from(args, "--width", "frame width", 64, 1) {
        Ok(v) => v,
        Err(e) => {
            return Err(e);
        },
    };
    let height = match arguments::number_from(args, "--height", "frame height", 64, 1) {
        Ok(v) => v,
        Err(e) => {
            return Err(e);
        },
    };
    let (width, height) = match resolution_from(args) {
        Ok(Some(p)) => p,
        Ok(None) => (width, height),
        Err(e) => {
            return Err(e);
        },
    };
    let repeat = match arguments::number_from(args, "--repeat", "repeat count", 1, 1) {
        Ok(v) => v,
        Err(e) => {
            return Err(e);
        },
    };
    match shadows_from(args) {
        Ok(shadows) => Ok(
            Frame { backend, tier, frames, warmup, width, height, repeat, shadows },
        ),
        Err(e) => Err(e),
    }
}

fn machine_from(args: &[String]) -> (r: Result<Machine, String>)
    ensures
        match r {
            Ok(m) => device_fault(args@) is None && is_machine(m, args@),
            Err(e) => device_fault(args@) == Some(e@),
        },
{
    let threads = match arguments::number_from(args, "--threads", "thread count", 0, 0) {
        Ok(v) => v,
        Err(e) => {
            return Err(e);
        },
    };
    let ram_cap = match arguments::size_from(args, "--ram-cap") {
        Ok(v) => v,
        Err(e) => {
            return Err(e);
        },
    };
    let vram_cap = match arguments::size_from(args, "--vram-cap") {
        Ok(v) => v,
        Err(e) => {
            return Err(e);
        },
    };
    let disk_cap = match arguments::size_from(args, "--disk-cap") {
        Ok(v) => v,
        Err(e) => {
            return Err(e);
        },
    };
    let target_frame_ms = match arguments::number_from(args, "--target-ms", "target frame time", 0, 0) {
        Ok(v) => v,
        Err(e) => {
            return Err(e);
        },
    };
    let audit_every = match units::value_of(args, "--audit") {
        Some(v) => match arguments::read_number(v, "audit interval", 1) {
            Ok(n) => Some(n),
            Err(e) => {
                return Err(e);
            },
        },
        None => None,
    };
    Ok(Machine { threads, ram_cap, vram_cap, disk_cap, target_frame_ms, audit_every })
}

/// Reads a run's options.
pub fn options_from(args: &[String]) -> (r: Result<Options, String>)
    ensures
        match r {
            Ok(o) => options_fault(args@) is None && is_asked_for(o, args@),
            Err(e) => options_fault(args@) == Some(e@),
        },
{
    let f = match frame_from(args) {
        Ok(f) => f,
        Err(e) => {
            return Err(e);
        },
    };
    let m = match machine_from(args) {
        Ok(m) => m,
        Err(e) => {
            return Err(e);
        },
    };
    let framegen = match units::value_of(args, "--framegen") {
        Some(v) => match ratio::parse_ratio(v) {
            Ok(p) => Some(p),
            Err(e) => {
                return Err(e);
            },
        },
        None => None,
    };
    let allow_disk_spill = match units::value_of(args, "--spill") {
        Some(v) => text::same(v, "1") || text::same(v, "on") || text::same(v, "true"),
        None => false,
    };
    let mut config = Config::default();
    config.backend = f.backend;
    config.tier = f.tier;
    config.threads = m.threads;
    config.ram_cap = m.ram_cap;
    config.vram_cap = m.vram_cap;
    config.disk_cap = m.disk_cap;
    config.allow_disk_spill = allow_disk_spill;
    config.spill_dir = arguments::text_from(args, "--spill-dir");
    config.target_frame_ms = m.target_frame_ms;
    Ok(
        Options {
            config,
            frames: f.frames,
            warmup: f.warmup,
            width: f.width,
            height: f.height,
            repeat: f.repeat,
            shadows: f.shadows,
            audit_every: m.audit_every,
            trace: arguments::text_from(args, "--trace"),
            png: arguments::text_from(args, "--png"),
            framegen,
        },
    )
}

/// A resolution is a width, a cross and a height.
pub proof fn law_a_resolution_is_width_by_height(w: u32, h: u32, x: char)
    requires
        w > 0,
        h > 0,
        x == 'x' || x == 'X',
    ensures
        resolution(text::dec(w as nat) + seq![x] + text::dec(h as nat)) == Ok::<
            (u32, u32),
            Seq<char>,
        >((w, h)),
{
    let (a, b) = (text::dec(w as nat), text::dec(h as nat));
    let v = a + seq![x] + b;
    text::lemma_dec_is_digits(w as nat);
    lemma_cross(a, x, b);
    assert(v.take(a.len() as int) =~= a);
    assert(v.skip(a.len() as int + 1) =~= b);
    text::law_decimal_text_reads_back(w as nat);
    text::law_decimal_text_reads_back(h as nat);
}

proof fn lemma_cross(a: Seq<char>, x: char, b: Seq<char>)
    requires
        text::all_digits(a),
        x == 'x' || x == 'X',
    ensures
        cross(a + seq![x] + b) == a.len(),
    decreases a.len(),
{
    let v = a + seq![x] + b;
    if a.len() == 0 {
        assert(v[0] == x);
    } else {
        let rest = a.skip(1);
        assert(v[0] == a[0]);
        assert(text::is_digit(a[0]));
        assert forall|i: int| 0 <= i < rest.len() implies text::is_digit(#[trigger] rest[i]) by {
            assert(rest[i] == a[i + 1]);
        }
        lemma_cross(rest, x, b);
        assert(v.skip(1) =~= rest + seq![x] + b);
    }
}

/// An option sets the figure that bears its name and no other, from the least that makes
/// sense on; and a figure whose option is not given is what it is by default.
pub proof fn law_each_option_sets_its_own_figure(o: Options, args: Seq<String>, n: nat)
    requires
        is_asked_for(o, args),
        n <= u32::MAX,
    ensures
        ({
            let given = |flag: Seq<char>| arguments::value(args, flag) == Some(text::dec(n));
            let absent = |flag: Seq<char>| arguments::value(args, flag) is None;
            let one = if n == 0 { 1 } else { n };
            &&& given("--frames"@) ==> o.frames == one
            &&& absent("--frames"@) ==> o.frames == 60
            &&& given("--warmup"@) ==> o.warmup == n
            &&& absent("--warmup"@) ==> o.warmup == 5
            &&& absent("--resolution"@) && given("--width"@) ==> o.width == one
            &&& absent("--resolution"@) && absent("--width"@) ==> o.width == 64
            &&& absent("--resolution"@) && given("--height"@) ==> o.height == one
            &&& absent("--resolution"@) && absent("--height"@) ==> o.height == 64
            &&& given("--repeat"@) ==> o.repeat == one
            &&& absent("--repeat"@) ==> o.repeat == 1
            &&& given("--threads"@) ==> o.config.threads == n
            &&& absent("--threads"@) ==> o.config.threads == 0
            &&& given("--target-ms"@) ==> o.config.target_frame_ms == n
            &&& absent("--target-ms"@) ==> o.config.target_frame_ms == 0
            &&& given("--audit"@) ==> (o.audit_every matches Some(every) && every == one)
            &&& absent("--audit"@) ==> o.audit_every is None
            &&& absent("--backend"@) ==> o.config.backend == abi::BACKEND_NONE
            &&& absent("--tier"@) ==> o.config.tier == 0
            &&& given("--tier"@) ==> o.config.tier == if n < 5 { n } else { 4 }
            &&& absent("--shadows"@) ==> o.shadows == ShadowMode::On
            &&& absent("--framegen"@) ==> o.framegen is None
            &&& absent("--spill"@) ==> !o.config.allow_disk_spill
        }),
{
    text::law_decimal_text_reads_back(n);
    device::law_a_tier_number_is_a_rung(n);
}

/// A cap sets the memory that bears its name: main memory, video memory or the disk.
pub proof fn law_each_cap_sets_its_own_memory(o: Options, args: Seq<String>, size: nat)
    requires
        is_asked_for(o, args),
    ensures
        ({
            let caps = |flag: Seq<char>|
                arguments::value(args, flag) is Some && units::size_in(
                    arguments::value(args, flag)->0,
                ) == Ok::<nat, Seq<char>>(size);
            let absent = |flag: Seq<char>| arguments::value(args, flag) is None;
            &&& caps("--ram-cap"@) ==> o.config.ram_cap == size
            &&& caps("--vram-cap"@) ==> o.config.vram_cap == size
            &&& caps("--disk-cap"@) ==> o.config.disk_cap == size
            &&& absent("--ram-cap"@) ==> o.config.ram_cap == 0
            &&& absent("--vram-cap"@) ==> o.config.vram_cap == 0
            &&& absent("--disk-cap"@) ==> o.config.disk_cap == 0
        }),
{
}

/// A resolution stands for both sides, whatever is said of them one by one, and the
/// names of files are taken as they are given.
pub proof fn law_a_resolution_stands_for_both_sides(
    o: Options,
    args: Seq<String>,
    w: u32,
    h: u32,
)
    requires
        is_asked_for(o, args),
        w > 0,
        h > 0,
    ensures
        arguments::value(args, "--resolution"@) == Some(
            text::dec(w as nat) + seq!['x'] + text::dec(h as nat),
        ) ==> o.width == w && o.height == h,
        match o.trace {
            Some(t) => arguments::value(args, "--trace"@) == Some(t@),
            None => arguments::value(args, "--trace"@) is None,
        },
        match o.png {
            Some(t) => arguments::value(args, "--png"@) == Some(t@),
            None => arguments::value(args, "--png"@) is None,
        },
        match o.config.spill_dir {
            Some(t) => arguments::value(args, "--spill-dir"@) == Some(t@),
            None => arguments::value(args, "--spill-dir"@) is None,
        },
{
    law_a_resolution_is_width_by_height(w, h, 'x');
}

/// Options are accepted exactly when none of them is at fault, and what is said is the
/// first fault in the order they are looked at: the frame first, then the device, then
/// the images in between.
pub proof fn law_the_first_fault_is_told(args: Seq<String>)
    ensures
        options_fault(args) is None <==> frame_fault(args) is None && device_fault(args) is None
            && framegen_fault(args) is None,
        frame_fault(args) is Some ==> options_fault(args) == frame_fault(args),
        frame_fault(args) is None && device_fault(args) is Some ==> options_fault(args)
            == device_fault(args),
{
}

} // verus!
