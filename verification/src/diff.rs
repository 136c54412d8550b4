//! Comparing a rendered image with a golden one.
//!
//! The default is exact because that is what the reference tier produces against
//! itself, byte for byte. The tolerance is for the comparison across tiers:
//! per-channel deltas up to it are absorbed, and at most one pixel in a hundred
//! may differ at all.
use crate::host::abi;
use crate::host::device::Config;
use crate::host::units;
use crate::labels::{lemma_line, line, says};
use crate::png::Image;
use crate::text;
use vstd::prelude::*;
use vstd::string::{StrSliceExecFns, StringExecFns};

verus! {

/// The width of every golden.
pub const W: u32 = 64;

/// The height of every golden.
pub const H: u32 = 64;

/// The host configuration the golden is produced with.
///
/// Pinned to the reference tier with downgrades disabled and one worker thread, so
/// the golden depends on the scene and nothing about this machine.
pub fn reference_config() -> (r: Config)
    ensures
        r.backend == abi::BACKEND_SOFT_CPU,
        r.tier == 2,
        r.allow_downgrade == abi::ALLOW_DOWNGRADE_NONE,
        r.threads == 1,
        r.target_frame_ms == 1000,
        r.downgrade_after_frames == 16,
        r.seed == 7,
        r.ram_cap == 0,
        r.vram_cap == 0,
        r.disk_cap == 0,
        !r.allow_disk_spill,
        r.spill_dir is None,
{
    let mut config = Config::default();
    config.backend = abi::BACKEND_SOFT_CPU;
    config.tier = 2;
    config.allow_downgrade = abi::ALLOW_DOWNGRADE_NONE;
    config.threads = 1;
    config.target_frame_ms = 1000;
    config
}

/// What a comparison found.
#[derive(Clone, Copy, Debug, PartialEq, Eq, Structural)]
pub struct Verdict {
    /// Pixels with any nonzero channel delta.
    pub changed: usize,
    /// Pixels whose worst channel delta exceeds the tolerance.
    pub exceeded: usize,
    pub worst: u8,
}

pub open spec fn delta(a: u8, b: u8) -> int {
    if a >= b {
        a - b
    } else {
        b - a
    }
}

pub open spec fn larger(a: int, b: int) -> int {
    if a >= b {
        a
    } else {
        b
    }
}

/// The worst channel delta of a pixel.
pub open spec fn pixel_delta(a: Seq<u8>, b: Seq<u8>, i: int) -> int {
    larger(
        larger(delta(a[4 * i], b[4 * i]), delta(a[4 * i + 1], b[4 * i + 1])),
        larger(delta(a[4 * i + 2], b[4 * i + 2]), delta(a[4 * i + 3], b[4 * i + 3])),
    )
}

/// The whole pixels that two images both have.
pub open spec fn shared_pixels(a: Seq<u8>, b: Seq<u8>) -> int {
    if a.len() <= b.len() {
        (a.len() / 4) as int
    } else {
        (b.len() / 4) as int
    }
}

/// Among the first `n` pixels, those whose worst channel delta exceeds `limit`.
pub open spec fn beyond(a: Seq<u8>, b: Seq<u8>, n: int, limit: int) -> int
    decreases n,
{
    if n <= 0 {
        0
    } else {
        beyond(a, b, n - 1, limit) + if pixel_delta(a, b, n - 1) > limit {
            1int
        } else {
            0
        }
    }
}

/// The worst channel delta among the first `n` pixels.
pub open spec fn worst_of(a: Seq<u8>, b: Seq<u8>, n: int) -> int
    decreases n,
{
    if n <= 0 {
        0
    } else {
        larger(worst_of(a, b, n - 1), pixel_delta(a, b, n - 1))
    }
}

/// Why two images cannot be compared.
pub open spec fn mismatch(a: Image, b: Image) -> Option<Seq<char>> {
    if a.width != b.width || a.height != b.height {
        Some(
            "size mismatch: 64x64 golden vs "@ + text::dec(b.width as nat) + "x"@ + text::dec(
                b.height as nat,
            ) + " candidate"@,
        )
    } else if a.width != W || a.height != H {
        Some(
            "goldens are 64x64; this file is "@ + text::dec(a.width as nat) + "x"@ + text::dec(
                a.height as nat,
            ),
        )
    } else {
        None
    }
}

fn channel_delta(a: u8, b: u8) -> (r: u8)
    ensures
        r == delta(a, b),
{
    if a >= b {
        a - b
    } else {
        b - a
    }
}

fn max(a: u8, b: u8) -> (r: u8)
    ensures
        r == larger(a as int, b as int),
{
    if a >= b {
        a
    } else {
        b
    }
}

/// Compares two images pixel by pixel.
pub fn compare(a: &Image, b: &Image, tolerance: u8) -> (r: Result<Verdict, String>)
    ensures
        match r {
            Err(e) => mismatch(*a, *b) == Some(e@),
            Ok(v) => {
                let n = shared_pixels(a.pixels@, b.pixels@);
                &&& mismatch(*a, *b) is None
                &&& v.changed == beyond(a.pixels@, b.pixels@, n, 0)
                &&& v.exceeded == beyond(a.pixels@, b.pixels@, n, tolerance as int)
                &&& v.worst == worst_of(a.pixels@, b.pixels@, n)
                &&& is_verdict(*a, *b, tolerance, v)
            },
        },
{
    if a.width != b.width || a.height != b.height {
        let mut e = String::from_str("size mismatch: 64x64 golden vs ");
        text::push_dec(&mut e, b.width as u128);
        e.append("x");
        text::push_dec(&mut e, b.height as u128);
        e.append(" candidate");
        return Err(e);
    }
    if a.width != W || a.height != H {
        let mut e = String::from_str("goldens are 64x64; this file is ");
        text::push_dec(&mut e, a.width as u128);
        e.append("x");
        text::push_dec(&mut e, a.height as u128);
        return Err(e);
    }
    assert(a.pixels.len() == a.pixels@.len() && b.pixels.len() == b.pixels@.len());
    let n: usize = if a.pixels.len() <= b.pixels.len() {
        a.pixels.len() / 4
    } else {
        b.pixels.len() / 4
    };
    let mut changed: usize = 0;
    let mut exceeded: usize = 0;
    let mut worst: u8 = 0;
    let mut i: usize = 0;
    while i < n
        invariant
            i <= n,
            4 * n <= a.pixels@.len(),
            4 * n <= b.pixels@.len(),
            a.pixels@.len() <= usize::MAX,
            changed <= i,
            exceeded <= i,
            changed == beyond(a.pixels@, b.pixels@, i as int, 0),
            exceeded == beyond(a.pixels@, b.pixels@, i as int, tolerance as int),
            worst == worst_of(a.pixels@, b.pixels@, i as int),
        decreases n - i,
    {
        let at: usize = 4 * i;
        let d: u8 = max(
            max(
                channel_delta(a.pixels[at], b.pixels[at]),
                channel_delta(a.pixels[at + 1], b.pixels[at + 1]),
            ),
            max(
                channel_delta(a.pixels[at + 2], b.pixels[at + 2]),
                channel_delta(a.pixels[at + 3], b.pixels[at + 3]),
            ),
        );
        worst = max(worst, d);
        if d > 0 {
            changed += 1;
        }
        if d > tolerance {
            exceeded += 1;
        }
        i += 1;
    }
    Ok(Verdict { changed, exceeded, worst })
}

/// What [`compare`] finds.
pub open spec fn is_verdict(golden: Image, candidate: Image, tolerance: u8, v: Verdict) -> bool {
    let (a, b) = (golden.pixels@, candidate.pixels@);
    let n = shared_pixels(a, b);
    &&& v.changed == beyond(a, b, n, 0)
    &&& v.exceeded == beyond(a, b, n, tolerance as int)
    &&& v.worst == worst_of(a, b, n)
}

/// The pixels that may differ where any may: one in a hundred.
pub open spec fn budget(golden: Image) -> int {
    (golden.pixels@.len() / 4 / 100) as int
}

/// Is a candidate as good as the golden?
pub open spec fn passes(golden: Image, v: Verdict, tolerance: u8) -> bool {
    v.changed == 0 || (tolerance > 0 && v.exceeded == 0 && v.changed <= budget(golden))
}

pub open spec fn verdict_text(path: Seq<char>, golden: Image, v: Verdict, tolerance: u8) -> Seq<
    char,
> {
    if v.changed == 0 {
        if tolerance == 0 {
            "PASS "@ + path + " vs candidate: identical ("@ + text::dec(
                (golden.width * golden.height) as nat,
            ) + " px)"@
        } else {
            "PASS "@ + path + " vs candidate (tolerance "@ + text::dec(tolerance as nat)
                + "): identical ("@ + text::dec((golden.width * golden.height) as nat) + " px)"@
        }
    } else if passes(golden, v, tolerance) {
        "PASS "@ + path + " vs candidate (tolerance "@ + text::dec(tolerance as nat) + "): "@
            + text::dec(v.changed as nat) + " px differ, worst channel delta "@ + text::dec(
            v.worst as nat,
        ) + " (within the 1% budget)"@
    } else {
        let pixels = golden.pixels@.len() / 4;
        "DIFFER "@ + path + " vs candidate ("@ + if tolerance == 0 {
            "exact"@
        } else {
            "tolerance"@
        } + "): "@ + text::dec(v.changed as nat) + " of "@ + text::dec(pixels) + " px differ ("@
            + text::dec((v.changed as nat * 100) / pixels) + "%), worst channel delta "@
            + text::dec(v.worst as nat)
    }
}

proof fn lemma_beyond_bounds(a: Seq<u8>, b: Seq<u8>, n: int, limit: int)
    requires
        0 <= n,
    ensures
        0 <= beyond(a, b, n, limit) <= n,
    decreases n,
{
    if n > 0 {
        lemma_beyond_bounds(a, b, n - 1, limit);
    }
}

fn identical_message(path: &str, golden: &Image, tolerance: u8) -> (r: String)
    requires
        golden.width * golden.height <= u32::MAX,
    ensures
        forall|v: Verdict| v.changed == 0 ==> r@ == #[trigger] verdict_text(
            path@,
            *golden,
            v,
            tolerance,
        ),
{
    let mut out = String::from_str("PASS ");
    out.append(path);
    if tolerance == 0 {
        out.append(" vs candidate: identical (");
    } else {
        out.append(" vs candidate (tolerance ");
        text::push_dec(&mut out, tolerance as u128);
        out.append("): identical (");
    }
    text::push_dec(&mut out, (golden.width * golden.height) as u128);
    out.append(" px)");
    out
}

fn within_message(path: &str, v: &Verdict, tolerance: u8) -> (r: String)
    ensures
        r@ == "PASS "@ + path@ + " vs candidate (tolerance "@ + text::dec(tolerance as nat) + "): "@
            + text::dec(v.changed as nat) + " px differ, worst channel delta "@ + text::dec(
            v.worst as nat,
        ) + " (within the 1% budget)"@,
{
    let mut out = String::from_str("PASS ");
    out.append(path);
    out.append(" vs candidate (tolerance ");
    text::push_dec(&mut out, tolerance as u128);
    out.append("): ");
    text::push_dec(&mut out, v.changed as u128);
    out.append(" px differ, worst channel delta ");
    text::push_dec(&mut out, v.worst as u128);
    out.append(" (within the 1% budget)");
    out
}

fn differ_message(path: &str, pixels: usize, v: &Verdict, tolerance: u8) -> (r: String)
    requires
        pixels > 0,
    ensures
        r@ == "DIFFER "@ + path@ + " vs candidate ("@ + if tolerance == 0 {
            "exact"@
        } else {
            "tolerance"@
        } + "): "@ + text::dec(v.changed as nat) + " of "@ + text::dec(pixels as nat)
            + " px differ ("@ + text::dec((v.changed as nat * 100) / pixels as nat)
            + "%), worst channel delta "@ + text::dec(v.worst as nat),
{
    let mut out = String::from_str("DIFFER ");
    out.append(path);
    out.append(" vs candidate (");
    if tolerance == 0 {
        out.append("exact");
    } else {
        out.append("tolerance");
    }
    out.append("): ");
    text::push_dec(&mut out, v.changed as u128);
    out.append(" of ");
    text::push_dec(&mut out, pixels as u128);
    out.append(" px differ (");
    text::push_dec(&mut out, v.changed as u128 * 100 / pixels as u128);
    out.append("%), worst channel delta ");
    text::push_dec(&mut out, v.worst as u128);
    out
}

/// Why an image is not passed.
pub enum Failure {
    /// The images differ: a finding, and what it says.
    Differs(String),
    /// There was nothing to compare: an error, and what it says.
    Error(String),
}

/// Judges a candidate against a golden that was read from `path`: `Ok` is a pass,
/// and a failure is either a difference or images that cannot be compared.
pub fn judge(path: &str, golden: &Image, candidate: &Image, tolerance: u8) -> (r: Result<
    String,
    Failure,
>)
    ensures
        match mismatch(*golden, *candidate) {
            Some(e) => r matches Err(Failure::Error(t)) && t@ == e,
            None => {
                let n = shared_pixels(golden.pixels@, candidate.pixels@);
                let v = Verdict {
                    changed: beyond(golden.pixels@, candidate.pixels@, n, 0) as usize,
                    exceeded: beyond(
                        golden.pixels@,
                        candidate.pixels@,
                        n,
                        tolerance as int,
                    ) as usize,
                    worst: worst_of(golden.pixels@, candidate.pixels@, n) as u8,
                };
                let said = verdict_text(path@, *golden, v, tolerance);
                if passes(*golden, v, tolerance) {
                    r matches Ok(t) && t@ == said
                } else {
                    r matches Err(Failure::Differs(t)) && t@ == said
                }
            },
        },
        r matches Err(Failure::Error(_)) <==> !(golden.width == 64 && golden.height == 64
            && candidate.width == 64 && candidate.height == 64),
        !(r matches Err(Failure::Error(_))) && golden.pixels@.len() == candidate.pixels@.len()
            && golden.pixels@.len() % 4 == 0 ==> (r is Ok <==> is_acceptable(
            golden.pixels@,
            candidate.pixels@,
            tolerance as int,
        )),
{
    let v = match compare(golden, candidate, tolerance) {
        Ok(v) => v,
        Err(e) => {
            return Err(Failure::Error(e));
        },
    };
    proof {
        lemma_beyond_bounds(
            golden.pixels@,
            candidate.pixels@,
            shared_pixels(golden.pixels@, candidate.pixels@),
            0,
        );
        if golden.pixels@.len() == candidate.pixels@.len() && golden.pixels@.len() % 4 == 0 {
            law_a_candidate_passes_within_its_tolerance(*golden, *candidate, tolerance, v);
        }
    }
    assert(golden.pixels.len() == golden.pixels@.len());
    let pixels: usize = golden.pixels.len() / 4;
    assert(golden.width * golden.height == 4096) by (nonlinear_arith)
        requires
            golden.width == 64,
            golden.height == 64;
    if v.changed == 0 {
        Ok(identical_message(path, golden, tolerance))
    } else if tolerance > 0 && v.exceeded == 0 && v.changed <= pixels / 100 {
        // Tolerance mode: deltas up to it are absorbed, and at most one pixel in a
        // hundred may differ at all. Exact mode has no budget: a golden diff is
        // exact or it is a finding.
        Ok(within_message(path, &v, tolerance))
    } else {
        Err(Failure::Differs(differ_message(path, pixels, &v, tolerance)))
    }
}

/// The exit code an outcome is reported by.
pub open spec fn exit_for(outcome: Result<String, Failure>) -> u8 {
    match outcome {
        Ok(_) => 0,
        Err(Failure::Differs(_)) => 1,
        Err(Failure::Error(_)) => 2,
    }
}

/// The exit code of an outcome: 0 for a pass, 1 for images that differ, which is a
/// finding and not a crash, and 2 for an error, whatever its words are.
pub fn exit_code(outcome: &Result<String, Failure>) -> (code: u8)
    ensures
        code == exit_for(*outcome),
{
    match outcome {
        Ok(_) => 0,
        Err(Failure::Differs(_)) => 1,
        Err(Failure::Error(_)) => 2,
    }
}

/// Exact mode passes an image if and only if every pixel is the golden's.
pub proof fn law_exact_mode_is_exact(golden: Image, candidate: Image, v: Verdict)
    requires
        golden.pixels@.len() == candidate.pixels@.len(),
        golden.pixels@.len() % 4 == 0,
        v.changed == beyond(
            golden.pixels@,
            candidate.pixels@,
            shared_pixels(golden.pixels@, candidate.pixels@),
            0,
        ),
    ensures
        passes(golden, v, 0) <==> golden.pixels@ == candidate.pixels@,
{
    let (a, b) = (golden.pixels@, candidate.pixels@);
    let n = shared_pixels(a, b);
    lemma_none_beyond(a, b, n);
    if v.changed == 0 {
        assert forall|k: int| 0 <= k < a.len() implies a[k] == b[k] by {
            let i = k / 4;
            assert(pixel_delta(a, b, i) == 0);
            assert(k == 4 * i || k == 4 * i + 1 || k == 4 * i + 2 || k == 4 * i + 3);
        }
        assert(a =~= b);
    } else if a == b {
        assert forall|i: int| 0 <= i < n implies #[trigger] pixel_delta(a, b, i) == 0 by {}
    }
}

/// No pixel differs exactly where none is counted.
proof fn lemma_none_beyond(a: Seq<u8>, b: Seq<u8>, n: int)
    requires
        0 <= n,
    ensures
        beyond(a, b, n, 0) == 0 <==> forall|i: int|
            0 <= i < n ==> #[trigger] pixel_delta(a, b, i) == 0,
    decreases n,
{
    if n > 0 {
        lemma_none_beyond(a, b, n - 1);
        lemma_beyond_bounds(a, b, n - 1, 0);
        assert(pixel_delta(a, b, n - 1) >= 0);
    }
}

/// A tolerance absorbs deltas, not pixels: however large it is, no more than one
/// pixel in a hundred may differ.
pub proof fn law_a_tolerance_keeps_its_budget(golden: Image, v: Verdict, tolerance: u8)
    requires
        passes(golden, v, tolerance),
    ensures
        v.changed <= budget(golden),
{
}

/// The pixels among the first `n` with a channel that is more than `limit` away from
/// its counterpart.
pub open spec fn pixels_off(a: Seq<u8>, b: Seq<u8>, n: int, limit: int) -> Set<int> {
    vstd::set_lib::set_int_range(0, n).filter(
        |p: int| exists|k: int| 4 * p <= k < 4 * p + 4 && !(-limit <= #[trigger] a[k] - b[k] <= limit),
    )
}

/// The second image may stand for the first: it is the first, or every channel is
/// within the tolerance and no more than one pixel in a hundred differs.
pub open spec fn is_acceptable(a: Seq<u8>, b: Seq<u8>, tolerance: int) -> bool {
    a == b || {
        &&& tolerance > 0
        &&& forall|k: int| 0 <= k < a.len() ==> -tolerance <= #[trigger] a[k] - b[k] <= tolerance
        &&& 100 * pixels_off(a, b, (a.len() / 4) as int, 0).len() <= a.len() / 4
    }
}

proof fn lemma_beyond_counts(a: Seq<u8>, b: Seq<u8>, n: int, limit: int)
    requires
        0 <= n,
        0 <= limit,
    ensures
        pixels_off(a, b, n, limit).finite(),
        beyond(a, b, n, limit) == pixels_off(a, b, n, limit).len(),
    decreases n,
{
    let now = pixels_off(a, b, n, limit);
    vstd::set_lib::lemma_int_range(0, n);
    if n == 0 {
        assert(now =~= Set::empty());
    } else {
        lemma_beyond_counts(a, b, n - 1, limit);
        let before = pixels_off(a, b, n - 1, limit);
        let p = n - 1;
        assert(!before.contains(p));
        if pixel_delta(a, b, p) > limit {
            assert(exists|k: int|
                4 * p <= k < 4 * p + 4 && !(-limit <= #[trigger] a[k] - b[k] <= limit)) by {
                assert(!(-limit <= a[4 * p] - b[4 * p] <= limit) || !(-limit <= a[4 * p + 1] - b[4
                    * p + 1] <= limit) || !(-limit <= a[4 * p + 2] - b[4 * p + 2] <= limit) || !(
                -limit <= a[4 * p + 3] - b[4 * p + 3] <= limit));
            }
            assert(now =~= before.insert(p));
        } else {
            assert forall|k: int| 4 * p <= k < 4 * p + 4 implies -limit <= #[trigger] a[k] - b[k]
                <= limit by {
                assert(k == 4 * p || k == 4 * p + 1 || k == 4 * p + 2 || k == 4 * p + 3);
            }
            assert(now =~= before);
        }
    }
}

proof fn lemma_worst(a: Seq<u8>, b: Seq<u8>, n: int)
    requires
        0 <= n,
    ensures
        0 <= worst_of(a, b, n),
        forall|k: int|
            0 <= k < 4 * n ==> -worst_of(a, b, n) <= #[trigger] a[k] - b[k] <= worst_of(a, b, n),
        worst_of(a, b, n) > 0 ==> exists|k: int|
            0 <= k < 4 * n && (#[trigger] a[k] - b[k] == worst_of(a, b, n) || b[k] - a[k]
                == worst_of(a, b, n)),
    decreases n,
{
    if n > 0 {
        lemma_worst(a, b, n - 1);
        let p = n - 1;
        let w = worst_of(a, b, n);
        assert forall|k: int| 0 <= k < 4 * n implies -w <= #[trigger] a[k] - b[k] <= w by {
            if k >= 4 * p {
                assert(k == 4 * p || k == 4 * p + 1 || k == 4 * p + 2 || k == 4 * p + 3);
            }
        }
        if w > 0 && w > worst_of(a, b, n - 1) {
            let d = pixel_delta(a, b, p);
            assert(d == w);
            let k = if delta(a[4 * p], b[4 * p]) == d {
                4 * p
            } else if delta(a[4 * p + 1], b[4 * p + 1]) == d {
                4 * p + 1
            } else if delta(a[4 * p + 2], b[4 * p + 2]) == d {
                4 * p + 2
            } else {
                4 * p + 3
            };
            assert(a[k] - b[k] == w || b[k] - a[k] == w);
        }
    }
}

/// A comparison counts what the images are: the pixels with any channel that
/// differs, those with a channel that differs by more than the tolerance, and the
/// largest difference of any channel.
pub proof fn law_a_comparison_counts_pixels_and_bounds_channels(
    golden: Image,
    candidate: Image,
    tolerance: u8,
    v: Verdict,
)
    requires
        is_verdict(golden, candidate, tolerance, v),
        golden.pixels@.len() == candidate.pixels@.len(),
        golden.pixels@.len() % 4 == 0,
    ensures
        ({
            let (a, b) = (golden.pixels@, candidate.pixels@);
            let n = (a.len() / 4) as int;
            &&& v.changed == pixels_off(a, b, n, 0).len()
            &&& v.exceeded == pixels_off(a, b, n, tolerance as int).len()
            &&& forall|k: int| 0 <= k < a.len() ==> -v.worst <= #[trigger] a[k] - b[k] <= v.worst
            &&& v.worst > 0 ==> exists|k: int|
                0 <= k < a.len() && (#[trigger] a[k] - b[k] == v.worst || b[k] - a[k] == v.worst)
        }),
{
    let (a, b) = (golden.pixels@, candidate.pixels@);
    let n = (a.len() / 4) as int;
    lemma_beyond_counts(a, b, n, 0);
    lemma_beyond_counts(a, b, n, tolerance as int);
    lemma_worst(a, b, n);
    if v.worst > 0 {
        let k = choose|k: int|
            0 <= k < 4 * n && (#[trigger] a[k] - b[k] == worst_of(a, b, n) || b[k] - a[k]
                == worst_of(a, b, n));
        assert(a[k] - b[k] == v.worst || b[k] - a[k] == v.worst);
    }
}

/// Tolerance mode passes a candidate exactly when every channel of it is within the
/// tolerance of the golden's and no more than one pixel in a hundred differs.
/// Nothing else passes but the golden itself.
pub proof fn law_a_candidate_passes_within_its_tolerance(
    golden: Image,
    candidate: Image,
    tolerance: u8,
    v: Verdict,
)
    requires
        is_verdict(golden, candidate, tolerance, v),
        golden.pixels@.len() == candidate.pixels@.len(),
        golden.pixels@.len() % 4 == 0,
    ensures
        ({
            let (a, b) = (golden.pixels@, candidate.pixels@);
            passes(golden, v, tolerance) <==> (a == b || {
                &&& tolerance > 0
                &&& forall|k: int|
                    0 <= k < a.len() ==> -(tolerance as int) <= #[trigger] a[k] - b[k] <= tolerance
                &&& 100 * pixels_off(a, b, (a.len() / 4) as int, 0).len() <= a.len() / 4
            })
        }),
{
    let (a, b) = (golden.pixels@, candidate.pixels@);
    let n = (a.len() / 4) as int;
    let t = tolerance as int;
    law_a_comparison_counts_pixels_and_bounds_channels(golden, candidate, tolerance, v);
    lemma_beyond_counts(a, b, n, 0);
    lemma_beyond_counts(a, b, n, t);
    vstd::set_lib::lemma_int_range(0, n);
    let (some, more) = (pixels_off(a, b, n, 0), pixels_off(a, b, n, t));
    if v.changed == 0 {
        assert forall|k: int| 0 <= k < a.len() implies a[k] == b[k] by {
            assert(!some.contains(k / 4));
            assert(4 * (k / 4) <= k < 4 * (k / 4) + 4);
            assert(a[k] - b[k] == 0);
        }
        assert(a =~= b);
    }
    if a == b {
        assert(some =~= Set::empty());
    }
    if v.exceeded == 0 {
        assert forall|k: int| 0 <= k < a.len() implies -t <= #[trigger] a[k] - b[k] <= t by {
            assert(!more.contains(k / 4));
            assert(4 * (k / 4) <= k < 4 * (k / 4) + 4);
        }
    }
    if forall|k: int| 0 <= k < a.len() ==> -t <= #[trigger] a[k] - b[k] <= t {
        assert(more =~= Set::empty());
    }
}

/// Only images of one size, and that the size of a golden, are compared at all.
pub proof fn law_only_goldens_are_compared(golden: Image, candidate: Image)
    ensures
        mismatch(golden, candidate) is None <==> golden.width == 64 && golden.height == 64
            && candidate.width == 64 && candidate.height == 64,
{
}

/// What a command line asks for.
pub enum Command {
    /// Render the reference frame to a file.
    Render(String),
    /// Compare a golden with a candidate, or with a fresh render.
    Compare { golden: String, candidate: Option<String>, tolerance: u8 },
    /// Nothing: this is what is wrong with it.
    Refused(String),
    /// Nothing that can be understood.
    Usage,
}

pub open spec fn tolerance_prefix() -> Seq<char> {
    "--tolerance="@
}

/// The paths among some arguments.
pub open spec fn paths_in(args: Seq<String>) -> Seq<Seq<char>>
    decreases args.len(),
{
    if args.len() == 0 {
        seq![]
    } else {
        let a = args.last()@;
        if tolerance_prefix().is_prefix_of(a) || a == "--tolerance"@ {
            paths_in(args.drop_last())
        } else {
            paths_in(args.drop_last()).push(a)
        }
    }
}

/// The tolerance that some arguments set last.
pub open spec fn tolerance_in(args: Seq<String>) -> nat
    decreases args.len(),
{
    if args.len() == 0 {
        0
    } else {
        let a = args.last()@;
        let value = text::unsigned(a.skip(tolerance_prefix().len() as int));
        if tolerance_prefix().is_prefix_of(a) && value is Some && value->0 <= u8::MAX {
            value->0
        } else {
            tolerance_in(args.drop_last())
        }
    }
}

/// The last thing that is wrong with a tolerance.
pub open spec fn tolerance_fault(args: Seq<String>) -> Option<Seq<char>>
    decreases args.len(),
{
    if args.len() == 0 {
        None
    } else {
        let a = args.last()@;
        let t = a.skip(tolerance_prefix().len() as int);
        let value = text::unsigned(t);
        if tolerance_prefix().is_prefix_of(a) && !(value is Some && value->0 <= u8::MAX) {
            Some("bad tolerance "@ + t)
        } else if !tolerance_prefix().is_prefix_of(a) && a == "--tolerance"@ {
            Some("--tolerance needs a value: use --tolerance=N"@)
        } else {
            tolerance_fault(args.drop_last())
        }
    }
}

struct Compared {
    tolerance: u8,
    bad: Option<String>,
    paths: Vec<String>,
}

pub open spec fn views(s: Seq<String>) -> Seq<Seq<char>> {
    Seq::new(s.len(), |i: int| s[i]@)
}

fn read_arguments(args: &[String]) -> (r: Compared)
    ensures
        r.tolerance == tolerance_in(args@),
        views(r.paths@) == paths_in(args@),
        match r.bad {
            Some(e) => tolerance_fault(args@) == Some(e@),
            None => tolerance_fault(args@) is None,
        },
{
    let mut tolerance: u8 = 0;
    let mut bad: Option<String> = None;
    let mut paths: Vec<String> = Vec::new();
    let prefix = text::chars_of("--tolerance=");
    let mut i: usize = 0;
    assert(views(paths@) =~= paths_in(args@.take(0)));
    while i < args.len()
        invariant
            i <= args@.len(),
            prefix@ == tolerance_prefix(),
            tolerance == tolerance_in(args@.take(i as int)),
            views(paths@) == paths_in(args@.take(i as int)),
            match bad {
                Some(e) => tolerance_fault(args@.take(i as int)) == Some(e@),
                None => tolerance_fault(args@.take(i as int)) is None,
            },
        decreases args@.len() - i,
    {
        proof {
            assert(args@.take(i + 1).drop_last() =~= args@.take(i as int));
            assert(args@.take(i + 1).last() == args@[i as int]);
        }
        let a = args[i].as_str();
        let c = text::chars_of(a);
        if units::starts_with(&c, &prefix) {
            let t = a.substring_char(prefix.len(), c.len());
            assert(t@ =~= a@.skip(prefix@.len() as int));
            match text::read_u32(t) {
                Some(v) => {
                    if v <= 255 {
                        tolerance = v as u8;
                    } else {
                        let mut e = String::from_str("bad tolerance ");
                        e.append(t);
                        bad = Some(e);
                    }
                },
                None => {
                    let mut e = String::from_str("bad tolerance ");
                    e.append(t);
                    bad = Some(e);
                },
            }
        } else if text::same(a, "--tolerance") {
            bad = Some(String::from_str("--tolerance needs a value: use --tolerance=N"));
        } else {
            let ghost before = views(paths@);
            paths.push(String::from_str(a));
            assert(views(paths@) =~= before.push(a@));
        }
        i += 1;
    }
    assert(args@.take(i as int) =~= args@);
    Compared { tolerance, bad, paths }
}

/// Reads a command line.
pub fn command(args: &[String]) -> (r: Command)
    ensures
        ({
            let rest = args@.skip(1);
            let paths = paths_in(rest);
            if args@.len() == 2 && args@[0]@ == "render"@ {
                r is Render && r->Render_0@ == args@[1]@
            } else if args@.len() >= 2 && args@[0]@ == "compare"@ {
                match tolerance_fault(rest) {
                    Some(e) => r is Refused && r->Refused_0@ == e,
                    None => if paths.len() == 0 {
                        r is Usage
                    } else {
                        match r {
                            Command::Compare { golden, candidate, tolerance } => {
                                &&& golden@ == paths[0]
                                &&& match candidate {
                                    Some(c) => paths.len() > 1 && c@ == paths[1],
                                    None => paths.len() == 1,
                                }
                                &&& tolerance == tolerance_in(rest)
                            },
                            _ => false,
                        }
                    },
                }
            } else {
                r is Usage
            }
        }),
{
    if args.len() < 2 {
        return Command::Usage;
    }
    if text::same(args[0].as_str(), "render") && args.len() == 2 {
        return Command::Render(String::from_str(args[1].as_str()));
    }
    if !text::same(args[0].as_str(), "compare") {
        return Command::Usage;
    }
    let rest = vstd::slice::slice_subrange(args, 1, args.len());
    assert(rest@ =~= args@.skip(1));
    let c = read_arguments(rest);
    match c.bad {
        Some(e) => {
            return Command::Refused(e);
        },
        None => {},
    }
    assert(views(c.paths@).len() == c.paths@.len());
    if c.paths.len() == 0 {
        return Command::Usage;
    }
    assert(views(c.paths@)[0] == c.paths@[0]@);
    let golden = String::from_str(c.paths[0].as_str());
    let candidate = if c.paths.len() > 1 {
        assert(views(c.paths@)[1] == c.paths@[1]@);
        Some(String::from_str(c.paths[1].as_str()))
    } else {
        None
    };
    Command::Compare { golden, candidate, tolerance: c.tolerance }
}

/// What ends with which code: a pass with 0, images that differ with 1 and everything
/// else with 2, whatever is said.
pub proof fn law_a_code_tells_a_finding_from_an_error(said: String, other: String)
    ensures
        exit_for(Ok(said)) == 0,
        exit_for(Err(Failure::Differs(said))) == 1,
        exit_for(Err(Failure::Error(said))) == 2,
        exit_for(Err(Failure::Error(said))) == exit_for(Err(Failure::Error(other))),
{
}

/// A verdict says first what it is: a pass, or that the images differ.
pub proof fn law_a_verdict_says_first_what_it_is(
    path: Seq<char>,
    golden: Image,
    v: Verdict,
    tolerance: u8,
)
    ensures
        passes(golden, v, tolerance) ==> ("PASS "@ + path).is_prefix_of(
            verdict_text(path, golden, v, tolerance),
        ),
        !passes(golden, v, tolerance) ==> ("DIFFER "@ + path).is_prefix_of(
            verdict_text(path, golden, v, tolerance),
        ),
{
    let t = verdict_text(path, golden, v, tolerance);
    let (p, d) = ("PASS "@ + path, "DIFFER "@ + path);
    if passes(golden, v, tolerance) {
        assert(t.subrange(0, p.len() as int) =~= p);
    } else {
        assert(t.subrange(0, d.len() as int) =~= d);
    }
}

/// An argument is an option that sets the tolerance.
pub open spec fn sets_tolerance(a: Seq<char>) -> bool {
    "--tolerance="@.is_prefix_of(a)
}

/// The paths of a comparison are its arguments that are no options, in their order.
pub proof fn law_paths_are_the_arguments_that_are_no_options(args: Seq<String>)
    ensures
        paths_in(args) == args.filter(
            |a: String| !sets_tolerance(a@) && a@ != "--tolerance"@,
        ).map_values(|a: String| a@),
    decreases args.len(),
{
    reveal(Seq::filter);
    let keep = |a: String| !sets_tolerance(a@) && a@ != "--tolerance"@;
    let text = |a: String| a@;
    if args.len() == 0 {
        assert(args.filter(keep).map_values(text) =~= seq![]);
    } else {
        let rest = args.drop_last();
        law_paths_are_the_arguments_that_are_no_options(rest);
        if keep(args.last()) {
            assert(args.filter(keep) =~= rest.filter(keep).push(args.last()));
            assert(args.filter(keep).map_values(text) =~= rest.filter(keep).map_values(text).push(
                args.last()@,
            ));
        }
    }
}

/// The last tolerance that is set counts, none is exact, and one that is no number of a
/// byte is refused.
pub proof fn law_the_last_tolerance_counts(args: Seq<String>, last: String, n: nat)
    ensures
        tolerance_in(Seq::empty()) == 0,
        n <= 255 && last@ == "--tolerance="@ + text::dec(n) ==> {
            &&& tolerance_in(args.push(last)) == n
            &&& tolerance_fault(args.push(last)) == tolerance_fault(args)
        },
        n > 255 && last@ == "--tolerance="@ + text::dec(n) ==> tolerance_fault(
            args.push(last),
        ) is Some,
        last@ == "--tolerance"@ ==> tolerance_fault(args.push(last)) is Some,
        !sets_tolerance(last@) && last@ != "--tolerance"@ ==> tolerance_in(args.push(last))
            == tolerance_in(args) && tolerance_fault(args.push(last)) == tolerance_fault(args),
{
    let all = args.push(last);
    assert(all.drop_last() =~= args);
    reveal_strlit("--tolerance=");
    reveal_strlit("--tolerance");
    let p = "--tolerance="@;
    text::law_decimal_text_reads_back(n);
    text::lemma_dec_is_digits(n);
    if last@ == p + text::dec(n) {
        assert(last@.skip(p.len() as int) =~= text::dec(n));
        assert(last@.subrange(0, p.len() as int) =~= p);
    }
    if last@ == "--tolerance"@ {
        assert(!p.is_prefix_of(last@));
    }
}

/// What is said of images that differ is how many pixels do, of how many, what share of a
/// hundred that is, and the largest difference of a channel; what is said of images that
/// pass within a tolerance is the same but for the share.
pub proof fn law_a_verdict_says_how_much_differs(
    path: Seq<char>,
    golden: Image,
    v: Verdict,
    tolerance: u8,
)
    requires
        golden.pixels@.len() >= 4,
    ensures
        ({
            let t = verdict_text(path, golden, v, tolerance);
            let n = golden.pixels@.len() / 4;
            &&& !passes(golden, v, tolerance) ==> {
                &&& says(t, "): "@, text::dec(v.changed as nat))
                &&& says(t, " of "@, text::dec(n))
                &&& says(t, " px differ ("@, text::dec(v.changed as nat * 100 / n))
                &&& says(t, "%), worst channel delta "@, text::dec(v.worst as nat))
            }
            &&& passes(golden, v, tolerance) && v.changed > 0 ==> {
                &&& says(t, " vs candidate (tolerance "@, text::dec(tolerance as nat))
                &&& says(t, "): "@, text::dec(v.changed as nat))
                &&& says(t, " px differ, worst channel delta "@, text::dec(v.worst as nat))
            }
        }),
{
    let t = verdict_text(path, golden, v, tolerance);
    let n = golden.pixels@.len() / 4;
    reveal_with_fuel(line, 7);
    if !passes(golden, v, tolerance) {
        let parts = seq![
            ("DIFFER "@, path),
            (" vs candidate ("@, if tolerance == 0 {
                "exact"@
            } else {
                "tolerance"@
            }),
            ("): "@, text::dec(v.changed as nat)),
            (" of "@, text::dec(n)),
            (" px differ ("@, text::dec(v.changed as nat * 100 / n)),
            ("%), worst channel delta "@, text::dec(v.worst as nat)),
        ];
        let end: Seq<char> = seq![];
        assert(seq![] + "DIFFER "@ =~= "DIFFER "@);
        assert(t == line(parts, 6));
        assert(t =~= line(parts, 6) + end);
        lemma_line(parts, end, 2);
        lemma_line(parts, end, 3);
        lemma_line(parts, end, 4);
        lemma_line(parts, end, 5);
    } else if v.changed > 0 {
        let parts = seq![
            ("PASS "@, path),
            (" vs candidate (tolerance "@, text::dec(tolerance as nat)),
            ("): "@, text::dec(v.changed as nat)),
            (" px differ, worst channel delta "@, text::dec(v.worst as nat)),
        ];
        let end = " (within the 1% budget)"@;
        assert(seq![] + "PASS "@ =~= "PASS "@);
        assert(t == line(parts, 4) + end);
        lemma_line(parts, end, 1);
        lemma_line(parts, end, 2);
        lemma_line(parts, end, 3);
    }
}

} // verus!
